use robmcf_greedy::Matrix;

#[test]
fn test_apply_mask() {
    let source: Matrix<usize> = Matrix::from_elements(&vec![1, 2, 3, 4], 2, 2);
    let mask: Matrix<bool> = Matrix::from_elements(&vec![true, false, false, true], 2, 2);
    let expected_result: Matrix<usize> =
        Matrix::from_elements(&vec![1, usize::MAX, usize::MAX, 4], 2, 2);
    assert_eq!(expected_result, source.apply_mask(&mask, usize::MAX));
}

#[test]
fn test_extend() {
    let mut source: Matrix<usize> = Matrix::from_elements(&vec![1, 2, 4, 5], 2, 2);
    let row: Vec<usize> = vec![7, 8];
    let column: Vec<usize> = vec![3, 6, 9];
    let expected_result: Matrix<usize> =
        Matrix::from_elements(&vec![1, 2, 3, 4, 5, 6, 7, 8, 9], 3, 3);

    source.extend(&row, &column);
    assert_eq!(expected_result, source);
}

#[test]
fn test_shrink() {
    let mut source: Matrix<usize> =
        Matrix::from_elements(&vec![1, 2, 3, 4, 5, 6, 7, 8, 9], 3, 3);
    let expected_result: Matrix<usize> = Matrix::from_elements(&vec![1, 2, 4, 5], 2, 2);

    source.shrink(1);
    assert_eq!(expected_result, source);
}

#[test]
fn get_returns_what_set_wrote() {
    let mut m: Matrix<usize> = Matrix::filled_with(0, 2, 3);
    m.set(1, 2, 42);
    assert_eq!(*m.get(1, 2), 42);
    assert_eq!(*m.get(0, 2), 0);
    *m.get_mut(0, 1) = 7;
    assert_eq!(m.elements(), &vec![0, 7, 0, 0, 0, 42]);
}

#[test]
fn shrink_undoes_extend() {
    let source: Matrix<usize> = Matrix::from_rows(&vec![vec![1, 2], vec![3, 4]]);
    let mut grown = source.clone();
    grown.extend(&vec![5, 6], &vec![7, 8, 9]);
    assert_eq!(grown.as_rows(), vec![vec![1, 2, 7], vec![3, 4, 8], vec![5, 6, 9]]);
    grown.shrink(1);
    assert_eq!(grown, source);
}

#[test]
fn shrink_non_square_keeps_as_many_rows_as_columns_left() {
    let mut m: Matrix<usize> = Matrix::from_rows(&vec![vec![1, 2, 3], vec![4, 5, 6]]);
    m.shrink(2);
    assert_eq!(m.num_rows(), 1);
    assert_eq!(m.num_columns(), 1);
    assert_eq!(m.as_rows(), vec![vec![1]]);
}

#[test]
fn increment_and_decrement_saturate() {
    let mut m: Matrix<usize> = Matrix::from_rows(&vec![vec![0, usize::MAX]]);
    assert_eq!(m.decrement(0, 0), 0);
    assert_eq!(m.increment(0, 1), usize::MAX);
    assert_eq!(m.increment(0, 0), 1);
    assert_eq!(m.decrement(0, 0), 0);
    assert_eq!(m.as_rows(), vec![vec![0, usize::MAX]]);
}

#[test]
fn rows_columns_indices_and_sum() {
    let m: Matrix<usize> = Matrix::from_rows(&vec![vec![1, 2, 3], vec![4, 5, 6]]);
    assert_eq!(m.as_columns(), vec![vec![1, 4], vec![2, 5], vec![3, 6]]);
    assert_eq!(m.rows_iter(), vec![vec![1, 2, 3], vec![4, 5, 6]]);
    assert_eq!(m.indices(), vec![(0, 0), (0, 1), (0, 2), (1, 0), (1, 1), (1, 2)]);
    assert_eq!(m.sum(), 21);
    assert_eq!(m.row_len(), 3);
    assert_eq!(m.column_len(), 3);
    let empty: Matrix<usize> = Matrix::from_rows(&vec![]);
    assert_eq!(empty.num_rows(), 0);
    assert_eq!(empty.num_columns(), 0);
    assert_eq!(empty, Matrix::empty());
}

#[test]
fn shrink_cuts_by_the_row_length() {
    // `row_len` and `column_len` are both the number of columns: shrinking
    // a 3 x 5 matrix by one keeps its 3 rows and cuts each to 4 cells
    let mut m: Matrix<usize> = Matrix::filled_with(7, 3, 5);
    assert_eq!(m.row_len(), 5);
    assert_eq!(m.column_len(), 5);
    m.shrink(1);
    assert_eq!(m.num_rows(), 3);
    assert_eq!(m.num_columns(), 4);
}
