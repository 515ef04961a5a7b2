use robmcf_greedy::algorithms::{floyd_warshall, invert_predecessors, shortest_path, try_floyd_warshall};
use robmcf_greedy::Matrix;

fn setup() -> (
    Matrix<usize>,
    Matrix<usize>,
    Matrix<usize>,
    Matrix<Option<usize>>,
    Matrix<usize>,
) {
    let capacities: Matrix<usize> = Matrix::from_elements(&vec![0, 0, 2, 1, 0, 2, 3, 2, 0], 3, 3);
    let costs: Matrix<usize> = Matrix::from_elements(&vec![0, 0, 3, 4, 0, 6, 7, 8, 0], 3, 3);
    let distance_map: Matrix<usize> =
        Matrix::from_elements(&vec![0, 11, 3, 4, 0, 6, 7, 8, 0], 3, 3);
    let predecessor_map: Matrix<Option<usize>> = Matrix::from_elements(
        &vec![
            Some(0),
            Some(2),
            Some(0),
            Some(1),
            Some(1),
            Some(1),
            Some(2),
            Some(2),
            Some(2),
        ],
        3,
        3,
    );
    let successor_map: Matrix<usize> =
        Matrix::from_elements(&vec![0, 2, 2, 0, 1, 2, 0, 1, 2], 3, 3);

    (
        capacities,
        costs,
        distance_map,
        predecessor_map,
        successor_map,
    )
}

#[test]
fn test_floyd_warshall_distances() {
    let (capacities, costs, distance_map, _, _) = setup();
    let (dist, _) = floyd_warshall(&capacities, &costs);

    assert_eq!(distance_map, dist);
}

#[test]
fn test_floyd_warshall_predecessors() {
    let (capacities, costs, _, predecessor_map, _) = setup();
    let (_, prev) = floyd_warshall(&capacities, &costs);

    assert_eq!(predecessor_map, prev);
}

#[test]
fn test_shortest_path_0_0() {
    let (_, _, _, predecessor_map, _) = setup();
    let path = shortest_path(&predecessor_map, 0, 0);

    assert_eq!(vec![0], path);
}

#[test]
fn test_shortest_path_0_1() {
    let (_, _, _, predecessor_map, _) = setup();
    let path = shortest_path(&predecessor_map, 0, 1);

    assert_eq!(vec![0, 2, 1], path);
}

#[test]
fn test_invert_predecessors() {
    let (_, _, _, predecessor_map, successor_map) = setup();
    let succ = invert_predecessors(&predecessor_map);

    assert_eq!(successor_map, succ);
}

#[test]
fn unreachable_vertices_keep_the_sentinel() {
    let capacities: Matrix<usize> = Matrix::from_rows(&vec![vec![0, 1], vec![0, 0]]);
    let costs: Matrix<usize> = Matrix::from_rows(&vec![vec![0, 5], vec![0, 0]]);
    let (dist, prev) = floyd_warshall(&capacities, &costs);
    assert_eq!(dist.as_rows(), vec![vec![0, 5], vec![usize::MAX, 0]]);
    assert_eq!(prev.as_rows(), vec![vec![Some(0), Some(0)], vec![None, Some(1)]]);
    assert_eq!(shortest_path(&prev, 1, 0), Vec::<usize>::new());
    let succ = invert_predecessors(&prev);
    assert_eq!(succ.as_rows(), vec![vec![0, 1], vec![usize::MAX, 1]]);
}

#[test]
fn overflowing_sums_are_reported() {
    let capacities: Matrix<usize> = Matrix::from_rows(&vec![vec![0, 1, 0], vec![0, 0, 1], vec![0, 0, 0]]);
    let costs: Matrix<usize> =
        Matrix::from_rows(&vec![vec![0, usize::MAX - 1, 0], vec![0, 0, 2], vec![0, 0, 0]]);
    assert!(try_floyd_warshall(&capacities, &costs).is_none());
    let small: Matrix<usize> = Matrix::from_rows(&vec![vec![0, 1, 0], vec![0, 0, 2], vec![0, 0, 0]]);
    let (dist, _) = try_floyd_warshall(&capacities, &small).unwrap();
    assert_eq!(*dist.get(0, 2), 3);
}
