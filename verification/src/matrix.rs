//! A dense, row-major matrix with a fixed shape.
use vstd::prelude::*;

verus! {

/// Position of cell `(r, c)` in the row-major element sequence of a matrix
/// with `columns` columns.
pub open spec fn flat(r: int, c: int, columns: int) -> int {
    r * columns + c
}

/// Every cell of a `rows` x `columns` matrix lies inside its element sequence.
pub proof fn lemma_flat_in_bounds(r: int, c: int, rows: int, columns: int)
    requires
        0 <= r < rows,
        0 <= c < columns,
    ensures
        0 <= flat(r, c, columns) < rows * columns,
        flat(r, c, columns) + 1 <= flat(r + 1, 0, columns),
{
    assert(0 <= r * columns) by (nonlinear_arith)
        requires
            0 <= r,
            0 <= columns,
    ;
    assert((r + 1) * columns <= rows * columns) by (nonlinear_arith)
        requires
            0 <= r < rows,
            0 <= columns,
    ;
    assert((r + 1) * columns == r * columns + columns) by (nonlinear_arith);
}

/// Distinct cells occupy distinct positions.
pub proof fn lemma_flat_injective(r1: int, c1: int, r2: int, c2: int, columns: int)
    requires
        0 <= r1,
        0 <= r2,
        0 <= c1 < columns,
        0 <= c2 < columns,
        flat(r1, c1, columns) == flat(r2, c2, columns),
    ensures
        r1 == r2,
        c1 == c2,
{
    if r1 < r2 {
        assert((r1 + 1) * columns <= r2 * columns) by (nonlinear_arith)
            requires
                r1 + 1 <= r2,
                0 <= columns,
        ;
        assert((r1 + 1) * columns == r1 * columns + columns) by (nonlinear_arith);
    } else if r2 < r1 {
        assert((r2 + 1) * columns <= r1 * columns) by (nonlinear_arith)
            requires
                r2 + 1 <= r1,
                0 <= columns,
        ;
        assert((r2 + 1) * columns == r2 * columns + columns) by (nonlinear_arith);
    }
}

/// A matrix of `rows` x `columns` cells, stored row by row.
#[derive(Debug, PartialEq, Eq)]
pub struct Matrix<T> {
    rows: usize,
    columns: usize,
    elements: Vec<T>,
}

impl<T> Matrix<T> {
    /// Number of rows.
    pub closed spec fn nrows(self) -> nat {
        self.rows as nat
    }

    /// Number of columns.
    pub closed spec fn ncols(self) -> nat {
        self.columns as nat
    }

    /// All cells in row-major order.
    pub closed spec fn cells(self) -> Seq<T> {
        self.elements@
    }

    /// The cell in row `r` and column `c`.
    pub open spec fn at(self, r: int, c: int) -> T {
        self.cells()[flat(r, c, self.ncols() as int)]
    }

    /// `(r, c)` names a cell of the matrix.
    pub open spec fn contains(self, r: int, c: int) -> bool {
        0 <= r < self.nrows() && 0 <= c < self.ncols()
    }

    /// The matrix is square with `n` rows.
    pub open spec fn is_square(self, n: nat) -> bool {
        self.nrows() == n && self.ncols() == n
    }

    /// The cell sequence holds exactly one element per cell.
    pub open spec fn wf(self) -> bool {
        &&& self.cells().len() == self.nrows() * self.ncols()
        &&& self.nrows() * self.ncols() <= usize::MAX
        &&& self.nrows() <= usize::MAX
        &&& self.ncols() <= usize::MAX
    }

    pub fn num_rows(&self) -> (n: usize)
        ensures
            n == self.nrows(),
    {
        self.rows
    }

    pub fn num_columns(&self) -> (n: usize)
        ensures
            n == self.ncols(),
    {
        self.columns
    }

    pub fn get(&self, row: usize, column: usize) -> (e: &T)
        requires
            self.wf(),
            self.contains(row as int, column as int),
        ensures
            *e == self.at(row as int, column as int),
    {
        proof {
            lemma_flat_in_bounds(row as int, column as int, self.rows as int, self.columns as int);
        }
        &self.elements[row * self.columns + column]
    }

    pub fn set(&mut self, row: usize, column: usize, value: T)
        requires
            old(self).wf(),
            old(self).contains(row as int, column as int),
        ensures
            final(self).wf(),
            final(self).nrows() == old(self).nrows(),
            final(self).ncols() == old(self).ncols(),
            final(self).cells() == old(self).cells().update(
                flat(row as int, column as int, old(self).ncols() as int),
                value,
            ),
            forall|r: int, c: int|
                old(self).contains(r, c) ==> #[trigger] final(self).at(r, c) == if r == row && c
                    == column {
                    value
                } else {
                    old(self).at(r, c)
                },
    {
        proof {
            lemma_flat_in_bounds(row as int, column as int, self.rows as int, self.columns as int);
        }
        let ghost before = *self;
        let i = row * self.columns + column;
        self.elements.set(i, value);
        proof {
            assert forall|r: int, c: int| before.contains(r, c) implies #[trigger] self.at(r, c)
                == if r == row && c == column {
                value
            } else {
                before.at(r, c)
            } by {
                lemma_flat_in_bounds(r, c, before.rows as int, before.columns as int);
                if !(r == row && c == column) {
                    if flat(r, c, before.columns as int) == flat(
                        row as int,
                        column as int,
                        before.columns as int,
                    ) {
                        lemma_flat_injective(
                            r,
                            c,
                            row as int,
                            column as int,
                            before.columns as int,
                        );
                    }
                }
            }
        }
    }

    pub fn get_mut(&mut self, row: usize, column: usize) -> (e: &mut T)
        requires
            old(self).wf(),
            old(self).contains(row as int, column as int),
        ensures
            *e == old(self).at(row as int, column as int),
            final(self).wf(),
            final(self).nrows() == old(self).nrows(),
            final(self).ncols() == old(self).ncols(),
            final(self).cells() == old(self).cells().update(
                flat(row as int, column as int, old(self).ncols() as int),
                *final(e),
            ),
    {
        proof {
            lemma_flat_in_bounds(row as int, column as int, self.rows as int, self.columns as int);
        }
        let i = row * self.columns + column;
        &mut self.elements[i]
    }

    /// The matrix with no rows and no columns.
    pub fn empty() -> (m: Self)
        ensures
            m.wf(),
            m.nrows() == 0,
            m.ncols() == 0,
    {
        Matrix { rows: 0, columns: 0, elements: Vec::new() }
    }

    pub fn filled_with(value: T, rows: usize, columns: usize) -> (m: Self)
        where
            T: Clone,
        requires
            rows * columns <= usize::MAX,
        ensures
            m.wf(),
            m.nrows() == rows,
            m.ncols() == columns,
            forall|i: int| 0 <= i < m.cells().len() ==> cloned(value, #[trigger] m.cells()[i]),
    {
        let total = rows * columns;
        let mut elements: Vec<T> = Vec::new();
        let mut k: usize = 0;
        while k < total
            invariant
                k <= total,
                elements@.len() == k,
                forall|i: int| 0 <= i < k ==> cloned(value, #[trigger] elements@[i]),
            decreases total - k,
        {
            elements.push(value.clone());
            k = k + 1;
        }
        Matrix { rows, columns, elements }
    }

    pub fn from_elements(elements: &Vec<T>, rows: usize, columns: usize) -> (m: Self)
        where
            T: Clone,
        requires
            elements@.len() == rows * columns,
        ensures
            m.wf(),
            m.nrows() == rows,
            m.ncols() == columns,
            m.cells().len() == elements@.len(),
            forall|i: int|
                0 <= i < elements@.len() ==> cloned(elements@[i], #[trigger] m.cells()[i]),
    {
        Matrix { rows, columns, elements: elements.clone() }
    }

    pub fn from_rows(rows: &Vec<Vec<T>>) -> (m: Self)
        where
            T: Clone,
        requires
            rows_are_uniform(rows@),
            rows@.len() * row_width(rows@) <= usize::MAX,
        ensures
            m.wf(),
            m.nrows() == rows@.len(),
            m.ncols() == row_width(rows@),
            forall|r: int, c: int|
                m.contains(r, c) ==> cloned(rows@[r]@[c], #[trigger] m.at(r, c)),
    {
        let n = rows.len();
        let width = if n == 0 {
            0
        } else {
            rows[0].len()
        };
        let mut elements: Vec<T> = Vec::new();
        let mut r: usize = 0;
        while r < n
            invariant
                n == rows@.len(),
                width == row_width(rows@),
                rows_are_uniform(rows@),
                n * width <= usize::MAX,
                r <= n,
                elements@.len() == r * width,
                forall|a: int, b: int|
                    0 <= a < r && 0 <= b < width ==> cloned(
                        rows@[a]@[b],
                        #[trigger] elements@[flat(a, b, width as int)],
                    ),
            decreases n - r,
        {
            let row = &rows[r];
            let mut c: usize = 0;
            while c < width
                invariant
                    n == rows@.len(),
                    width == row_width(rows@),
                    rows_are_uniform(rows@),
                    n * width <= usize::MAX,
                    r < n,
                    row == rows@[r as int],
                    c <= width,
                    elements@.len() == r * width + c,
                    forall|a: int, b: int|
                        0 <= a < r && 0 <= b < width ==> cloned(
                            rows@[a]@[b],
                            #[trigger] elements@[flat(a, b, width as int)],
                        ),
                    forall|b: int|
                        0 <= b < c ==> cloned(
                            rows@[r as int]@[b],
                            #[trigger] elements@[flat(r as int, b, width as int)],
                        ),
                decreases width - c,
            {
                let ghost before = elements@;
                elements.push(row[c].clone());
                proof {
                    assert forall|a: int, b: int| 0 <= a < r && 0 <= b < width implies cloned(
                        rows@[a]@[b],
                        #[trigger] elements@[flat(a, b, width as int)],
                    ) by {
                        lemma_flat_in_bounds(a, b, r as int, width as int);
                        assert(elements@[flat(a, b, width as int)] == before[flat(
                            a,
                            b,
                            width as int,
                        )]);
                    }
                }
                c = c + 1;
            }
            proof {
                assert((r + 1) * width == r * width + width) by (nonlinear_arith);
                assert forall|a: int, b: int| 0 <= a < r + 1 && 0 <= b < width implies cloned(
                    rows@[a]@[b],
                    #[trigger] elements@[flat(a, b, width as int)],
                ) by {
                    if a == r {
                        assert(elements@[flat(r as int, b, width as int)] == elements@[flat(
                            a,
                            b,
                            width as int,
                        )]);
                    }
                }
            }
            r = r + 1;
        }
        Matrix { rows: n, columns: width, elements }
    }

    pub fn row_len(&self) -> (n: usize)
        ensures
            n == self.ncols(),
    {
        self.columns
    }

    /// The number of columns again: `extend` and `shrink` measure both
    /// dimensions of a (square) matrix with it.
    pub fn column_len(&self) -> (n: usize)
        ensures
            n == self.ncols(),
    {
        self.columns
    }

    /// All cells in row-major order.
    pub fn elements(&self) -> (e: &Vec<T>)
        ensures
            e@ == self.cells(),
    {
        &self.elements
    }

    pub fn as_rows(&self) -> (rows: Vec<Vec<T>>)
        where
            T: Clone,
        requires
            self.wf(),
        ensures
            rows@.len() == self.nrows(),
            forall|r: int| 0 <= r < self.nrows() ==> #[trigger] rows@[r]@.len() == self.ncols(),
            forall|r: int, c: int|
                self.contains(r, c) ==> cloned(self.at(r, c), #[trigger] rows@[r]@[c]),
    {
        let mut rows: Vec<Vec<T>> = Vec::new();
        let mut r: usize = 0;
        while r < self.rows
            invariant
                self.wf(),
                r <= self.rows,
                rows@.len() == r,
                forall|a: int| 0 <= a < r ==> #[trigger] rows@[a]@.len() == self.ncols(),
                forall|a: int, b: int|
                    0 <= a < r && 0 <= b < self.ncols() ==> cloned(
                        self.at(a, b),
                        #[trigger] rows@[a]@[b],
                    ),
            decreases self.rows - r,
        {
            let mut row: Vec<T> = Vec::new();
            let mut c: usize = 0;
            while c < self.columns
                invariant
                    self.wf(),
                    r < self.rows,
                    c <= self.columns,
                    row@.len() == c,
                    forall|b: int| 0 <= b < c ==> cloned(self.at(r as int, b), #[trigger] row@[b]),
                decreases self.columns - c,
            {
                row.push(self.get(r, c).clone());
                c = c + 1;
            }
            rows.push(row);
            r = r + 1;
        }
        rows
    }

    /// The rows, one vector per row (see `as_rows`).
    pub fn rows_iter(&self) -> (rows: Vec<Vec<T>>)
        where
            T: Clone,
        requires
            self.wf(),
        ensures
            rows@.len() == self.nrows(),
            forall|r: int| 0 <= r < self.nrows() ==> #[trigger] rows@[r]@.len() == self.ncols(),
            forall|r: int, c: int|
                self.contains(r, c) ==> cloned(self.at(r, c), #[trigger] rows@[r]@[c]),
    {
        self.as_rows()
    }

    pub fn as_columns(&self) -> (columns: Vec<Vec<T>>)
        where
            T: Clone,
        requires
            self.wf(),
        ensures
            columns@.len() == self.ncols(),
            forall|c: int|
                0 <= c < self.ncols() ==> #[trigger] columns@[c]@.len() == self.nrows(),
            forall|r: int, c: int|
                self.contains(r, c) ==> cloned(self.at(r, c), #[trigger] columns@[c]@[r]),
    {
        let mut columns: Vec<Vec<T>> = Vec::new();
        let mut c: usize = 0;
        while c < self.columns
            invariant
                self.wf(),
                c <= self.columns,
                columns@.len() == c,
                forall|b: int| 0 <= b < c ==> #[trigger] columns@[b]@.len() == self.nrows(),
                forall|a: int, b: int|
                    0 <= a < self.nrows() && 0 <= b < c ==> cloned(
                        self.at(a, b),
                        #[trigger] columns@[b]@[a],
                    ),
            decreases self.columns - c,
        {
            let mut column: Vec<T> = Vec::new();
            let mut r: usize = 0;
            while r < self.rows
                invariant
                    self.wf(),
                    c < self.columns,
                    r <= self.rows,
                    column@.len() == r,
                    forall|a: int|
                        0 <= a < r ==> cloned(self.at(a, c as int), #[trigger] column@[a]),
                decreases self.rows - r,
            {
                column.push(self.get(r, c).clone());
                r = r + 1;
            }
            columns.push(column);
            c = c + 1;
        }
        columns
    }

    /// All cell positions `(row, column)` in row-major order.
    pub fn indices(&self) -> (idx: Vec<(usize, usize)>)
        requires
            self.wf(),
        ensures
            idx@.len() == self.nrows() * self.ncols(),
            forall|r: int, c: int|
                self.contains(r, c) ==> #[trigger] idx@[flat(r, c, self.ncols() as int)] == (
                r as usize,
                c as usize,
            ),
    {
        let mut idx: Vec<(usize, usize)> = Vec::new();
        let mut r: usize = 0;
        while r < self.rows
            invariant
                self.wf(),
                r <= self.rows,
                idx@.len() == r * self.columns,
                forall|a: int, b: int|
                    0 <= a < r && 0 <= b < self.ncols() ==> #[trigger] idx@[flat(
                        a,
                        b,
                        self.ncols() as int,
                    )] == (a as usize, b as usize),
            decreases self.rows - r,
        {
            let mut c: usize = 0;
            while c < self.columns
                invariant
                    self.wf(),
                    r < self.rows,
                    c <= self.columns,
                    idx@.len() == r * self.columns + c,
                    forall|a: int, b: int|
                        0 <= a < r && 0 <= b < self.ncols() ==> #[trigger] idx@[flat(
                            a,
                            b,
                            self.ncols() as int,
                        )] == (a as usize, b as usize),
                    forall|b: int|
                        0 <= b < c ==> #[trigger] idx@[flat(r as int, b, self.ncols() as int)]
                            == (r, b as usize),
                decreases self.columns - c,
            {
                let ghost before = idx@;
                idx.push((r, c));
                proof {
                    assert forall|a: int, b: int|
                        0 <= a < r && 0 <= b < self.ncols() implies #[trigger] idx@[flat(
                        a,
                        b,
                        self.ncols() as int,
                    )] == (a as usize, b as usize) by {
                        lemma_flat_in_bounds(a, b, r as int, self.ncols() as int);
                        assert(idx@[flat(a, b, self.ncols() as int)] == before[flat(
                            a,
                            b,
                            self.ncols() as int,
                        )]);
                    }
                }
                c = c + 1;
            }
            proof {
                assert((r + 1) * self.columns == r * self.columns + self.columns)
                    by (nonlinear_arith);
                assert forall|a: int, b: int|
                    0 <= a < r + 1 && 0 <= b < self.ncols() implies #[trigger] idx@[flat(
                    a,
                    b,
                    self.ncols() as int,
                )] == (a as usize, b as usize) by {
                    if a == r {
                        assert(idx@[flat(r as int, b, self.ncols() as int)] == (r, b as usize));
                    }
                }
            }
            r = r + 1;
        }
        idx
    }

    /// Keeps the cells where `mask` is `true` and puts `bottom` everywhere else.
    pub fn apply_mask(&self, mask: &Matrix<bool>, bottom: T) -> (m: Self)
        where
            T: Clone,
        requires
            self.wf(),
            mask.wf(),
            mask.nrows() == self.nrows(),
            mask.ncols() == self.ncols(),
        ensures
            m.wf(),
            m.nrows() == self.nrows(),
            m.ncols() == self.ncols(),
            forall|i: int|
                0 <= i < self.cells().len() ==> if mask.cells()[i] {
                    cloned(self.cells()[i], #[trigger] m.cells()[i])
                } else {
                    cloned(bottom, m.cells()[i])
                },
    {
        let total = self.elements.len();
        let mut elements: Vec<T> = Vec::new();
        let mut k: usize = 0;
        while k < total
            invariant
                self.wf(),
                mask.wf(),
                mask.nrows() == self.nrows(),
                mask.ncols() == self.ncols(),
                total == self.elements@.len(),
                k <= total,
                elements@.len() == k,
                forall|i: int|
                    0 <= i < k ==> if mask.cells()[i] {
                        cloned(self.cells()[i], #[trigger] elements@[i])
                    } else {
                        cloned(bottom, elements@[i])
                    },
            decreases total - k,
        {
            if mask.elements[k] {
                elements.push(self.elements[k].clone());
            } else {
                elements.push(bottom.clone());
            }
            k = k + 1;
        }
        Matrix { rows: self.rows, columns: self.columns, elements }
    }

    /// Appends a row and a column to a square matrix: `row` becomes the new
    /// last row (without its last cell) and `column` the new last column.
    pub fn extend(&mut self, row: &Vec<T>, column: &Vec<T>)
        where
            T: Copy,
        requires
            old(self).wf(),
            old(self).nrows() == old(self).ncols(),
            row@.len() == old(self).ncols(),
            column@.len() == old(self).ncols() + 1,
            (old(self).ncols() + 1) * (old(self).ncols() + 1) <= usize::MAX,
        ensures
            final(self).wf(),
            final(self).is_square(old(self).ncols() + 1),
            forall|r: int, c: int|
                final(self).contains(r, c) ==> #[trigger] final(self).at(r, c) == extended_cell(
                    *old(self),
                    row@,
                    column@,
                    r,
                    c,
                ),
    {
        let n = self.columns;
        proof {
            assert(n + 1 <= (n + 1) * (n + 1)) by (nonlinear_arith);
        }
        let m = n + 1;
        let ghost source = *self;
        let mut elements: Vec<T> = Vec::new();
        let mut r: usize = 0;
        while r < m
            invariant
                source == *self,
                self.wf(),
                self.nrows() == n,
                self.ncols() == n,
                m == n + 1,
                m * m <= usize::MAX,
                row@.len() == n,
                column@.len() == m,
                r <= m,
                elements@.len() == r * m,
                forall|a: int, b: int|
                    0 <= a < r && 0 <= b < m ==> #[trigger] elements@[flat(a, b, m as int)]
                        == extended_cell(source, row@, column@, a, b),
            decreases m - r,
        {
            let mut c: usize = 0;
            while c < m
                invariant
                    source == *self,
                    self.wf(),
                    self.nrows() == n,
                    self.ncols() == n,
                    m == n + 1,
                    m * m <= usize::MAX,
                    row@.len() == n,
                    column@.len() == m,
                    r < m,
                    c <= m,
                    elements@.len() == r * m + c,
                    forall|a: int, b: int|
                        0 <= a < r && 0 <= b < m ==> #[trigger] elements@[flat(a, b, m as int)]
                            == extended_cell(source, row@, column@, a, b),
                    forall|b: int|
                        0 <= b < c ==> #[trigger] elements@[flat(r as int, b, m as int)]
                            == extended_cell(source, row@, column@, r as int, b),
                decreases m - c,
            {
                let ghost before = elements@;
                let value = if c == n {
                    column[r]
                } else if r == n {
                    row[c]
                } else {
                    *self.get(r, c)
                };
                elements.push(value);
                proof {
                    assert forall|a: int, b: int| 0 <= a < r && 0 <= b < m implies #[trigger] elements@[flat(
                        a,
                        b,
                        m as int,
                    )] == extended_cell(source, row@, column@, a, b) by {
                        lemma_flat_in_bounds(a, b, r as int, m as int);
                        assert(elements@[flat(a, b, m as int)] == before[flat(a, b, m as int)]);
                    }
                }
                c = c + 1;
            }
            proof {
                assert((r + 1) * m == r * m + m) by (nonlinear_arith);
                assert forall|a: int, b: int| 0 <= a < r + 1 && 0 <= b < m implies #[trigger] elements@[flat(
                    a,
                    b,
                    m as int,
                )] == extended_cell(source, row@, column@, a, b) by {
                    if a == r {
                        assert(elements@[flat(r as int, b, m as int)] == extended_cell(
                            source,
                            row@,
                            column@,
                            r as int,
                            b,
                        ));
                    }
                }
            }
            r = r + 1;
        }
        *self = Matrix { rows: m, columns: m, elements };
    }

    /// Keeps the top-left part of the matrix: as many rows as remain of the
    /// row length after dropping `amount`, each cut to that length.
    pub fn shrink(&mut self, amount: usize)
        where
            T: Clone,
        requires
            old(self).wf(),
            old(self).ncols() > amount,
        ensures
            final(self).wf(),
            final(self).nrows() == shrunk_rows(old(self).nrows(), old(self).ncols(), amount as nat),
            final(self).ncols() == shrunk_columns(
                old(self).nrows(),
                old(self).ncols(),
                amount as nat,
            ),
            forall|r: int, c: int|
                final(self).contains(r, c) ==> cloned(old(self).at(r, c), #[trigger] final(self).at(r, c)),
    {
        let keep = self.columns - amount;
        let new_rows = if self.rows < keep {
            self.rows
        } else {
            keep
        };
        let new_columns = if self.rows == 0 {
            0
        } else {
            keep
        };
        proof {
            assert(new_rows * new_columns <= self.rows * self.columns) by (nonlinear_arith)
                requires
                    new_rows <= self.rows,
                    new_columns <= self.columns,
            ;
        }
        let mut elements: Vec<T> = Vec::new();
        let mut r: usize = 0;
        while r < new_rows
            invariant
                self.wf(),
                new_rows <= self.nrows(),
                new_columns <= self.ncols(),
                new_rows * new_columns <= usize::MAX,
                r <= new_rows,
                elements@.len() == r * new_columns,
                forall|a: int, b: int|
                    0 <= a < r && 0 <= b < new_columns ==> cloned(
                        self.at(a, b),
                        #[trigger] elements@[flat(a, b, new_columns as int)],
                    ),
            decreases new_rows - r,
        {
            let mut c: usize = 0;
            while c < new_columns
                invariant
                    self.wf(),
                    new_rows <= self.nrows(),
                    new_columns <= self.ncols(),
                    new_rows * new_columns <= usize::MAX,
                    r < new_rows,
                    c <= new_columns,
                    elements@.len() == r * new_columns + c,
                    forall|a: int, b: int|
                        0 <= a < r && 0 <= b < new_columns ==> cloned(
                            self.at(a, b),
                            #[trigger] elements@[flat(a, b, new_columns as int)],
                        ),
                    forall|b: int|
                        0 <= b < c ==> cloned(
                            self.at(r as int, b),
                            #[trigger] elements@[flat(r as int, b, new_columns as int)],
                        ),
                decreases new_columns - c,
            {
                let ghost before = elements@;
                elements.push(self.get(r, c).clone());
                proof {
                    assert forall|a: int, b: int| 0 <= a < r && 0 <= b < new_columns implies cloned(
                        self.at(a, b),
                        #[trigger] elements@[flat(a, b, new_columns as int)],
                    ) by {
                        lemma_flat_in_bounds(a, b, r as int, new_columns as int);
                        assert(elements@[flat(a, b, new_columns as int)] == before[flat(
                            a,
                            b,
                            new_columns as int,
                        )]);
                    }
                }
                c = c + 1;
            }
            proof {
                assert((r + 1) * new_columns == r * new_columns + new_columns)
                    by (nonlinear_arith);
                assert forall|a: int, b: int| 0 <= a < r + 1 && 0 <= b < new_columns implies cloned(
                    self.at(a, b),
                    #[trigger] elements@[flat(a, b, new_columns as int)],
                ) by {
                    if a == r {
                        assert(elements@[flat(r as int, b, new_columns as int)] == elements@[flat(
                            a,
                            b,
                            new_columns as int,
                        )]);
                    }
                }
            }
            r = r + 1;
        }
        *self = Matrix { rows: new_rows, columns: new_columns, elements };
    }
}

impl<T: Clone> Clone for Matrix<T> {
    fn clone(&self) -> (m: Self)
        ensures
            m.nrows() == self.nrows(),
            m.ncols() == self.ncols(),
            m.cells().len() == self.cells().len(),
            forall|i: int|
                0 <= i < self.cells().len() ==> cloned(self.cells()[i], #[trigger] m.cells()[i]),
    {
        Matrix { rows: self.rows, columns: self.columns, elements: self.elements.clone() }
    }
}

impl Matrix<usize> {
    /// Adds one to a cell, unless it holds `usize::MAX`; returns the cell's
    /// new value.
    pub fn increment(&mut self, row: usize, column: usize) -> (v: usize)
        requires
            old(self).wf(),
            old(self).contains(row as int, column as int),
        ensures
            final(self).wf(),
            final(self).nrows() == old(self).nrows(),
            final(self).ncols() == old(self).ncols(),
            old(self).at(row as int, column as int) < usize::MAX ==> v == old(self).at(
                row as int,
                column as int,
            ) + 1 && final(self).cells() == old(self).cells().update(
                flat(row as int, column as int, old(self).ncols() as int),
                v,
            ),
            old(self).at(row as int, column as int) == usize::MAX ==> v == usize::MAX
                && *final(self) == *old(self),
    {
        let old_value = *self.get(row, column);
        if old_value < usize::MAX {
            self.set(row, column, old_value + 1);
        } else {
            return old_value;
        }
        old_value + 1
    }

    /// Subtracts one from a cell, unless it holds zero; returns the cell's
    /// new value.
    pub fn decrement(&mut self, row: usize, column: usize) -> (v: usize)
        requires
            old(self).wf(),
            old(self).contains(row as int, column as int),
        ensures
            final(self).wf(),
            final(self).nrows() == old(self).nrows(),
            final(self).ncols() == old(self).ncols(),
            old(self).at(row as int, column as int) > 0 ==> v == old(self).at(
                row as int,
                column as int,
            ) - 1 && final(self).cells() == old(self).cells().update(
                flat(row as int, column as int, old(self).ncols() as int),
                v,
            ),
            old(self).at(row as int, column as int) == 0 ==> v == 0 && *final(self) == *old(self),
    {
        let old_value = *self.get(row, column);
        if old_value > 0 {
            self.set(row, column, old_value - 1);
        } else {
            return old_value;
        }
        old_value - 1
    }

    /// The sum of all cells.
    pub fn sum(&self) -> (total: usize)
        requires
            seq_sum(self.cells()) <= usize::MAX,
        ensures
            total == seq_sum(self.cells()),
    {
        let n = self.elements.len();
        let mut total: usize = 0;
        let mut k: usize = 0;
        while k < n
            invariant
                n == self.cells().len(),
                seq_sum(self.cells()) <= usize::MAX,
                k <= n,
                total == seq_sum(self.cells().take(k as int)),
            decreases n - k,
        {
            proof {
                assert(self.cells().take(k + 1).drop_last() == self.cells().take(k as int));
                lemma_seq_sum_prefix(self.cells(), k + 1);
            }
            total = total + self.elements[k];
            k = k + 1;
        }
        proof {
            assert(self.cells().take(n as int) == self.cells());
        }
        total
    }
}

/// Shrinking by one undoes extending a square matrix by one row and column.
pub proof fn law_shrink_undoes_extend(
    m: Matrix<usize>,
    row: Seq<usize>,
    column: Seq<usize>,
    grown: Matrix<usize>,
    back: Matrix<usize>,
)
    requires
        m.wf(),
        m.nrows() == m.ncols(),
        row.len() == m.ncols(),
        column.len() == m.ncols() + 1,
        grown.wf(),
        grown.is_square(m.ncols() + 1),
        forall|r: int, c: int|
            grown.contains(r, c) ==> #[trigger] grown.at(r, c) == extended_cell(m, row, column, r, c),
        back.wf(),
        back.nrows() == shrunk_rows(grown.nrows(), grown.ncols(), 1),
        back.ncols() == shrunk_columns(grown.nrows(), grown.ncols(), 1),
        forall|r: int, c: int| back.contains(r, c) ==> cloned(grown.at(r, c), #[trigger] back.at(r, c)),
    ensures
        back.nrows() == m.nrows(),
        back.ncols() == m.ncols(),
        forall|r: int, c: int| m.contains(r, c) ==> #[trigger] back.at(r, c) == m.at(r, c),
{
    assert forall|r: int, c: int| m.contains(r, c) implies #[trigger] back.at(r, c) == m.at(r, c) by {
        assert(back.contains(r, c));
        assert(grown.contains(r, c));
        assert(grown.at(r, c) == m.at(r, c));
    }
}

/// Incrementing a cell below `usize::MAX` and then decrementing it restores
/// the matrix.
pub proof fn law_decrement_undoes_increment(
    m: Matrix<usize>,
    r: int,
    c: int,
    up: Matrix<usize>,
    up_value: usize,
    down: Matrix<usize>,
    down_value: usize,
)
    requires
        m.wf(),
        m.contains(r, c),
        m.at(r, c) < usize::MAX,
        up_value == m.at(r, c) + 1,
        up.nrows() == m.nrows(),
        up.ncols() == m.ncols(),
        up.cells() == m.cells().update(flat(r, c, m.ncols() as int), up_value),
        up.at(r, c) > 0 ==> down_value == up.at(r, c) - 1 && down.cells() == up.cells().update(
            flat(r, c, up.ncols() as int),
            down_value,
        ),
        down.nrows() == up.nrows(),
        down.ncols() == up.ncols(),
    ensures
        down.cells() == m.cells(),
        down_value == m.at(r, c),
{
    lemma_flat_in_bounds(r, c, m.nrows() as int, m.ncols() as int);
    assert(down.cells() =~= m.cells());
}

/// The sum of a sequence of naturals.
pub open spec fn seq_sum(s: Seq<usize>) -> int
    decreases s.len(),
{
    if s.len() == 0 {
        0
    } else {
        seq_sum(s.drop_last()) + s.last()
    }
}

/// Sums are never negative.
pub proof fn lemma_seq_sum_nonneg(s: Seq<usize>)
    ensures
        seq_sum(s) >= 0,
    decreases s.len(),
{
    if s.len() > 0 {
        lemma_seq_sum_nonneg(s.drop_last());
    }
}

/// The sum of `v`, or `None` when it does not fit in a `usize`.
pub fn checked_sum(v: &Vec<usize>) -> (r: Option<usize>)
    ensures
        r matches Some(x) ==> x == seq_sum(v@),
        r is None <==> seq_sum(v@) > usize::MAX,
{
    let mut total: usize = 0;
    let mut k: usize = 0;
    while k < v.len()
        invariant
            k <= v@.len(),
            total == seq_sum(v@.take(k as int)),
        decreases v@.len() - k,
    {
        proof {
            assert(v@.take(k + 1).drop_last() =~= v@.take(k as int));
        }
        match total.checked_add(v[k]) {
            Some(t) => {
                total = t;
            },
            None => {
                proof {
                    lemma_seq_sum_prefix(v@, k + 1);
                }
                return None;
            },
        }
        k = k + 1;
    }
    proof {
        assert(v@.take(k as int) =~= v@);
    }
    Some(total)
}

/// A prefix never sums to more than the whole sequence.
pub proof fn lemma_seq_sum_prefix(s: Seq<usize>, k: int)
    requires
        0 <= k <= s.len(),
    ensures
        seq_sum(s.take(k)) <= seq_sum(s),
    decreases s.len() - k,
{
    if k < s.len() {
        lemma_seq_sum_prefix(s, k + 1);
        assert(s.take(k + 1).drop_last() == s.take(k));
    } else {
        assert(s.take(k) == s);
    }
}

/// The cell `(r, c)` of the square matrix `m` extended by `row` and `column`.
pub open spec fn extended_cell<T>(m: Matrix<T>, row: Seq<T>, column: Seq<T>, r: int, c: int) -> T {
    if c == m.ncols() {
        column[r]
    } else if r == m.ncols() {
        row[c]
    } else {
        m.at(r, c)
    }
}

/// Rows left by `shrink(amount)` on a `rows` x `columns` matrix.
pub open spec fn shrunk_rows(rows: nat, columns: nat, amount: nat) -> nat {
    if rows < columns - amount {
        rows
    } else {
        (columns - amount) as nat
    }
}

/// Columns left by `shrink(amount)` on a `rows` x `columns` matrix.
pub open spec fn shrunk_columns(rows: nat, columns: nat, amount: nat) -> nat {
    if rows == 0 {
        0
    } else {
        (columns - amount) as nat
    }
}

/// All rows of `rows` are as long as the first one.
pub open spec fn rows_are_uniform<T>(rows: Seq<Vec<T>>) -> bool {
    forall|i: int| 0 <= i < rows.len() ==> #[trigger] rows[i]@.len() == row_width(rows)
}

/// The length of the first row, or zero when there is none.
pub open spec fn row_width<T>(rows: Seq<Vec<T>>) -> nat {
    if rows.len() == 0 {
        0
    } else {
        rows[0]@.len()
    }
}

/// A copy of `matrix` extended by a new last row `row_col.0` and a new last
/// column `row_col.1` (see `Matrix::extend`).
pub fn extend_matrix<T: Copy>(matrix: &Matrix<T>, row_col: (Vec<T>, Vec<T>)) -> (m: Matrix<T>)
    requires
        matrix.wf(),
        matrix.nrows() == matrix.ncols(),
        row_col.0@.len() == matrix.ncols(),
        row_col.1@.len() == matrix.ncols() + 1,
        (matrix.ncols() + 1) * (matrix.ncols() + 1) <= usize::MAX,
    ensures
        m.wf(),
        m.is_square(matrix.ncols() + 1),
        forall|r: int, c: int|
            m.contains(r, c) ==> #[trigger] m.at(r, c) == extended_cell(
                *matrix,
                row_col.0@,
                row_col.1@,
                r,
                c,
            ),
{
    let mut elements: Vec<T> = Vec::new();
    let mut k: usize = 0;
    while k < matrix.elements.len()
        invariant
            k <= matrix.elements@.len(),
            elements@ == matrix.elements@.take(k as int),
        decreases matrix.elements@.len() - k,
    {
        elements.push(matrix.elements[k]);
        k = k + 1;
        proof {
            assert(elements@ =~= matrix.elements@.take(k as int));
        }
    }
    proof {
        assert(elements@ =~= matrix.elements@);
    }
    let mut m = Matrix { rows: matrix.rows, columns: matrix.columns, elements };
    proof {
        assert(m.cells() == matrix.cells());
    }
    m.extend(&row_col.0, &row_col.1);
    m
}

/// The row and the column that, appended to `matrix`, add a vertex through
/// which the arc `(s, t)` can be split: the row holds the arc's value in
/// column `t` and zero elsewhere, the column is column `s` followed by a
/// zero.
pub fn create_extension_vertex(matrix: &Matrix<usize>, s: usize, t: usize) -> (r: (Vec<usize>, Vec<usize>))
    requires
        matrix.wf(),
        s < matrix.ncols(),
        t < matrix.ncols(),
        s < matrix.nrows(),
    ensures
        r.0@.len() == matrix.ncols(),
        forall|i: int| 0 <= i < r.0@.len() ==> #[trigger] r.0@[i] == if i == t {
            matrix.at(s as int, t as int)
        } else {
            0
        },
        r.1@.len() == matrix.nrows() + 1,
        forall|i: int| 0 <= i < r.1@.len() ==> #[trigger] r.1@[i] == if i < matrix.nrows() {
            matrix.at(i, s as int)
        } else {
            0
        },
{
    let mut new_row: Vec<usize> = Vec::new();
    let mut k: usize = 0;
    while k < matrix.row_len()
        invariant
            k <= matrix.ncols(),
            new_row@.len() == k,
            forall|i: int| 0 <= i < k ==> #[trigger] new_row@[i] == 0,
        decreases matrix.ncols() - k,
    {
        new_row.push(0);
        k = k + 1;
    }
    new_row.set(t, *matrix.get(s, t));
    let mut new_column: Vec<usize> = Vec::new();
    let mut i: usize = 0;
    while i < matrix.num_rows()
        invariant
            matrix.wf(),
            s < matrix.ncols(),
            i <= matrix.nrows(),
            new_column@.len() == i,
            forall|j: int| 0 <= j < i ==> #[trigger] new_column@[j] == matrix.at(j, s as int),
        decreases matrix.nrows() - i,
    {
        new_column.push(*matrix.get(i, s));
        i = i + 1;
    }
    new_column.push(0);
    (new_row, new_column)
}

} // verus!
