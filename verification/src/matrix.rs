use vstd::prelude::*;
use vstd::slice::slice_subrange;

verus! {

/// The square grid with the same value in every cell.
pub open spec fn grid<T>(dimension: nat, value: T) -> Seq<Seq<T>> {
    Seq::new(dimension, |i: int| Seq::new(dimension, |j: int| value))
}

/// The place of a cell in the row-major layout.
pub open spec fn place(dimension: int, i: int, j: int) -> int {
    i * dimension + j
}

/// The place of a cell in the row-major layout lies within the grid, and
/// no two cells share a place.
pub proof fn lemma_cell_place(dimension: int, i: int, j: int)
    requires
        0 <= i < dimension,
        0 <= j < dimension,
    ensures
        0 <= i * dimension + j < dimension * dimension,
        i * dimension + dimension <= dimension * dimension,
        0 <= i * dimension,
        forall|k: int, l: int|
            0 <= k < dimension && 0 <= l < dimension && (k != i || l != j) ==> #[trigger] place(
                dimension,
                k,
                l,
            ) != place(dimension, i, j),
{
    assert(0 <= i * dimension && i * dimension + dimension <= dimension * dimension)
        by (nonlinear_arith)
        requires
            0 <= i < dimension,
    ;
    assert forall|k: int, l: int|
        0 <= k < dimension && 0 <= l < dimension && (k != i || l != j) implies #[trigger] place(
        dimension,
        k,
        l,
    ) != place(dimension, i, j) by {
        if k < i {
            assert(k * dimension + dimension <= i * dimension) by (nonlinear_arith)
                requires
                    0 <= k < i,
                    dimension > 0,
            ;
        } else if k > i {
            assert(i * dimension + dimension <= k * dimension) by (nonlinear_arith)
                requires
                    0 <= i < k,
                    dimension > 0,
            ;
        }
    }
}

/// A dense square matrix, stored row after row.
#[derive(Debug)]
pub struct Matrix<T> {
    dimension: usize,
    data: Vec<T>,
}

impl<T> View for Matrix<T> {
    type V = Seq<Seq<T>>;

    /// The rows of the matrix, each with its cells.
    closed spec fn view(&self) -> Seq<Seq<T>> {
        Seq::new(
            self.dimension as nat,
            |i: int|
                Seq::new(
                    self.dimension as nat,
                    |j: int| self.data@[place(self.dimension as int, i, j)],
                ),
        )
    }
}

impl<T> Matrix<T> {
    /// Whether the matrix holds a cell for each place of the grid.
    pub closed spec fn wf(&self) -> bool {
        &&& self.data@.len() == self.dimension * self.dimension
        &&& self.dimension * self.dimension <= usize::MAX
    }

    /// A matrix has as many columns as rows.
    pub proof fn lemma_square(&self)
        ensures
            forall|i: int| 0 <= i < self@.len() ==> (#[trigger] self@[i]).len() == self@.len(),
    {
    }

    /// The cells of a matrix can be counted.
    pub proof fn lemma_size(&self)
        requires
            self.wf(),
        ensures
            self@.len() * self@.len() <= usize::MAX,
    {
    }

    /// The number of rows, which is the number of columns.
    pub fn size(&self) -> (dimension: usize)
        ensures
            dimension == self@.len(),
    {
        self.dimension
    }

    /// The row `i`.
    pub fn row(&self, i: usize) -> (cells: &[T])
        requires
            self.wf(),
            i < self@.len(),
        ensures
            cells@ == self@[i as int],
    {
        proof {
            lemma_cell_place(self.dimension as int, i as int, 0);
        }
        let cells = slice_subrange(
            self.data.as_slice(),
            i * self.dimension,
            i * self.dimension + self.dimension,
        );
        assert(cells@ =~= self@[i as int]);
        cells
    }
}

impl<T: Copy> Matrix<T> {
    /// The matrix with the same value in every cell.
    pub fn filled_with(dimension: usize, value: T) -> (matrix: Matrix<T>)
        requires
            dimension * dimension <= usize::MAX,
        ensures
            matrix.wf(),
            matrix@ == grid(dimension as nat, value),
    {
        let cells = dimension * dimension;
        let mut data: Vec<T> = Vec::with_capacity(cells);
        let mut n: usize = 0;
        while n < cells
            invariant
                n <= cells,
                data@.len() == n,
                forall|p: int| 0 <= p < n ==> #[trigger] data@[p] == value,
            decreases cells - n,
        {
            data.push(value);
            n += 1;
        }
        let matrix = Matrix { dimension, data };
        proof {
            assert forall|i: int| 0 <= i < dimension implies #[trigger] matrix@[i] =~= Seq::new(
                dimension as nat,
                |j: int| value,
            ) by {
                assert forall|j: int| 0 <= j < dimension implies #[trigger] matrix@[i][j]
                    == value by {
                    lemma_cell_place(dimension as int, i, j);
                }
            }
            assert(matrix@ =~= grid(dimension as nat, value));
        }
        matrix
    }

    /// The matrix of the distances between points: the cell in the row `i`
    /// and the column `j` is what `distance` makes of the point `i` and the
    /// point `j`.
    pub fn adjacency<F: Fn((u64, u64), (u64, u64)) -> T>(
        coordinates: &[(u64, u64)],
        distance: F,
    ) -> (matrix: Matrix<T>)
        requires
            coordinates@.len() * coordinates@.len() <= usize::MAX,
            forall|from: (u64, u64), to: (u64, u64)| distance.requires((from, to)),
        ensures
            matrix.wf(),
            matrix@.len() == coordinates@.len(),
            forall|i: int, j: int|
                0 <= i < coordinates@.len() && 0 <= j < coordinates@.len() ==> distance.ensures(
                    (coordinates@[i], coordinates@[j]),
                    #[trigger] matrix@[i][j],
                ),
    {
        let dimension = coordinates.len();
        let mut data: Vec<T> = Vec::with_capacity(dimension * dimension);
        let mut i: usize = 0;
        while i < dimension
            invariant
                i <= dimension,
                dimension == coordinates@.len(),
                dimension * dimension <= usize::MAX,
                forall|from: (u64, u64), to: (u64, u64)| distance.requires((from, to)),
                data@.len() == i * dimension,
                forall|k: int, l: int|
                    0 <= k < i && 0 <= l < dimension ==> distance.ensures(
                        (coordinates@[k], coordinates@[l]),
                        data@[#[trigger] place(dimension as int, k, l)],
                    ),
            decreases dimension - i,
        {
            let mut j: usize = 0;
            while j < dimension
                invariant
                    i < dimension,
                    j <= dimension,
                    dimension == coordinates@.len(),
                    forall|from: (u64, u64), to: (u64, u64)| distance.requires((from, to)),
                    data@.len() == i * dimension + j,
                    forall|k: int, l: int|
                        0 <= k < i && 0 <= l < dimension ==> distance.ensures(
                            (coordinates@[k], coordinates@[l]),
                            data@[#[trigger] place(dimension as int, k, l)],
                        ),
                    forall|l: int|
                        0 <= l < j ==> distance.ensures(
                            (coordinates@[i as int], coordinates@[l]),
                            data@[#[trigger] place(dimension as int, i as int, l)],
                        ),
                decreases dimension - j,
            {
                let ghost before = data@;
                data.push(distance(coordinates[i], coordinates[j]));
                proof {
                    assert forall|k: int, l: int|
                        0 <= k < i && 0 <= l < dimension implies distance.ensures(
                        (coordinates@[k], coordinates@[l]),
                        data@[#[trigger] place(dimension as int, k, l)],
                    ) by {
                        lemma_cell_place(dimension as int, k, l);
                        assert(k * dimension + dimension <= i * dimension) by (nonlinear_arith)
                            requires
                                0 <= k < i,
                                dimension >= 0,
                        ;
                        assert(data@[place(dimension as int, k, l)] == before[place(
                            dimension as int,
                            k,
                            l,
                        )]);
                    }
                    assert forall|l: int| 0 <= l < j + 1 implies distance.ensures(
                        (coordinates@[i as int], coordinates@[l]),
                        data@[#[trigger] place(dimension as int, i as int, l)],
                    ) by {
                        if l < j {
                            assert(data@[place(dimension as int, i as int, l)] == before[place(
                                dimension as int,
                                i as int,
                                l,
                            )]);
                        }
                    }
                }
                j += 1;
            }
            proof {
                assert(i * dimension + dimension == (i + 1) * dimension) by (nonlinear_arith);
            }
            i += 1;
        }
        let matrix = Matrix { dimension, data };
        proof {
            assert forall|i: int, j: int|
                0 <= i < coordinates@.len() && 0 <= j < coordinates@.len() implies distance.ensures(
                (coordinates@[i], coordinates@[j]),
                #[trigger] matrix@[i][j],
            ) by {
                assert(matrix@[i][j] == matrix.data@[place(dimension as int, i, j)]);
            }
        }
        matrix
    }

    /// The cell in the row `i` and the column `j`.
    pub fn get(&self, i: usize, j: usize) -> (value: T)
        requires
            self.wf(),
            i < self@.len(),
            j < self@.len(),
        ensures
            value == self@[i as int][j as int],
    {
        proof {
            lemma_cell_place(self.dimension as int, i as int, j as int);
        }
        self.data[i * self.dimension + j]
    }

    /// Writes the cell in the row `i` and the column `j`.
    pub fn set(&mut self, i: usize, j: usize, value: T)
        requires
            old(self).wf(),
            i < old(self)@.len(),
            j < old(self)@.len(),
        ensures
            final(self).wf(),
            final(self)@ == old(self)@.update(i as int, old(self)@[i as int].update(j as int, value)),
    {
        proof {
            lemma_cell_place(self.dimension as int, i as int, j as int);
        }
        self.data[i * self.dimension + j] = value;
        proof {
            let after = self@;
            let expected = old(self)@.update(i as int, old(self)@[i as int].update(j as int, value));
            assert forall|k: int| 0 <= k < self.dimension implies #[trigger] after[k]
                =~= expected[k] by {
                assert forall|l: int| 0 <= l < self.dimension implies #[trigger] after[k][l]
                    == expected[k][l] by {
                    lemma_cell_place(self.dimension as int, k, l);
                    assert(after[k][l] == self.data@[place(self.dimension as int, k, l)]);
                    assert(old(self)@[k][l] == old(self).data@[place(
                        self.dimension as int,
                        k,
                        l,
                    )]);
                    if k != i || l != j {
                        assert(place(self.dimension as int, k, l) != place(
                            self.dimension as int,
                            i as int,
                            j as int,
                        ));
                    }
                }
            }
            assert(after =~= expected);
        }
    }

    /// Replaces the cell in the row `i` and the column `j` by what `op`
    /// makes of it.
    pub fn update<F: FnOnce(T) -> T>(&mut self, i: usize, j: usize, op: F)
        requires
            old(self).wf(),
            i < old(self)@.len(),
            j < old(self)@.len(),
            op.requires((old(self)@[i as int][j as int],)),
        ensures
            final(self).wf(),
            op.ensures((old(self)@[i as int][j as int],), final(self)@[i as int][j as int]),
            final(self)@ == old(self)@.update(
                i as int,
                old(self)@[i as int].update(j as int, final(self)@[i as int][j as int]),
            ),
    {
        let value = op(self.get(i, j));
        self.set(i, j, value);
    }
}

impl<T: Copy + Default> Matrix<T> {
    /// The matrix with the default value of its cells, which is zero for a
    /// number, in every cell.
    pub fn new(dimension: usize) -> (matrix: Matrix<T>)
        requires
            dimension * dimension <= usize::MAX,
        ensures
            matrix.wf(),
            matrix@.len() == dimension,
            forall|i: int, j: int|
                0 <= i < dimension && 0 <= j < dimension ==> #[trigger] matrix@[i][j]
                    == matrix@[0][0],
            forall|i: int, j: int|
                0 <= i < dimension && 0 <= j < dimension ==> call_ensures(
                    T::default,
                    (),
                    #[trigger] matrix@[i][j],
                ),
    {
        Self::filled_with(dimension, T::default())
    }
}

} // verus!
