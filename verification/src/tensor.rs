//! Tensors as mathematical values: tables of two, three and four dimensions.
use vstd::prelude::*;

verus! {

/// A table with `rows` rows and `cols` columns.
#[verifier::ext_equal]
pub struct Grid<E> {
    pub rows: nat,
    pub cols: nat,
    pub cells: Seq<Seq<E>>,
}

impl<E> Grid<E> {
    /// The entry in row `i` and column `j`.
    pub open spec fn at(self, i: int, j: int) -> E {
        self.cells[i][j]
    }

    /// Whether `i` and `j` name an entry.
    pub open spec fn has(self, i: int, j: int) -> bool {
        0 <= i < self.rows && 0 <= j < self.cols
    }

    /// Whether the cells fill the table exactly.
    pub open spec fn wf(self) -> bool {
        &&& self.cells.len() == self.rows
        &&& forall|i: int| 0 <= i < self.rows ==> (#[trigger] self.cells[i]).len() == self.cols
    }

    /// Rows and columns.
    pub open spec fn dims(self) -> (nat, nat) {
        (self.rows, self.cols)
    }

    /// Row `i`.
    pub open spec fn row(self, i: int) -> Seq<E> {
        Seq::new(self.cols, |k: int| self.at(i, k))
    }

    /// Column `j`.
    pub open spec fn col(self, j: int) -> Seq<E> {
        Seq::new(self.rows, |k: int| self.at(k, j))
    }
}

/// The table whose entry `(i, j)` is `f(i, j)`.
#[verifier::opaque]
pub open spec fn table<E>(rows: nat, cols: nat, f: spec_fn(int, int) -> E) -> Grid<E> {
    Grid { rows, cols, cells: Seq::new(rows, |i: int| Seq::new(cols, |j: int| f(i, j))) }
}

/// `f` applied to every entry.
pub open spec fn each<E, F>(g: Grid<E>, f: spec_fn(E) -> F) -> Grid<F> {
    table(g.rows, g.cols, |i: int, j: int| f(g.at(i, j)))
}

/// `f` applied to the entries of two tables of equal size.
pub open spec fn both<E, F, G>(a: Grid<E>, b: Grid<F>, f: spec_fn(E, F) -> G) -> Grid<G> {
    table(a.rows, a.cols, |i: int, j: int| f(a.at(i, j), b.at(i, j)))
}

/// The entries of `b` where `mask` holds, and of `a` elsewhere.
pub open spec fn chosen<E>(a: Grid<E>, mask: Grid<bool>, b: Grid<E>) -> Grid<E> {
    table(
        a.rows,
        a.cols,
        |i: int, j: int|
            if mask.at(i, j) {
                b.at(i, j)
            } else {
                a.at(i, j)
            },
    )
}

/// A stack of `layers` tables with `rows` rows and `cols` columns each.
#[verifier::ext_equal]
pub struct Block<E> {
    pub layers: nat,
    pub rows: nat,
    pub cols: nat,
    pub cells: Seq<Seq<Seq<E>>>,
}

impl<E> Block<E> {
    /// The entry in layer `b`, row `i` and column `j`.
    pub open spec fn at(self, b: int, i: int, j: int) -> E {
        self.cells[b][i][j]
    }

    /// Whether `b`, `i` and `j` name an entry.
    pub open spec fn has(self, b: int, i: int, j: int) -> bool {
        0 <= b < self.layers && 0 <= i < self.rows && 0 <= j < self.cols
    }

    /// Whether the cells fill the stack exactly.
    pub open spec fn wf(self) -> bool {
        &&& self.cells.len() == self.layers
        &&& forall|b: int| 0 <= b < self.layers ==> (#[trigger] self.cells[b]).len() == self.rows
        &&& forall|b: int, i: int|
            0 <= b < self.layers && 0 <= i < self.rows ==> (#[trigger] self.cells[b][i]).len()
                == self.cols
    }

    /// Layers, rows and columns.
    pub open spec fn dims(self) -> (nat, nat, nat) {
        (self.layers, self.rows, self.cols)
    }

    /// Layer `b`.
    pub open spec fn layer(self, b: int) -> Grid<E> {
        table(self.rows, self.cols, |i: int, j: int| self.at(b, i, j))
    }
}

/// The stack whose entry `(b, i, j)` is `f(b, i, j)`.
#[verifier::opaque]
pub open spec fn stack<E>(
    layers: nat,
    rows: nat,
    cols: nat,
    f: spec_fn(int, int, int) -> E,
) -> Block<E> {
    Block {
        layers,
        rows,
        cols,
        cells: Seq::new(
            layers,
            |b: int| Seq::new(rows, |i: int| Seq::new(cols, |j: int| f(b, i, j))),
        ),
    }
}

/// `f` applied to every entry.
pub open spec fn each3<E, F>(g: Block<E>, f: spec_fn(E) -> F) -> Block<F> {
    stack(g.layers, g.rows, g.cols, |b: int, i: int, j: int| f(g.at(b, i, j)))
}

/// `f` applied to the entries of two stacks of equal size.
pub open spec fn both3<E, F, G>(a: Block<E>, b: Block<F>, f: spec_fn(E, F) -> G) -> Block<G> {
    stack(
        a.layers,
        a.rows,
        a.cols,
        |n: int, i: int, j: int| f(a.at(n, i, j), b.at(n, i, j)),
    )
}

/// The entries of `b` where `mask` holds, and of `a` elsewhere.
pub open spec fn chosen3<E>(a: Block<E>, mask: Block<bool>, b: Block<E>) -> Block<E> {
    stack(
        a.layers,
        a.rows,
        a.cols,
        |n: int, i: int, j: int|
            if mask.at(n, i, j) {
                b.at(n, i, j)
            } else {
                a.at(n, i, j)
            },
    )
}

/// A four-dimensional table: batches of channels of rows of columns.
#[verifier::ext_equal]
pub struct Volume<E> {
    pub batches: nat,
    pub channels: nat,
    pub rows: nat,
    pub cols: nat,
    pub cells: Seq<Seq<Seq<Seq<E>>>>,
}

impl<E> Volume<E> {
    /// The entry in batch `n`, channel `c`, row `i` and column `j`.
    pub open spec fn at(self, n: int, c: int, i: int, j: int) -> E {
        self.cells[n][c][i][j]
    }

    /// Whether the four numbers name an entry.
    pub open spec fn has(self, n: int, c: int, i: int, j: int) -> bool {
        0 <= n < self.batches && 0 <= c < self.channels && 0 <= i < self.rows && 0 <= j < self.cols
    }

    /// Whether the cells fill the table exactly.
    pub open spec fn wf(self) -> bool {
        &&& self.cells.len() == self.batches
        &&& forall|n: int|
            0 <= n < self.batches ==> (#[trigger] self.cells[n]).len() == self.channels
        &&& forall|n: int, c: int|
            0 <= n < self.batches && 0 <= c < self.channels ==> (
            #[trigger] self.cells[n][c]).len() == self.rows
        &&& forall|n: int, c: int, i: int|
            0 <= n < self.batches && 0 <= c < self.channels && 0 <= i < self.rows ==> (
            #[trigger] self.cells[n][c][i]).len() == self.cols
    }

    /// Batches, channels, rows and columns.
    pub open spec fn dims(self) -> (nat, nat, nat, nat) {
        (self.batches, self.channels, self.rows, self.cols)
    }
}

/// The four-dimensional table whose entry `(n, c, i, j)` is `f(n, c, i, j)`.
#[verifier::opaque]
pub open spec fn volume<E>(
    dims: (nat, nat, nat, nat),
    f: spec_fn(int, int, int, int) -> E,
) -> Volume<E> {
    Volume {
        batches: dims.0,
        channels: dims.1,
        rows: dims.2,
        cols: dims.3,
        cells: Seq::new(
            dims.0,
            |n: int|
                Seq::new(
                    dims.1,
                    |c: int| Seq::new(dims.2, |i: int| Seq::new(dims.3, |j: int| f(n, c, i, j))),
                ),
        ),
    }
}

/// `f` applied to the entries of two four-dimensional tables of equal size.
pub open spec fn both4<E, F, G>(a: Volume<E>, b: Volume<F>, f: spec_fn(E, F) -> G) -> Volume<G> {
    volume(a.dims(), |n: int, c: int, i: int, j: int| f(a.at(n, c, i, j), b.at(n, c, i, j)))
}

/// The size of a table, and that its cells fill it.
pub broadcast proof fn lemma_table_shape<E>(rows: nat, cols: nat, f: spec_fn(int, int) -> E)
    ensures
        (#[trigger] table(rows, cols, f)).rows == rows,
        table(rows, cols, f).cols == cols,
        table(rows, cols, f).wf(),
{
    reveal(table);
}

/// The entries of a table.
pub broadcast proof fn lemma_table_at<E>(
    rows: nat,
    cols: nat,
    f: spec_fn(int, int) -> E,
    i: int,
    j: int,
)
    requires
        0 <= i < rows,
        0 <= j < cols,
    ensures
        #[trigger] table(rows, cols, f).at(i, j) == f(i, j),
{
    reveal(table);
}

/// Two tables are equal where their sizes and entries are.
pub proof fn lemma_grid_ext<E>(a: Grid<E>, b: Grid<E>)
    requires
        a.wf(),
        b.wf(),
        a.dims() == b.dims(),
        forall|i: int, j: int| a.has(i, j) ==> #[trigger] a.at(i, j) == b.at(i, j),
    ensures
        a == b,
{
    assert forall|i: int| 0 <= i < a.rows implies a.cells[i] =~= b.cells[i] by {
        assert forall|j: int| 0 <= j < a.cols implies a.cells[i][j] == b.cells[i][j] by {
            assert(a.at(i, j) == b.at(i, j));
        }
    }
    assert(a.cells =~= b.cells);
}

/// A table whose entries are those of two others combined.
pub proof fn lemma_both_ext<E, F, G>(c: Grid<G>, a: Grid<E>, b: Grid<F>, f: spec_fn(E, F) -> G)
    requires
        c.wf(),
        c.dims() == a.dims(),
        forall|i: int, j: int| a.has(i, j) ==> #[trigger] c.at(i, j) == f(a.at(i, j), b.at(i, j)),
    ensures
        c == both(a, b, f),
{
    broadcast use group_tables;

    lemma_grid_ext(c, both(a, b, f));
}

/// The size of a stack, and that its cells fill it.
pub broadcast proof fn lemma_stack_shape<E>(
    layers: nat,
    rows: nat,
    cols: nat,
    f: spec_fn(int, int, int) -> E,
)
    ensures
        (#[trigger] stack(layers, rows, cols, f)).layers == layers,
        stack(layers, rows, cols, f).rows == rows,
        stack(layers, rows, cols, f).cols == cols,
        stack(layers, rows, cols, f).wf(),
{
    reveal(stack);
}

/// The entries of a stack.
pub broadcast proof fn lemma_stack_at<E>(
    layers: nat,
    rows: nat,
    cols: nat,
    f: spec_fn(int, int, int) -> E,
    b: int,
    i: int,
    j: int,
)
    requires
        0 <= b < layers,
        0 <= i < rows,
        0 <= j < cols,
    ensures
        #[trigger] stack(layers, rows, cols, f).at(b, i, j) == f(b, i, j),
{
    reveal(stack);
}

/// Two stacks are equal where their sizes and entries are.
pub proof fn lemma_block_ext<E>(a: Block<E>, b: Block<E>)
    requires
        a.wf(),
        b.wf(),
        a.dims() == b.dims(),
        forall|n: int, i: int, j: int| a.has(n, i, j) ==> #[trigger] a.at(n, i, j) == b.at(n, i, j),
    ensures
        a == b,
{
    assert forall|n: int| 0 <= n < a.layers implies a.cells[n] =~= b.cells[n] by {
        assert forall|i: int| 0 <= i < a.rows implies a.cells[n][i] =~= b.cells[n][i] by {
            assert forall|j: int| 0 <= j < a.cols implies a.cells[n][i][j] == b.cells[n][i][j] by {
                assert(a.at(n, i, j) == b.at(n, i, j));
            }
        }
    }
    assert(a.cells =~= b.cells);
}

/// The size of a four-dimensional table, and that its cells fill it.
pub broadcast proof fn lemma_volume_shape<E>(
    dims: (nat, nat, nat, nat),
    f: spec_fn(int, int, int, int) -> E,
)
    ensures
        (#[trigger] volume(dims, f)).dims() == dims,
        volume(dims, f).wf(),
{
    reveal(volume);
}

/// The entries of a four-dimensional table.
pub broadcast proof fn lemma_volume_at<E>(
    dims: (nat, nat, nat, nat),
    f: spec_fn(int, int, int, int) -> E,
    n: int,
    c: int,
    i: int,
    j: int,
)
    requires
        0 <= n < dims.0,
        0 <= c < dims.1,
        0 <= i < dims.2,
        0 <= j < dims.3,
    ensures
        #[trigger] volume(dims, f).at(n, c, i, j) == f(n, c, i, j),
{
    reveal(volume);
}

/// Two four-dimensional tables are equal where their sizes and entries are.
pub proof fn lemma_volume_ext<E>(a: Volume<E>, b: Volume<E>)
    requires
        a.wf(),
        b.wf(),
        a.dims() == b.dims(),
        forall|n: int, c: int, i: int, j: int|
            a.has(n, c, i, j) ==> #[trigger] a.at(n, c, i, j) == b.at(n, c, i, j),
    ensures
        a == b,
{
    let x = a.cells;
    let y = b.cells;
    assert forall|n: int| 0 <= n < a.batches implies x[n] =~= y[n] by {
        assert forall|c: int| 0 <= c < a.channels implies x[n][c] =~= y[n][c] by {
            assert forall|i: int| 0 <= i < a.rows implies x[n][c][i] =~= y[n][c][i] by {
                assert forall|j: int| 0 <= j < a.cols implies x[n][c][i][j] == y[n][c][i][j] by {
                    assert(a.at(n, c, i, j) == b.at(n, c, i, j));
                }
            }
        }
    }
    assert(x =~= y);
}

pub broadcast group group_tables {
    lemma_table_shape,
    lemma_table_at,
    lemma_stack_shape,
    lemma_stack_at,
    lemma_volume_shape,
    lemma_volume_at,
}

} // verus!
