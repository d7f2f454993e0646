//! Rectangular storage.
//!
//! The sizes are kept by type invariants: whatever a table, a stack or a batch
//! reports as its size, every entry within it can be read.
use vstd::prelude::*;

verus! {

/// A table of `rows` rows and `cols` columns.
pub struct Plane<T> {
    rows: usize,
    cols: usize,
    cells: Vec<Vec<T>>,
}

impl<T> Plane<T> {
    /// Whether the cells fill the table exactly.
    #[verifier::type_invariant]
    pub closed spec fn filled(self) -> bool {
        &&& self.cells@.len() == self.rows
        &&& forall|i: int| 0 <= i < self.rows ==> (#[trigger] self.cells@[i])@.len() == self.cols
    }

    /// Rows and columns.
    pub closed spec fn size(&self) -> (nat, nat) {
        (self.rows as nat, self.cols as nat)
    }

    /// The entry in row `i` and column `j`.
    pub closed spec fn cell(&self, i: int, j: int) -> T {
        self.cells@[i]@[j]
    }
}

/// The table whose entry `(i, j)` is what `f` returns for `i` and `j`.
pub(crate) fn plane<T, F: Fn(usize, usize) -> T>(rows: usize, cols: usize, f: F) -> (r: Plane<T>)
    requires
        forall|i: usize, j: usize| i < rows && j < cols ==> call_requires(f, (i, j)),
    ensures
        r.size() == (rows as nat, cols as nat),
        forall|i: usize, j: usize|
            i < rows && j < cols ==> call_ensures(f, (i, j), #[trigger] r.cell(i as int, j as int)),
{
    let mut cells: Vec<Vec<T>> = Vec::new();
    let mut i: usize = 0;
    while i < rows
        invariant
            i <= rows,
            cells@.len() == i,
            forall|a: usize, b: usize| a < rows && b < cols ==> call_requires(f, (a, b)),
            forall|a: int| 0 <= a < i ==> (#[trigger] cells@[a])@.len() == cols,
            forall|a: usize, b: usize|
                a < i && b < cols ==> call_ensures(f, (a, b), #[trigger] cells@[a as int]@[b as int]),
        decreases rows - i,
    {
        let mut row: Vec<T> = Vec::new();
        let mut j: usize = 0;
        while j < cols
            invariant
                i < rows,
                j <= cols,
                row@.len() == j,
                forall|a: usize, b: usize| a < rows && b < cols ==> call_requires(f, (a, b)),
                forall|b: usize| b < j ==> call_ensures(f, (i, b), #[trigger] row@[b as int]),
            decreases cols - j,
        {
            let value = f(i, j);
            row.push(value);
            j += 1;
        }
        cells.push(row);
        i += 1;
    }
    Plane { rows, cols, cells }
}

impl<T: Copy> Plane<T> {
    /// The entry in row `i` and column `j`.
    pub fn get(&self, i: usize, j: usize) -> (r: T)
        requires
            i < self.size().0,
            j < self.size().1,
        ensures
            r == self.cell(i as int, j as int),
    {
        proof {
            use_type_invariant(self);
        }
        self.cells[i][j]
    }

    /// Rows and columns.
    pub fn dims(&self) -> (r: (usize, usize))
        ensures
            (r.0 as nat, r.1 as nat) == self.size(),
    {
        (self.rows, self.cols)
    }

    /// The table of what `f` returns for each entry.
    pub(crate) fn map<U, F: Fn(T) -> U>(&self, f: &F) -> (r: Plane<U>)
        requires
            forall|x: T| call_requires(*f, (x,)),
        ensures
            r.size() == self.size(),
            forall|i: int, j: int|
                0 <= i < self.size().0 && 0 <= j < self.size().1 ==> call_ensures(
                    *f,
                    (self.cell(i, j),),
                    #[trigger] r.cell(i, j),
                ),
    {
        proof {
            use_type_invariant(self);
        }
        let mut cells: Vec<Vec<U>> = Vec::new();
        let mut i: usize = 0;
        while i < self.rows
            invariant
                i <= self.rows,
                cells@.len() == i,
                self.filled(),
                forall|x: T| call_requires(*f, (x,)),
                forall|a: int| 0 <= a < i ==> (#[trigger] cells@[a])@.len() == self.cols,
                forall|a: int, b: int|
                    0 <= a < i && 0 <= b < self.cols ==> call_ensures(
                        *f,
                        (self.cells@[a]@[b],),
                        #[trigger] cells@[a]@[b],
                    ),
            decreases self.rows - i,
        {
            let mut row: Vec<U> = Vec::new();
            let mut j: usize = 0;
            while j < self.cols
                invariant
                    i < self.rows,
                    j <= self.cols,
                    row@.len() == j,
                    self.filled(),
                    forall|x: T| call_requires(*f, (x,)),
                    forall|b: int|
                        0 <= b < j ==> call_ensures(
                            *f,
                            (self.cells@[i as int]@[b],),
                            #[trigger] row@[b],
                        ),
                decreases self.cols - j,
            {
                let value = f(self.cells[i][j]);
                row.push(value);
                j += 1;
            }
            cells.push(row);
            i += 1;
        }
        Plane { rows: self.rows, cols: self.cols, cells }
    }

    /// The table of what `f` returns for each entry and that of another table of
    /// the same size.
    pub(crate) fn zip<U: Copy, V, F: Fn(T, U) -> V>(&self, other: &Plane<U>, f: &F) -> (r: Plane<V>)
        requires
            other.size() == self.size(),
            forall|x: T, y: U| call_requires(*f, (x, y)),
        ensures
            r.size() == self.size(),
            forall|i: int, j: int|
                0 <= i < self.size().0 && 0 <= j < self.size().1 ==> call_ensures(
                    *f,
                    (self.cell(i, j), other.cell(i, j)),
                    #[trigger] r.cell(i, j),
                ),
    {
        proof {
            use_type_invariant(self);
            use_type_invariant(other);
        }
        let mut cells: Vec<Vec<V>> = Vec::new();
        let mut i: usize = 0;
        while i < self.rows
            invariant
                i <= self.rows,
                cells@.len() == i,
                self.filled(),
                other.filled(),
                other.size() == self.size(),
                forall|x: T, y: U| call_requires(*f, (x, y)),
                forall|a: int| 0 <= a < i ==> (#[trigger] cells@[a])@.len() == self.cols,
                forall|a: int, b: int|
                    0 <= a < i && 0 <= b < self.cols ==> call_ensures(
                        *f,
                        (self.cells@[a]@[b], other.cells@[a]@[b]),
                        #[trigger] cells@[a]@[b],
                    ),
            decreases self.rows - i,
        {
            let mut row: Vec<V> = Vec::new();
            let mut j: usize = 0;
            while j < self.cols
                invariant
                    i < self.rows,
                    j <= self.cols,
                    row@.len() == j,
                    self.filled(),
                    other.filled(),
                    other.size() == self.size(),
                    forall|x: T, y: U| call_requires(*f, (x, y)),
                    forall|b: int|
                        0 <= b < j ==> call_ensures(
                            *f,
                            (self.cells@[i as int]@[b], other.cells@[i as int]@[b]),
                            #[trigger] row@[b],
                        ),
                decreases self.cols - j,
            {
                let value = f(self.cells[i][j], other.cells[i][j]);
                row.push(value);
                j += 1;
            }
            cells.push(row);
            i += 1;
        }
        Plane { rows: self.rows, cols: self.cols, cells }
    }
}

/// A stack of tables of equal size.
pub struct Solid<T> {
    rows: usize,
    cols: usize,
    layers: Vec<Plane<T>>,
}

impl<T> Solid<T> {
    /// Whether every layer has the size of the others.
    #[verifier::type_invariant]
    pub closed spec fn filled(self) -> bool {
        forall|b: int|
            0 <= b < self.layers@.len() ==> (#[trigger] self.layers@[b]).size() == (
                self.rows as nat,
                self.cols as nat,
            )
    }

    /// Layers, rows and columns.
    pub closed spec fn size(&self) -> (nat, nat, nat) {
        (self.layers@.len(), self.rows as nat, self.cols as nat)
    }

    /// The entry in layer `b`, row `i` and column `j`.
    pub closed spec fn cell(&self, b: int, i: int, j: int) -> T {
        self.layers@[b].cell(i, j)
    }
}

/// Layer `b` of the stack whose entries `f` returns.
fn layer<T, F: Fn(usize, usize, usize) -> T>(b: usize, rows: usize, cols: usize, f: &F) -> (r:
    Plane<T>)
    requires
        forall|i: usize, j: usize| i < rows && j < cols ==> call_requires(*f, (b, i, j)),
    ensures
        r.size() == (rows as nat, cols as nat),
        forall|i: usize, j: usize|
            i < rows && j < cols ==> call_ensures(
                *f,
                (b, i, j),
                #[trigger] r.cell(i as int, j as int),
            ),
{
    let mut cells: Vec<Vec<T>> = Vec::new();
    let mut i: usize = 0;
    while i < rows
        invariant
            i <= rows,
            cells@.len() == i,
            forall|x: usize, y: usize| x < rows && y < cols ==> call_requires(*f, (b, x, y)),
            forall|x: int| 0 <= x < i ==> (#[trigger] cells@[x])@.len() == cols,
            forall|x: usize, y: usize|
                x < i && y < cols ==> call_ensures(
                    *f,
                    (b, x, y),
                    #[trigger] cells@[x as int]@[y as int],
                ),
        decreases rows - i,
    {
        let mut row: Vec<T> = Vec::new();
        let mut j: usize = 0;
        while j < cols
            invariant
                i < rows,
                j <= cols,
                row@.len() == j,
                forall|x: usize, y: usize| x < rows && y < cols ==> call_requires(*f, (b, x, y)),
                forall|y: usize| y < j ==> call_ensures(*f, (b, i, y), #[trigger] row@[y as int]),
            decreases cols - j,
        {
            let value = f(b, i, j);
            row.push(value);
            j += 1;
        }
        cells.push(row);
        i += 1;
    }
    Plane { rows, cols, cells }
}

/// The stack whose entry `(b, i, j)` is what `f` returns for the three.
pub(crate) fn solid<T, F: Fn(usize, usize, usize) -> T>(layers: usize, rows: usize, cols: usize, f: F) -> (r:
    Solid<T>)
    requires
        forall|b: usize, i: usize, j: usize|
            b < layers && i < rows && j < cols ==> call_requires(f, (b, i, j)),
    ensures
        r.size() == (layers as nat, rows as nat, cols as nat),
        forall|b: usize, i: usize, j: usize|
            b < layers && i < rows && j < cols ==> call_ensures(
                f,
                (b, i, j),
                #[trigger] r.cell(b as int, i as int, j as int),
            ),
{
    let mut planes: Vec<Plane<T>> = Vec::new();
    let mut b: usize = 0;
    while b < layers
        invariant
            b <= layers,
            planes@.len() == b,
            forall|n: usize, i: usize, j: usize|
                n < layers && i < rows && j < cols ==> call_requires(f, (n, i, j)),
            forall|n: int|
                0 <= n < b ==> (#[trigger] planes@[n]).size() == (rows as nat, cols as nat),
            forall|n: usize, i: usize, j: usize|
                n < b && i < rows && j < cols ==> call_ensures(
                    f,
                    (n, i, j),
                    #[trigger] planes@[n as int].cell(i as int, j as int),
                ),
        decreases layers - b,
    {
        planes.push(layer(b, rows, cols, &f));
        b += 1;
    }
    Solid { rows, cols, layers: planes }
}

impl<T: Copy> Solid<T> {
    /// The entry in layer `b`, row `i` and column `j`.
    pub fn get(&self, b: usize, i: usize, j: usize) -> (r: T)
        requires
            b < self.size().0,
            i < self.size().1,
            j < self.size().2,
        ensures
            r == self.cell(b as int, i as int, j as int),
    {
        proof {
            use_type_invariant(self);
        }
        self.layers[b].get(i, j)
    }

    /// Layers, rows and columns.
    pub fn dims(&self) -> (r: (usize, usize, usize))
        ensures
            (r.0 as nat, r.1 as nat, r.2 as nat) == self.size(),
    {
        (self.layers.len(), self.rows, self.cols)
    }

    /// The stack of what `f` returns for each entry.
    pub(crate) fn map<U, F: Fn(T) -> U>(&self, f: &F) -> (r: Solid<U>)
        requires
            forall|x: T| call_requires(*f, (x,)),
        ensures
            r.size() == self.size(),
            forall|b: int, i: int, j: int|
                0 <= b < self.size().0 && 0 <= i < self.size().1 && 0 <= j < self.size().2
                    ==> call_ensures(*f, (self.cell(b, i, j),), #[trigger] r.cell(b, i, j)),
    {
        proof {
            use_type_invariant(self);
        }
        let mut layers: Vec<Plane<U>> = Vec::new();
        let mut b: usize = 0;
        while b < self.layers.len()
            invariant
                b <= self.layers@.len(),
                layers@.len() == b,
                self.filled(),
                forall|x: T| call_requires(*f, (x,)),
                forall|n: int|
                    0 <= n < b ==> (#[trigger] layers@[n]).size() == (
                        self.rows as nat,
                        self.cols as nat,
                    ),
                forall|n: int, i: int, j: int|
                    0 <= n < b && 0 <= i < self.rows && 0 <= j < self.cols ==> call_ensures(
                        *f,
                        (self.layers@[n].cell(i, j),),
                        #[trigger] layers@[n].cell(i, j),
                    ),
            decreases self.layers@.len() - b,
        {
            assert(self.layers@[b as int].size() == (self.rows as nat, self.cols as nat));
            layers.push(self.layers[b].map(f));
            b += 1;
        }
        Solid { rows: self.rows, cols: self.cols, layers }
    }

    /// The stack of what `f` returns for each entry and that of another stack of
    /// the same size.
    pub(crate) fn zip<U: Copy, V, F: Fn(T, U) -> V>(&self, other: &Solid<U>, f: &F) -> (r: Solid<V>)
        requires
            other.size() == self.size(),
            forall|x: T, y: U| call_requires(*f, (x, y)),
        ensures
            r.size() == self.size(),
            forall|b: int, i: int, j: int|
                0 <= b < self.size().0 && 0 <= i < self.size().1 && 0 <= j < self.size().2
                    ==> call_ensures(
                    *f,
                    (self.cell(b, i, j), other.cell(b, i, j)),
                    #[trigger] r.cell(b, i, j),
                ),
    {
        proof {
            use_type_invariant(self);
            use_type_invariant(other);
        }
        let mut layers: Vec<Plane<V>> = Vec::new();
        let mut b: usize = 0;
        while b < self.layers.len()
            invariant
                b <= self.layers@.len(),
                layers@.len() == b,
                self.filled(),
                other.filled(),
                other.size() == self.size(),
                forall|x: T, y: U| call_requires(*f, (x, y)),
                forall|n: int|
                    0 <= n < b ==> (#[trigger] layers@[n]).size() == (
                        self.rows as nat,
                        self.cols as nat,
                    ),
                forall|n: int, i: int, j: int|
                    0 <= n < b && 0 <= i < self.rows && 0 <= j < self.cols ==> call_ensures(
                        *f,
                        (self.layers@[n].cell(i, j), other.layers@[n].cell(i, j)),
                        #[trigger] layers@[n].cell(i, j),
                    ),
            decreases self.layers@.len() - b,
        {
            assert(self.layers@[b as int].size() == (self.rows as nat, self.cols as nat));
            assert(other.layers@[b as int].size() == (self.rows as nat, self.cols as nat));
            layers.push(self.layers[b].zip(&other.layers[b], f));
            b += 1;
        }
        Solid { rows: self.rows, cols: self.cols, layers }
    }
}

/// A batch of stacks of equal size.
pub struct Batch<T> {
    channels: usize,
    rows: usize,
    cols: usize,
    items: Vec<Solid<T>>,
}

impl<T> Batch<T> {
    /// Whether every stack has the size of the others.
    #[verifier::type_invariant]
    pub closed spec fn filled(self) -> bool {
        forall|n: int|
            0 <= n < self.items@.len() ==> (#[trigger] self.items@[n]).size() == (
                self.channels as nat,
                self.rows as nat,
                self.cols as nat,
            )
    }

    /// Batches, channels, rows and columns.
    pub closed spec fn size(&self) -> (nat, nat, nat, nat) {
        (self.items@.len(), self.channels as nat, self.rows as nat, self.cols as nat)
    }

    /// The entry in batch `n`, channel `c`, row `i` and column `j`.
    pub closed spec fn cell(&self, n: int, c: int, i: int, j: int) -> T {
        self.items@[n].cell(c, i, j)
    }
}

/// Channel `c` of item `n` of the batch whose entries `f` returns.
fn channel<T, F: Fn(usize, usize, usize, usize) -> T>(
    n: usize,
    c: usize,
    rows: usize,
    cols: usize,
    f: &F,
) -> (r: Plane<T>)
    requires
        forall|i: usize, j: usize| i < rows && j < cols ==> call_requires(*f, (n, c, i, j)),
    ensures
        r.size() == (rows as nat, cols as nat),
        forall|i: usize, j: usize|
            i < rows && j < cols ==> call_ensures(
                *f,
                (n, c, i, j),
                #[trigger] r.cell(i as int, j as int),
            ),
{
    let mut cells: Vec<Vec<T>> = Vec::new();
    let mut i: usize = 0;
    while i < rows
        invariant
            i <= rows,
            cells@.len() == i,
            forall|x: usize, y: usize| x < rows && y < cols ==> call_requires(*f, (n, c, x, y)),
            forall|x: int| 0 <= x < i ==> (#[trigger] cells@[x])@.len() == cols,
            forall|x: usize, y: usize|
                x < i && y < cols ==> call_ensures(
                    *f,
                    (n, c, x, y),
                    #[trigger] cells@[x as int]@[y as int],
                ),
        decreases rows - i,
    {
        let mut row: Vec<T> = Vec::new();
        let mut j: usize = 0;
        while j < cols
            invariant
                i < rows,
                j <= cols,
                row@.len() == j,
                forall|x: usize, y: usize|
                    x < rows && y < cols ==> call_requires(*f, (n, c, x, y)),
                forall|y: usize|
                    y < j ==> call_ensures(*f, (n, c, i, y), #[trigger] row@[y as int]),
            decreases cols - j,
        {
            let value = f(n, c, i, j);
            row.push(value);
            j += 1;
        }
        cells.push(row);
        i += 1;
    }
    Plane { rows, cols, cells }
}

/// Item `n` of the batch whose entries `f` returns.
fn item<T, F: Fn(usize, usize, usize, usize) -> T>(
    n: usize,
    dims: (usize, usize, usize),
    f: &F,
) -> (r: Solid<T>)
    requires
        forall|c: usize, i: usize, j: usize|
            c < dims.0 && i < dims.1 && j < dims.2 ==> call_requires(*f, (n, c, i, j)),
    ensures
        r.size() == (dims.0 as nat, dims.1 as nat, dims.2 as nat),
        forall|c: usize, i: usize, j: usize|
            c < dims.0 && i < dims.1 && j < dims.2 ==> call_ensures(
                *f,
                (n, c, i, j),
                #[trigger] r.cell(c as int, i as int, j as int),
            ),
{
    let mut layers: Vec<Plane<T>> = Vec::new();
    let mut c: usize = 0;
    while c < dims.0
        invariant
            c <= dims.0,
            layers@.len() == c,
            forall|b: usize, i: usize, j: usize|
                b < dims.0 && i < dims.1 && j < dims.2 ==> call_requires(*f, (n, b, i, j)),
            forall|b: int|
                0 <= b < c ==> (#[trigger] layers@[b]).size() == (dims.1 as nat, dims.2 as nat),
            forall|b: usize, i: usize, j: usize|
                b < c && i < dims.1 && j < dims.2 ==> call_ensures(
                    *f,
                    (n, b, i, j),
                    #[trigger] layers@[b as int].cell(i as int, j as int),
                ),
        decreases dims.0 - c,
    {
        layers.push(channel(n, c, dims.1, dims.2, f));
        c += 1;
    }
    Solid { rows: dims.1, cols: dims.2, layers }
}

/// The batch whose entry `(n, c, i, j)` is what `f` returns for the four.
pub(crate) fn batch<T, F: Fn(usize, usize, usize, usize) -> T>(
    dims: (usize, usize, usize, usize),
    f: F,
) -> (r: Batch<T>)
    requires
        forall|n: usize, c: usize, i: usize, j: usize|
            n < dims.0 && c < dims.1 && i < dims.2 && j < dims.3 ==> call_requires(f, (n, c, i, j)),
    ensures
        r.size() == (dims.0 as nat, dims.1 as nat, dims.2 as nat, dims.3 as nat),
        forall|n: usize, c: usize, i: usize, j: usize|
            n < dims.0 && c < dims.1 && i < dims.2 && j < dims.3 ==> call_ensures(
                f,
                (n, c, i, j),
                #[trigger] r.cell(n as int, c as int, i as int, j as int),
            ),
{
    let mut items: Vec<Solid<T>> = Vec::new();
    let mut n: usize = 0;
    while n < dims.0
        invariant
            n <= dims.0,
            items@.len() == n,
            forall|m: usize, c: usize, i: usize, j: usize|
                m < dims.0 && c < dims.1 && i < dims.2 && j < dims.3 ==> call_requires(
                    f,
                    (m, c, i, j),
                ),
            forall|m: int|
                0 <= m < n ==> (#[trigger] items@[m]).size() == (
                    dims.1 as nat,
                    dims.2 as nat,
                    dims.3 as nat,
                ),
            forall|m: usize, c: usize, i: usize, j: usize|
                m < n && c < dims.1 && i < dims.2 && j < dims.3 ==> call_ensures(
                    f,
                    (m, c, i, j),
                    #[trigger] items@[m as int].cell(c as int, i as int, j as int),
                ),
        decreases dims.0 - n,
    {
        items.push(item(n, (dims.1, dims.2, dims.3), &f));
        n += 1;
    }
    Batch { channels: dims.1, rows: dims.2, cols: dims.3, items }
}

impl<T: Copy> Batch<T> {
    /// The entry in batch `n`, channel `c`, row `i` and column `j`.
    pub fn get(&self, n: usize, c: usize, i: usize, j: usize) -> (r: T)
        requires
            n < self.size().0,
            c < self.size().1,
            i < self.size().2,
            j < self.size().3,
        ensures
            r == self.cell(n as int, c as int, i as int, j as int),
    {
        proof {
            use_type_invariant(self);
        }
        self.items[n].get(c, i, j)
    }

    /// Batches, channels, rows and columns.
    pub fn dims(&self) -> (r: (usize, usize, usize, usize))
        ensures
            (r.0 as nat, r.1 as nat, r.2 as nat, r.3 as nat) == self.size(),
    {
        (self.items.len(), self.channels, self.rows, self.cols)
    }
}

} // verus!
