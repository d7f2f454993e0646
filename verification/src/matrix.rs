//! Dense products of row-major matrices.
use vstd::prelude::*;

use crate::scalar::{inner_product, Scalar};

verus! {

use crate::scalar::dot;

/// The rows of a nested vector.
pub open spec fn rows<S>(a: Seq<Vec<S>>) -> Seq<Seq<S>> {
    Seq::new(a.len(), |i: int| a[i]@)
}

/// Column `j` of a matrix given by its rows.
pub open spec fn column<S>(a: Seq<Seq<S>>, j: int) -> Seq<S> {
    Seq::new(a.len(), |k: int| a[k][j])
}

/// Whether every row has length `n`.
pub open spec fn has_width<S>(a: Seq<Seq<S>>, n: nat) -> bool {
    forall|i: int| 0 <= i < a.len() ==> (#[trigger] a[i]).len() == n
}

/// `a * v`: entry `i` is the inner product of row `i` with `v`.
pub open spec fn times_vector<S: Scalar>(a: Seq<Seq<S>>, v: Seq<S>) -> Seq<S> {
    Seq::new(a.len(), |i: int| dot(a[i], v, v.len()))
}

/// `a * b` for `b` of width `n`: entry `(i, j)` is the inner product of row
/// `i` of `a` with column `j` of `b`.
pub open spec fn times_matrix<S: Scalar>(a: Seq<Seq<S>>, b: Seq<Seq<S>>, n: nat) -> Seq<Seq<S>> {
    Seq::new(a.len(), |i: int| Seq::new(n, |j: int| dot(a[i], column(b, j), b.len())))
}

/// Matrix-vector product: `a` (m x n) times `v` (n) gives m entries.
pub fn mat_vec<S: Scalar>(a: &[Vec<S>], v: &[S]) -> (r: Vec<S>)
    requires
        has_width(rows(a@), v@.len()),
    ensures
        r@ == times_vector(rows(a@), v@),
{
    let mut out: Vec<S> = Vec::new();
    let mut i: usize = 0;
    while i < a.len()
        invariant
            i <= a@.len(),
            has_width(rows(a@), v@.len()),
            out@.len() == i,
            forall|k: int| 0 <= k < i ==> #[trigger] out@[k] == dot(rows(a@)[k], v@, v@.len()),
        decreases a@.len() - i,
    {
        assert(rows(a@)[i as int].len() == v@.len());
        out.push(inner_product(a[i].as_slice(), v));
        i += 1;
    }
    assert(out@ =~= times_vector(rows(a@), v@));
    out
}

/// One row of a matrix product: `row` (k) times `b` (k x n) gives n entries.
fn row_times_matrix<S: Scalar>(row: &[S], b: &[Vec<S>], n: usize) -> (r: Vec<S>)
    requires
        row@.len() == b@.len(),
        has_width(rows(b@), n as nat),
    ensures
        r@ == Seq::new(n as nat, |j: int| dot(row@, column(rows(b@), j), b@.len())),
{
    let mut out: Vec<S> = Vec::new();
    let zero = S::whole(0);
    let mut j: usize = 0;
    while j < n
        invariant
            j <= n,
            out@.len() == j,
            zero == S::s_int(0),
            forall|c: int| 0 <= c < j ==> #[trigger] out@[c] == zero,
        decreases n - j,
    {
        out.push(zero);
        j += 1;
    }
    let mut k: usize = 0;
    while k < row.len()
        invariant
            k <= row@.len(),
            row@.len() == b@.len(),
            has_width(rows(b@), n as nat),
            out@.len() == n,
            forall|c: int|
                0 <= c < n ==> #[trigger] out@[c] == dot(row@, column(rows(b@), c), k as nat),
        decreases row@.len() - k,
    {
        let coefficient = row[k];
        assert(rows(b@)[k as int].len() == n);
        let mut c: usize = 0;
        while c < n
            invariant
                c <= n,
                k < row@.len(),
                row@.len() == b@.len(),
                coefficient == row@[k as int],
                b@[k as int]@.len() == n,
                out@.len() == n,
                forall|x: int|
                    0 <= x < c ==> #[trigger] out@[x] == dot(
                        row@,
                        column(rows(b@), x),
                        (k + 1) as nat,
                    ),
                forall|x: int|
                    c <= x < n ==> #[trigger] out@[x] == dot(row@, column(rows(b@), x), k as nat),
            decreases n - c,
        {
            let value = out[c].plus(coefficient.times(b[k][c]));
            assert(column(rows(b@), c as int)[k as int] == b@[k as int]@[c as int]);
            out.set(c, value);
            c += 1;
        }
        k += 1;
    }
    assert(out@ =~= Seq::new(n as nat, |c: int| dot(row@, column(rows(b@), c), b@.len())));
    out
}

/// Matrix product: `a` (m x k) times `b` (k x n) gives an m x n matrix.
pub fn mat_mul<S: Scalar>(a: &[Vec<S>], b: &[Vec<S>]) -> (r: Vec<Vec<S>>)
    requires
        b@.len() > 0,
        has_width(rows(a@), b@.len()),
        has_width(rows(b@), b@[0]@.len()),
    ensures
        rows(r@) == times_matrix(rows(a@), rows(b@), b@[0]@.len()),
{
    let n = b[0].len();
    let mut out: Vec<Vec<S>> = Vec::new();
    let mut i: usize = 0;
    while i < a.len()
        invariant
            i <= a@.len(),
            n == b@[0]@.len(),
            has_width(rows(a@), b@.len()),
            has_width(rows(b@), n as nat),
            out@.len() == i,
            forall|x: int|
                0 <= x < i ==> (#[trigger] out@[x])@ == Seq::new(
                    n as nat,
                    |j: int| dot(rows(a@)[x], column(rows(b@), j), b@.len()),
                ),
        decreases a@.len() - i,
    {
        assert(rows(a@)[i as int].len() == b@.len());
        out.push(row_times_matrix(a[i].as_slice(), b, n));
        i += 1;
    }
    assert(rows(out@) =~= times_matrix(rows(a@), rows(b@), n as nat));
    out
}

} // verus!
