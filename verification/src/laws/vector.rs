//! Laws of propagation through layers of vectors.
use vstd::prelude::*;

use crate::scalar::Scalar;
use crate::vector::Layer;

verus! {

use crate::laws::arithmetic::{
    is_ring, ring_add_assoc, ring_dist, ring_mul_assoc, ring_mul_comm, ring_zero,
};
use crate::laws::sums::{
    lemma_dot_sum, lemma_sum_add, lemma_sum_assoc, lemma_sum_eq, lemma_sum_scale,
    lemma_sum_scale_right, lemma_sum_swap, lemma_sum_zero, sum_to,
};
use crate::matrix::{column, has_width, times_matrix};
use crate::scalar::dot;
use crate::vector::{
    after_layers, at_least, independent, input_fault, linear, relu, sequential, MomentsModel,
};

/// Whether `m` holds `n` means and an `n x n` covariance.
pub open spec fn has_shape<S>(m: MomentsModel<S>, n: nat) -> bool {
    &&& m.mean.len() == n
    &&& m.cov.len() == n
    &&& has_width(m.cov, n)
}

/// An empty layer sequence returns the input moments.
pub proof fn law_no_layers<S: Scalar>(mean: Seq<S>, std: Seq<S>)
    requires
        input_fault(mean, std) is None,
    ensures
        sequential(Seq::<Layer<S>>::empty(), mean, std) == Ok::<
            MomentsModel<S>,
            crate::violation::Violation,
        >(independent(mean, std)),
{
}

/// Layers may be applied in two parts: first `a`, then `b`.
pub proof fn law_layers_chain<S: Scalar>(a: Seq<Layer<S>>, b: Seq<Layer<S>>, m: MomentsModel<S>)
    ensures
        after_layers(a + b, m) == match after_layers(a, m) {
            Err(v) => Err(v),
            Ok(between) => after_layers(b, between),
        },
    decreases b.len(),
{
    if b.len() == 0 {
        assert(a + b =~= a);
    } else {
        assert((a + b).drop_last() =~= a + b.drop_last());
        law_layers_chain(a, b.drop_last(), m);
    }
}

/// The rectifier leaves no covariance between features.
pub proof fn law_relu_drops_covariance<S: Scalar>(m: MomentsModel<S>, i: int, j: int)
    requires
        0 <= i < m.mean.len(),
        0 <= j < m.mean.len(),
        i != j,
    ensures
        relu(m).cov[i][j] == S::s_int(0),
{
}

/// The rectifier reads means and variances only: covariances between features
/// do not matter to it.
pub proof fn law_relu_reads_marginals<S: Scalar>(a: MomentsModel<S>, b: MomentsModel<S>)
    requires
        a.mean == b.mean,
        forall|i: int| 0 <= i < a.mean.len() ==> #[trigger] a.cov[i][i] == b.cov[i][i],
    ensures
        relu(a) == relu(b),
{
    assert(relu(a).mean =~= relu(b).mean) by {
        assert forall|i: int| 0 <= i < a.mean.len() implies relu(a).mean[i] == relu(b).mean[i] by {
            assert(a.cov[i][i] == b.cov[i][i]);
        }
    }
    assert forall|i: int| 0 <= i < a.mean.len() implies relu(a).cov[i] =~= relu(b).cov[i] by {
        assert(a.cov[i][i] == b.cov[i][i]);
    }
    assert(relu(a).cov =~= relu(b).cov);
}

/// A feature of zero variance stays fixed under the rectifier.
pub proof fn law_relu_fixed<S: Scalar>(m: MomentsModel<S>, i: int)
    requires
        0 <= i < m.mean.len(),
        m.cov[i][i].s_eq(S::s_int(0)),
    ensures
        relu(m).mean[i] == at_least(m.mean[i], S::s_int(0)),
        relu(m).cov[i][i] == S::s_int(0),
{
}

/// A bias moves the mean and leaves the covariance alone.
pub proof fn law_bias_keeps_covariance<S: Scalar>(
    m: MomentsModel<S>,
    weight: Seq<Seq<S>>,
    a: Seq<S>,
    b: Seq<S>,
)
    ensures
        linear(m, weight, a).cov == linear(m, weight, b).cov,
{
}

/// `sum_i sum_j a_i c_ij b_j`.
pub open spec fn bilinear<S: Scalar>(n: nat, a: Seq<S>, c: Seq<Seq<S>>, b: Seq<S>) -> S {
    sum_to(n, |i: int| sum_to(n, |j: int| a[i].s_mul(c[i][j]).s_mul(b[j])))
}

/// The covariance after an affine layer is the form `W C W^T`, entry by entry:
/// `cov'[o][p] = sum_i sum_j W[o][i] cov[i][j] W[p][j]`.
pub proof fn law_linear_covariance_form<S: Scalar>(
    m: MomentsModel<S>,
    weight: Seq<Seq<S>>,
    bias: Seq<S>,
    o: int,
    p: int,
)
    requires
        is_ring::<S>(),
        has_shape(m, m.mean.len()),
        has_width(weight, m.mean.len()),
        0 <= o < weight.len(),
        0 <= p < weight.len(),
    ensures
        linear(m, weight, bias).cov[o][p] == bilinear(m.mean.len(), weight[o], m.cov, weight[p]),
{
    let n = m.mean.len();
    let a = weight[o];
    let b = weight[p];
    let mixed = times_matrix(weight, m.cov, n);
    lemma_dot_sum(b, mixed[o], n);
    let direct = |j: int| b[j].s_mul(mixed[o][j]);
    let term = |i: int, j: int| a[i].s_mul(m.cov[i][j]).s_mul(b[j]);
    let columns = |j: int| sum_to(n, |i: int| term(i, j));
    assert forall|j: int| 0 <= j < n implies #[trigger] direct(j) == columns(j) by {
        let inner = |i: int| a[i].s_mul(m.cov[i][j]);
        lemma_dot_sum(a, column(m.cov, j), n);
        lemma_sum_eq(n, |i: int| a[i].s_mul(column(m.cov, j)[i]), inner);
        lemma_sum_scale_right(n, inner, b[j]);
        lemma_sum_eq(n, |i: int| inner(i).s_mul(b[j]), |i: int| term(i, j));
        ring_mul_comm(b[j], mixed[o][j]);
    }
    lemma_sum_eq(n, direct, columns);
    lemma_sum_swap(n, n, term);
    let rows = |i: int| sum_to(n, |j: int| term(i, j));
    let want = |i: int| sum_to(n, |j: int| a[i].s_mul(m.cov[i][j]).s_mul(b[j]));
    assert forall|i: int| 0 <= i < n implies #[trigger] rows(i) == want(i) by {
        lemma_sum_eq(
            n,
            |j: int| term(i, j),
            |j: int| a[i].s_mul(m.cov[i][j]).s_mul(b[j]),
        );
    }
    lemma_sum_eq(n, rows, want);
}

/// Whether a matrix equals its transpose.
pub open spec fn is_symmetric<S>(c: Seq<Seq<S>>) -> bool {
    forall|i: int, j: int|
        0 <= i < c.len() && 0 <= j < c.len() ==> #[trigger] c[i][j] == c[j][i]
}

/// Affine layers keep covariance symmetric.
pub proof fn law_linear_keeps_symmetry<S: Scalar>(
    m: MomentsModel<S>,
    weight: Seq<Seq<S>>,
    bias: Seq<S>,
)
    requires
        is_ring::<S>(),
        has_shape(m, m.mean.len()),
        has_width(weight, m.mean.len()),
        is_symmetric(m.cov),
    ensures
        is_symmetric(linear(m, weight, bias).cov),
{
    let n = m.mean.len();
    let out = linear(m, weight, bias).cov;
    assert forall|o: int, p: int| 0 <= o < out.len() && 0 <= p < out.len() implies #[trigger] out[o][p]
        == out[p][o] by {
        let a = weight[o];
        let b = weight[p];
        law_linear_covariance_form(m, weight, bias, o, p);
        law_linear_covariance_form(m, weight, bias, p, o);
        let term = |i: int, j: int| a[i].s_mul(m.cov[i][j]).s_mul(b[j]);
        let one = |i: int| sum_to(n, |j: int| term(i, j));
        let same = |i: int| sum_to(n, |j: int| a[i].s_mul(m.cov[i][j]).s_mul(b[j]));
        assert forall|i: int| 0 <= i < n implies #[trigger] one(i) == same(i) by {
            lemma_sum_eq(
                n,
                |j: int| term(i, j),
                |j: int| a[i].s_mul(m.cov[i][j]).s_mul(b[j]),
            );
        }
        lemma_sum_eq(n, one, same);
        lemma_sum_swap(n, n, term);
        let two = |j: int| sum_to(n, |i: int| term(i, j));
        let other = |j: int| sum_to(n, |i: int| b[j].s_mul(m.cov[j][i]).s_mul(a[i]));
        assert forall|j: int| 0 <= j < n implies #[trigger] two(j) == other(j) by {
            let x = |i: int| term(i, j);
            let y = |i: int| b[j].s_mul(m.cov[j][i]).s_mul(a[i]);
            assert forall|i: int| 0 <= i < n implies #[trigger] x(i) == y(i) by {
                let c = m.cov[i][j];
                assert(c == m.cov[j][i]);
                ring_mul_comm(a[i].s_mul(c), b[j]);
                ring_mul_comm(a[i], c);
                ring_mul_assoc(b[j], c, a[i]);
            }
            lemma_sum_eq(n, x, y);
        }
        lemma_sum_eq(n, two, other);
    }
}

/// `v^T c v`.
pub open spec fn quadratic<S: Scalar>(c: Seq<Seq<S>>, v: Seq<S>) -> S {
    bilinear(v.len(), v, c, v)
}

/// `W^T v`.
pub open spec fn pulled_back<S: Scalar>(weight: Seq<Seq<S>>, n: nat, v: Seq<S>) -> Seq<S> {
    Seq::new(n, |i: int| sum_to(weight.len(), |o: int| v[o].s_mul(weight[o][i])))
}

/// Whether no direction has negative variance.
pub open spec fn is_semidefinite<S: Scalar>(c: Seq<Seq<S>>) -> bool {
    forall|v: Seq<S>| v.len() == c.len() ==> !(#[trigger] quadratic(c, v)).s_lt(S::s_int(0))
}

/// `a^T cov' v = (W^T a)^T cov (W^T v)`: the covariance of an affine output
/// between two directions is that of the input between the directions that they
/// come from.
pub proof fn law_linear_directions<S: Scalar>(
    m: MomentsModel<S>,
    weight: Seq<Seq<S>>,
    bias: Seq<S>,
    a: Seq<S>,
    v: Seq<S>,
)
    requires
        is_ring::<S>(),
        has_shape(m, m.mean.len()),
        has_width(weight, m.mean.len()),
        a.len() == weight.len(),
        v.len() == weight.len(),
    ensures
        bilinear(weight.len(), a, linear(m, weight, bias).cov, v) == bilinear(
            m.mean.len(),
            pulled_back(weight, m.mean.len(), a),
            m.cov,
            pulled_back(weight, m.mean.len(), v),
        ),
{
    let n = m.mean.len();
    let d = weight.len();
    let c = linear(m, weight, bias).cov;
    let t = pulled_back(weight, n, a);
    let u = pulled_back(weight, n, v);
    // sum_p cov'[o][p] v_p = sum_i W[o][i] (sum_j C[i][j] u_j)
    let cu = |i: int| sum_to(n, |j: int| m.cov[i][j].s_mul(u[j]));
    let right = |o: int| sum_to(n, |i: int| weight[o][i].s_mul(cu(i)));
    let given = |o: int| sum_to(d, |p: int| a[o].s_mul(c[o][p]).s_mul(v[p]));
    let moved = |o: int| a[o].s_mul(right(o));
    assert forall|o: int| 0 <= o < d implies #[trigger] given(o) == moved(o) by {
        let row = |p: int| c[o][p].s_mul(v[p]);
        let x = |p: int| a[o].s_mul(c[o][p]).s_mul(v[p]);
        let y = |p: int| a[o].s_mul(row(p));
        assert forall|p: int| 0 <= p < d implies #[trigger] x(p) == y(p) by {
            ring_mul_assoc(a[o], c[o][p], v[p]);
        }
        lemma_sum_eq(d, x, y);
        lemma_sum_scale(d, a[o], row);
        lemma_row_times_vector(m, weight, bias, o, v);
        lemma_sum_eq(
            n,
            |i: int| weight[o][i].s_mul(cu(i)),
            |i: int| weight[o][i].s_mul(sum_to(n, |j: int| m.cov[i][j].s_mul(u[j]))),
        );
    }
    lemma_sum_eq(d, given, moved);
    // sum_o v_o (sum_i W[o][i] cu_i) = sum_i (sum_o v_o W[o][i]) cu_i
    let va = |o: int| a[o];
    let wb = |o: int, i: int| weight[o][i];
    lemma_sum_assoc(d, n, va, wb, cu);
    let before = |o: int| va(o).s_mul(sum_to(n, |i: int| wb(o, i).s_mul(cu(i))));
    assert forall|o: int| 0 <= o < d implies #[trigger] moved(o) == before(o) by {
        lemma_sum_eq(
            n,
            |i: int| weight[o][i].s_mul(cu(i)),
            |i: int| wb(o, i).s_mul(cu(i)),
        );
    }
    lemma_sum_eq(d, moved, before);
    let after = |i: int| sum_to(d, |o: int| va(o).s_mul(wb(o, i))).s_mul(cu(i));
    let want = |i: int| sum_to(n, |j: int| t[i].s_mul(m.cov[i][j]).s_mul(u[j]));
    assert forall|i: int| 0 <= i < n implies #[trigger] after(i) == want(i) by {
        lemma_sum_eq(
            d,
            |o: int| va(o).s_mul(wb(o, i)),
            |o: int| a[o].s_mul(weight[o][i]),
        );
        let row = |j: int| m.cov[i][j].s_mul(u[j]);
        lemma_sum_scale(n, t[i], row);
        let x = |j: int| t[i].s_mul(row(j));
        let y = |j: int| t[i].s_mul(m.cov[i][j]).s_mul(u[j]);
        assert forall|j: int| 0 <= j < n implies #[trigger] x(j) == y(j) by {
            ring_mul_assoc(t[i], m.cov[i][j], u[j]);
        }
        lemma_sum_eq(n, x, y);
    }
    lemma_sum_eq(n, after, want);
}

/// `sum_p cov'[o][p] v_p = sum_i W[o][i] sum_j C[i][j] (W^T v)_j`.
proof fn lemma_row_times_vector<S: Scalar>(
    m: MomentsModel<S>,
    weight: Seq<Seq<S>>,
    bias: Seq<S>,
    o: int,
    v: Seq<S>,
)
    requires
        is_ring::<S>(),
        has_shape(m, m.mean.len()),
        has_width(weight, m.mean.len()),
        v.len() == weight.len(),
        0 <= o < weight.len(),
    ensures
        sum_to(
            weight.len(),
            |p: int| linear(m, weight, bias).cov[o][p].s_mul(v[p]),
        ) == sum_to(
            m.mean.len(),
            |i: int|
                weight[o][i].s_mul(
                    sum_to(
                        m.mean.len(),
                        |j: int|
                            m.cov[i][j].s_mul(pulled_back(weight, m.mean.len(), v)[j]),
                    ),
                ),
        ),
{
    let n = m.mean.len();
    let d = weight.len();
    let c = linear(m, weight, bias).cov;
    let u = pulled_back(weight, n, v);
    let mixed = times_matrix(weight, m.cov, n);
    let mo = |j: int| mixed[o][j];
    let wt = |j: int, p: int| weight[p][j];
    let vv = |p: int| v[p];
    // sum_p (sum_j mixed_j W[p][j]) v_p = sum_j mixed_j u_j
    lemma_sum_assoc(n, d, mo, wt, vv);
    let x = |p: int| c[o][p].s_mul(v[p]);
    let y = |p: int| sum_to(n, |j: int| mo(j).s_mul(wt(j, p))).s_mul(vv(p));
    assert forall|p: int| 0 <= p < d implies #[trigger] x(p) == y(p) by {
        lemma_dot_sum(weight[p], mixed[o], n);
        let s = |j: int| weight[p][j].s_mul(mixed[o][j]);
        let t = |j: int| mo(j).s_mul(wt(j, p));
        assert forall|j: int| 0 <= j < n implies #[trigger] s(j) == t(j) by {
            ring_mul_comm(weight[p][j], mixed[o][j]);
        }
        lemma_sum_eq(n, s, t);
    }
    lemma_sum_eq(d, x, y);
    // sum_j (sum_i W[o][i] C[i][j]) u_j = sum_i W[o][i] (sum_j C[i][j] u_j)
    let wo = |i: int| weight[o][i];
    let cc = |i: int, j: int| m.cov[i][j];
    let uu = |j: int| u[j];
    lemma_sum_assoc(n, n, wo, cc, uu);
    let p1 = |j: int| mo(j).s_mul(sum_to(d, |p: int| wt(j, p).s_mul(vv(p))));
    let p2 = |j: int| sum_to(n, |i: int| wo(i).s_mul(cc(i, j))).s_mul(uu(j));
    assert forall|j: int| 0 <= j < n implies #[trigger] p1(j) == p2(j) by {
        lemma_dot_sum(weight[o], column(m.cov, j), n);
        lemma_sum_eq(
            n,
            |i: int| weight[o][i].s_mul(column(m.cov, j)[i]),
            |i: int| wo(i).s_mul(cc(i, j)),
        );
        let s = |p: int| wt(j, p).s_mul(vv(p));
        let t = |p: int| v[p].s_mul(weight[p][j]);
        assert forall|p: int| 0 <= p < d implies #[trigger] s(p) == t(p) by {
            ring_mul_comm(v[p], weight[p][j]);
        }
        lemma_sum_eq(d, s, t);
    }
    lemma_sum_eq(n, p1, p2);
    let q1 = |i: int| wo(i).s_mul(sum_to(n, |j: int| cc(i, j).s_mul(uu(j))));
    let q2 = |i: int| weight[o][i].s_mul(sum_to(n, |j: int| m.cov[i][j].s_mul(u[j])));
    assert forall|i: int| 0 <= i < n implies #[trigger] q1(i) == q2(i) by {
        lemma_sum_eq(n, |j: int| cc(i, j).s_mul(uu(j)), |j: int| m.cov[i][j].s_mul(u[j]));
    }
    lemma_sum_eq(n, q1, q2);
}

/// Affine layers keep covariance positive semidefinite.
pub proof fn law_linear_keeps_semidefinite<S: Scalar>(
    m: MomentsModel<S>,
    weight: Seq<Seq<S>>,
    bias: Seq<S>,
)
    requires
        is_ring::<S>(),
        has_shape(m, m.mean.len()),
        has_width(weight, m.mean.len()),
        is_semidefinite(m.cov),
    ensures
        is_semidefinite(linear(m, weight, bias).cov),
{
    let out = linear(m, weight, bias).cov;
    assert forall|v: Seq<S>| v.len() == out.len() implies !(#[trigger] quadratic(out, v)).s_lt(
        S::s_int(0),
    ) by {
        law_linear_directions(m, weight, bias, v, v);
        let u = pulled_back(weight, m.mean.len(), v);
        assert(quadratic(out, v) == quadratic(m.cov, u));
    }
}

/// `W2 b1 + b2`: the bias of two affine layers in a row.
pub open spec fn chained_bias<S: Scalar>(second: Seq<Seq<S>>, a: Seq<S>, b: Seq<S>) -> Seq<S> {
    Seq::new(second.len(), |o: int| dot(second[o], a, a.len()).s_add(b[o]))
}

/// Two affine layers in a row are one, with weights `W2 W1` and bias
/// `W2 b1 + b2`.
pub proof fn law_linear_composes<S: Scalar>(
    m: MomentsModel<S>,
    first: Seq<Seq<S>>,
    a: Seq<S>,
    second: Seq<Seq<S>>,
    b: Seq<S>,
)
    requires
        is_ring::<S>(),
        has_shape(m, m.mean.len()),
        has_width(first, m.mean.len()),
        a.len() == first.len(),
        has_width(second, first.len()),
        b.len() == second.len(),
    ensures
        linear(linear(m, first, a), second, b) == linear(
            m,
            times_matrix(second, first, m.mean.len()),
            chained_bias(second, a, b),
        ),
{
    let n = m.mean.len();
    let h = first.len();
    let between = linear(m, first, a);
    let left = linear(between, second, b);
    let weight = times_matrix(second, first, n);
    let right = linear(m, weight, chained_bias(second, a, b));
    assert(has_shape(between, h));
    assert(has_width(weight, n));
    assert forall|o: int| 0 <= o < second.len() implies left.mean[o] == right.mean[o] by {
        lemma_mean_composes(m.mean, first, a, second[o], weight[o], b[o]);
    }
    assert(left.mean =~= right.mean);
    assert forall|o: int| 0 <= o < second.len() implies left.cov[o] =~= right.cov[o] by {
        assert forall|p: int| 0 <= p < second.len() implies left.cov[o][p] == right.cov[o][p] by {
            law_linear_covariance_form(between, second, b, o, p);
            law_linear_covariance_form(m, weight, chained_bias(second, a, b), o, p);
            law_linear_directions(m, first, a, second[o], second[p]);
            lemma_product_row(first, n, second, o);
            lemma_product_row(first, n, second, p);
        }
    }
    assert(left.cov =~= right.cov);
}

/// Row `o` of `W2 W1` is `W1^T` times row `o` of `W2`.
proof fn lemma_product_row<S: Scalar>(first: Seq<Seq<S>>, n: nat, second: Seq<Seq<S>>, o: int)
    requires
        0 <= o < second.len(),
    ensures
        pulled_back(first, n, second[o]) == times_matrix(second, first, n)[o],
{
    let row = times_matrix(second, first, n)[o];
    assert forall|i: int| 0 <= i < n implies pulled_back(first, n, second[o])[i] == row[i] by {
        lemma_dot_sum(second[o], column(first, i), first.len());
        lemma_sum_eq(
            first.len(),
            |k: int| second[o][k].s_mul(first[k][i]),
            |k: int| second[o][k].s_mul(column(first, i)[k]),
        );
    }
    assert(pulled_back(first, n, second[o]) =~= row);
}

/// One mean after two affine layers.
proof fn lemma_mean_composes<S: Scalar>(
    mean: Seq<S>,
    first: Seq<Seq<S>>,
    a: Seq<S>,
    w: Seq<S>,
    row: Seq<S>,
    b: S,
)
    requires
        is_ring::<S>(),
        has_width(first, mean.len()),
        a.len() == first.len(),
        row.len() == mean.len(),
        forall|i: int| 0 <= i < row.len() ==> #[trigger] row[i] == dot(w, column(first, i), a.len()),
    ensures
        dot(
            w,
            Seq::new(first.len(), |k: int| dot(first[k], mean, mean.len()).s_add(a[k])),
            first.len(),
        ).s_add(b) == dot(row, mean, mean.len()).s_add(dot(w, a, a.len()).s_add(b)),
{
    let n = mean.len();
    let h = first.len();
    let inner = Seq::new(h, |k: int| dot(first[k], mean, n).s_add(a[k]));
    lemma_dot_sum(w, inner, h);
    lemma_dot_sum(row, mean, n);
    lemma_dot_sum(w, a, h);
    let ww = |k: int| w[k];
    let ff = |k: int, i: int| first[k][i];
    let mm = |i: int| mean[i];
    let mapped = |k: int| ww(k).s_mul(sum_to(n, |i: int| ff(k, i).s_mul(mm(i))));
    let shifts = |k: int| w[k].s_mul(a[k]);
    let whole = |k: int| w[k].s_mul(inner[k]);
    let split = |k: int| mapped(k).s_add(shifts(k));
    assert forall|k: int| 0 <= k < h implies #[trigger] whole(k) == split(k) by {
        lemma_dot_sum(first[k], mean, n);
        lemma_sum_eq(n, |i: int| first[k][i].s_mul(mean[i]), |i: int| ff(k, i).s_mul(mm(i)));
        ring_dist(w[k], dot(first[k], mean, n), a[k]);
    }
    lemma_sum_eq(h, whole, split);
    lemma_sum_add(h, mapped, shifts);
    lemma_sum_assoc(h, n, ww, ff, mm);
    let chained = |i: int| sum_to(h, |k: int| ww(k).s_mul(ff(k, i))).s_mul(mm(i));
    let want = |i: int| row[i].s_mul(mean[i]);
    assert forall|i: int| 0 <= i < n implies #[trigger] chained(i) == want(i) by {
        lemma_dot_sum(w, column(first, i), h);
        lemma_sum_eq(
            h,
            |k: int| ww(k).s_mul(ff(k, i)),
            |k: int| w[k].s_mul(column(first, i)[k]),
        );
    }
    lemma_sum_eq(n, chained, want);
    ring_add_assoc(sum_to(n, want), sum_to(h, shifts), b);
}

/// Fixed inputs stay fixed: where the covariance is zero, so is that of an
/// affine output.
pub proof fn law_linear_fixed<S: Scalar>(
    m: MomentsModel<S>,
    weight: Seq<Seq<S>>,
    bias: Seq<S>,
    o: int,
    p: int,
)
    requires
        is_ring::<S>(),
        has_shape(m, m.mean.len()),
        has_width(weight, m.mean.len()),
        0 <= o < weight.len(),
        0 <= p < weight.len(),
        forall|i: int, j: int|
            0 <= i < m.mean.len() && 0 <= j < m.mean.len() ==> #[trigger] m.cov[i][j] == S::s_int(
                0,
            ),
    ensures
        linear(m, weight, bias).cov[o][p] == S::s_int(0),
{
    let n = m.mean.len();
    law_linear_covariance_form(m, weight, bias, o, p);
    let rows = |i: int| sum_to(n, |j: int| weight[o][i].s_mul(m.cov[i][j]).s_mul(weight[p][j]));
    assert forall|i: int| 0 <= i < n implies #[trigger] rows(i) == S::s_int(0) by {
        let terms = |j: int| weight[o][i].s_mul(m.cov[i][j]).s_mul(weight[p][j]);
        assert forall|j: int| 0 <= j < n implies #[trigger] terms(j) == S::s_int(0) by {
            assert(m.cov[i][j] == S::s_int(0));
            ring_zero(weight[o][i]);
            ring_zero(weight[p][j]);
        }
        lemma_sum_zero(n, terms);
    }
    lemma_sum_zero(n, rows);
}

} // verus!
