//! What a sequence of layers does, layer by layer and from end to end.
use vstd::prelude::*;

use crate::scalar::Scalar;
use crate::vector::Layer;
use crate::violation::Violation;

verus! {

use crate::laws::arithmetic::{is_ring, ring_zero};
use crate::laws::sums::{lemma_dot_sum, lemma_sum_eq, lemma_sum_single, sum_to};
use crate::laws::vector::{
    chained_bias, has_shape, law_layers_chain, law_linear_composes, law_linear_covariance_form,
};
use crate::matrix::{column, has_width, rows, times_matrix, times_vector};
use crate::vector::{
    after_layers, independent, input_fault, linear, linear_fault, relu, relu_fault, sequential,
    MomentsModel,
};

/// A sequence of one affine layer is that layer: it is refused where the layer
/// alone is, and otherwise gives the layer's moments, covariances included.
pub proof fn law_one_linear_layer<S: Scalar>(
    weight: Vec<Vec<S>>,
    bias: Vec<S>,
    m: MomentsModel<S>,
)
    ensures
        after_layers(seq![Layer::Linear { weight, bias }], m) == match linear_fault(
            m,
            rows(weight@),
            bias@,
        ) {
            Some(v) => Err::<MomentsModel<S>, Violation>(v),
            None => Ok(linear(m, rows(weight@), bias@)),
        },
{
    let layers = seq![Layer::Linear { weight, bias }];
    assert(layers.drop_last() =~= Seq::<Layer<S>>::empty());
    reveal_with_fuel(after_layers, 3);
}

/// A sequence of one rectifier is that rectifier.
pub proof fn law_one_relu_layer<S: Scalar>(m: MomentsModel<S>)
    ensures
        after_layers(seq![Layer::<S>::ReLU], m) == match relu_fault(m) {
            Some(v) => Err::<MomentsModel<S>, Violation>(v),
            None => Ok(relu(m)),
        },
{
    let layers = seq![Layer::<S>::ReLU];
    assert(layers.drop_last() =~= Seq::<Layer<S>>::empty());
    reveal_with_fuel(after_layers, 3);
}

/// The mean after an affine layer, entry by entry:
/// `mean'[o] = sum_i W[o][i] mean[i] + b[o]`.
pub proof fn law_linear_mean_form<S: Scalar>(
    m: MomentsModel<S>,
    weight: Seq<Seq<S>>,
    bias: Seq<S>,
    o: int,
)
    requires
        0 <= o < weight.len(),
    ensures
        linear(m, weight, bias).mean.len() == weight.len(),
        linear(m, weight, bias).mean[o] == sum_to(
            m.mean.len(),
            |i: int| weight[o][i].s_mul(m.mean[i]),
        ).s_add(bias[o]),
{
    lemma_dot_sum(weight[o], m.mean, m.mean.len());
}

/// The covariance after an affine layer, entry by entry and in whatever
/// arithmetic: `cov'[o][p] = sum_k W[p][k] (sum_l W[o][l] cov[l][k])`.
pub proof fn law_linear_covariance_entries<S: Scalar>(
    m: MomentsModel<S>,
    weight: Seq<Seq<S>>,
    bias: Seq<S>,
    o: int,
    p: int,
)
    requires
        m.cov.len() == m.mean.len(),
        0 <= o < weight.len(),
        0 <= p < weight.len(),
    ensures
        linear(m, weight, bias).cov[o][p] == sum_to(
            m.mean.len(),
            |k: int|
                weight[p][k].s_mul(
                    sum_to(m.mean.len(), |l: int| weight[o][l].s_mul(m.cov[l][k])),
                ),
        ),
{
    let n = m.mean.len();
    let mixed = times_matrix(weight, m.cov, n);
    law_matrix_times_vector(weight, mixed[o], p);
    let x = |k: int| weight[p][k].s_mul(mixed[o][k]);
    let y = |k: int|
        weight[p][k].s_mul(sum_to(n, |l: int| weight[o][l].s_mul(m.cov[l][k])));
    assert forall|k: int| 0 <= k < n implies #[trigger] x(k) == y(k) by {
        law_matrix_times_matrix(weight, m.cov, n, o, k);
    }
    lemma_sum_eq(n, x, y);
}

/// The size of the covariance after an affine layer.
pub proof fn law_linear_shape<S: Scalar>(
    m: MomentsModel<S>,
    weight: Seq<Seq<S>>,
    bias: Seq<S>,
)
    ensures
        has_shape(linear(m, weight, bias), weight.len()),
{
}

/// The moments that an affine layer makes of independent inputs: with
/// deviations `s`, outputs `o` and `p` covary by
/// `sum_k W[o][k] s[k]^2 W[p][k]`, and the mean of output `o` is
/// `sum_k W[o][k] mean[k] + b[o]`.
pub proof fn law_independent_inputs_through_linear<S: Scalar>(
    weight: Vec<Vec<S>>,
    bias: Vec<S>,
    mean: Seq<S>,
    std: Seq<S>,
    o: int,
    p: int,
)
    requires
        is_ring::<S>(),
        input_fault(mean, std) is None,
        linear_fault(independent(mean, std), rows(weight@), bias@) is None,
        has_width(rows(weight@), mean.len()),
        0 <= o < weight@.len(),
        0 <= p < weight@.len(),
    ensures
        ({
            let r = sequential(seq![Layer::Linear { weight, bias }], mean, std);
            let w = rows(weight@);
            &&& r is Ok
            &&& r->Ok_0.mean.len() == weight@.len()
            &&& r->Ok_0.mean[o] == sum_to(
                mean.len(),
                |k: int| w[o][k].s_mul(mean[k]),
            ).s_add(bias@[o])
            &&& r->Ok_0.cov[o][p] == sum_to(
                mean.len(),
                |k: int| w[o][k].s_mul(std[k].s_mul(std[k])).s_mul(w[p][k]),
            )
        }),
{
    let w = rows(weight@);
    let m = independent(mean, std);
    let n = mean.len();
    law_one_linear_layer(weight, bias, m);
    law_linear_mean_form(m, w, bias@, o);
    assert(std.len() == n);
    assert(has_shape(m, n));
    law_linear_covariance_form(m, w, bias@, o, p);
    let row = |i: int| sum_to(n, |j: int| w[o][i].s_mul(m.cov[i][j]).s_mul(w[p][j]));
    let want = |k: int| w[o][k].s_mul(std[k].s_mul(std[k])).s_mul(w[p][k]);
    assert forall|i: int| 0 <= i < n implies #[trigger] row(i) == want(i) by {
        let term = |j: int| w[o][i].s_mul(m.cov[i][j]).s_mul(w[p][j]);
        assert forall|j: int| 0 <= j < n && j != i implies #[trigger] term(j) == S::s_int(0) by {
            ring_zero(w[o][i]);
            ring_zero(w[p][j]);
        }
        lemma_sum_single(n, term, i);
    }
    lemma_sum_eq(n, row, want);
}

/// Independent inputs keep their means, have the squares of their deviations
/// for variances, and do not covary.
pub proof fn law_independent_inputs<S: Scalar>(mean: Seq<S>, std: Seq<S>, i: int, j: int)
    requires
        input_fault(mean, std) is None,
        0 <= i < mean.len(),
        0 <= j < mean.len(),
    ensures
        ({
            let r = sequential(Seq::<Layer<S>>::empty(), mean, std);
            &&& r is Ok
            &&& r->Ok_0.mean == mean
            &&& has_shape(r->Ok_0, mean.len())
            &&& r->Ok_0.cov[i][i] == std[i].s_mul(std[i])
            &&& i != j ==> r->Ok_0.cov[i][j] == S::s_int(0)
        }),
{
}

/// Two affine layers in a row give what the one layer gives whose weights are
/// their product, wherever none of the layers is refused.
pub proof fn law_two_linear_layers_are_one<S: Scalar>(
    first: Vec<Vec<S>>,
    a: Vec<S>,
    second: Vec<Vec<S>>,
    b: Vec<S>,
    both: Vec<Vec<S>>,
    c: Vec<S>,
    m: MomentsModel<S>,
)
    requires
        is_ring::<S>(),
        has_shape(m, m.mean.len()),
        has_width(rows(first@), m.mean.len()),
        a@.len() == first@.len(),
        has_width(rows(second@), first@.len()),
        b@.len() == second@.len(),
        rows(both@).len() == second@.len(),
        has_width(rows(both@), m.mean.len()),
        forall|o: int, i: int|
            0 <= o < second@.len() && 0 <= i < m.mean.len() ==> #[trigger] rows(both@)[o][i]
                == sum_to(
                first@.len(),
                |k: int| rows(second@)[o][k].s_mul(rows(first@)[k][i]),
            ),
        c@.len() == second@.len(),
        forall|o: int|
            0 <= o < second@.len() ==> #[trigger] c@[o] == sum_to(
                first@.len(),
                |k: int| rows(second@)[o][k].s_mul(a@[k]),
            ).s_add(b@[o]),
        after_layers(
            seq![
                Layer::Linear { weight: first, bias: a },
                Layer::Linear { weight: second, bias: b },
            ],
            m,
        ) is Ok,
        after_layers(seq![Layer::Linear { weight: both, bias: c }], m) is Ok,
    ensures
        after_layers(
            seq![
                Layer::Linear { weight: first, bias: a },
                Layer::Linear { weight: second, bias: b },
            ],
            m,
        ) == after_layers(seq![Layer::Linear { weight: both, bias: c }], m),
{
    let one = seq![Layer::Linear { weight: first, bias: a }];
    let two = seq![Layer::Linear { weight: second, bias: b }];
    assert(seq![
        Layer::Linear { weight: first, bias: a },
        Layer::Linear { weight: second, bias: b },
    ] =~= one + two);
    law_layers_chain(one, two, m);
    law_one_linear_layer(first, a, m);
    law_one_linear_layer(second, b, linear(m, rows(first@), a@));
    law_one_linear_layer(both, c, m);
    let (f, s, w) = (rows(first@), rows(second@), rows(both@));
    law_linear_composes(m, f, a@, s, b@);
    let n = m.mean.len();
    let whole = times_matrix(s, f, n);
    assert forall|o: int| 0 <= o < w.len() implies w[o] =~= whole[o] by {
        assert forall|i: int| 0 <= i < n implies w[o][i] == whole[o][i] by {
            lemma_dot_sum(s[o], column(f, i), f.len());
            lemma_sum_eq(
                f.len(),
                |k: int| s[o][k].s_mul(f[k][i]),
                |k: int| s[o][k].s_mul(column(f, i)[k]),
            );
        }
    }
    assert(w =~= whole);
    assert forall|o: int| 0 <= o < c@.len() implies c@[o] == chained_bias(s, a@, b@)[o] by {
        lemma_dot_sum(s[o], a@, a@.len());
    }
    assert(c@ =~= chained_bias(s, a@, b@));
}

/// The rectifier treats every feature as if it were alone: its mean and its
/// variance are those of a single feature with the same mean and variance.
pub proof fn law_relu_features_apart<S: Scalar>(m: MomentsModel<S>, i: int)
    requires
        0 <= i < m.mean.len(),
    ensures
        ({
            let alone = MomentsModel { mean: seq![m.mean[i]], cov: seq![seq![m.cov[i][i]]] };
            &&& relu(m).mean.len() == m.mean.len()
            &&& has_shape(relu(m), m.mean.len())
            &&& relu(m).mean[i] == relu(alone).mean[0]
            &&& relu(m).cov[i][i] == relu(alone).cov[0][0]
        }),
{
}

/// A matrix times a vector, entry by entry.
pub proof fn law_matrix_times_vector<S: Scalar>(a: Seq<Seq<S>>, v: Seq<S>, i: int)
    requires
        0 <= i < a.len(),
    ensures
        times_vector(a, v).len() == a.len(),
        times_vector(a, v)[i] == sum_to(v.len(), |k: int| a[i][k].s_mul(v[k])),
{
    lemma_dot_sum(a[i], v, v.len());
}

/// A matrix times a matrix, entry by entry.
pub proof fn law_matrix_times_matrix<S: Scalar>(
    a: Seq<Seq<S>>,
    b: Seq<Seq<S>>,
    n: nat,
    i: int,
    j: int,
)
    requires
        0 <= i < a.len(),
        0 <= j < n,
    ensures
        times_matrix(a, b, n).len() == a.len(),
        times_matrix(a, b, n)[i].len() == n,
        times_matrix(a, b, n)[i][j] == sum_to(b.len(), |k: int| a[i][k].s_mul(b[k][j])),
{
    lemma_dot_sum(a[i], column(b, j), b.len());
    lemma_sum_eq(
        b.len(),
        |k: int| a[i][k].s_mul(column(b, j)[k]),
        |k: int| a[i][k].s_mul(b[k][j]),
    );
}

/// Inputs that are refused are refused with any layers, and inputs that are not
/// go through all layers as their moments do.
pub proof fn law_inputs_then_layers<S: Scalar>(layers: Seq<Layer<S>>, mean: Seq<S>, std: Seq<S>)
    ensures
        input_fault(mean, std) matches Some(v) ==> sequential(layers, mean, std) == Err::<
            MomentsModel<S>,
            Violation,
        >(v),
        input_fault(mean, std) is None ==> sequential(layers, mean, std) == match sequential(
            Seq::<Layer<S>>::empty(),
            mean,
            std,
        ) {
            Err(v) => Err(v),
            Ok(m) => after_layers(layers, m),
        },
{
}

/// A layer that is refused ends the sequence: what comes behind it does not
/// matter.
pub proof fn law_refused_layer_ends<S: Scalar>(
    before: Seq<Layer<S>>,
    behind: Seq<Layer<S>>,
    m: MomentsModel<S>,
)
    requires
        after_layers(before, m) is Err,
    ensures
        after_layers(before + behind, m) == after_layers(before, m),
{
    law_layers_chain(before, behind, m);
}

} // verus!
