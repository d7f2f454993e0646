//! Properties of backends that laws rest on.
use vstd::prelude::*;

use crate::backend::Format;
use crate::scalar::Scalar;

verus! {

use crate::backend::{constant, Model};
use crate::laws::arithmetic::{
    add_zero, is_neutral, is_one, is_ring, is_zero, mul_zero, same, same_trans, zeros_same,
};
use crate::scalar::{dot, total};

/// Whether every entry compares equal to zero.
pub open spec fn all_zero<S: Scalar>(a: Seq<S>) -> bool {
    forall|i: int| 0 <= i < a.len() ==> is_zero(#[trigger] a[i])
}

/// Whether host zeros and ones become zeros and ones in format `f`.
#[verifier::opaque]
pub open spec fn keeps_units<M: Model>(f: Format) -> bool {
    &&& forall|z: M::Elem| is_zero(z) ==> is_zero(#[trigger] M::cast(f, z))
    &&& forall|o: M::Elem| is_one(o) ==> is_one(#[trigger] M::cast(f, o))
}

/// Whether inner products with zeros are zero, and sums of zeros and one number
/// are that number, in whatever order they are accumulated.
#[verifier::opaque]
pub open spec fn accumulates<M: Model>() -> bool {
    &&& forall|a: Seq<M::Elem>, b: Seq<M::Elem>|
        a.len() == b.len() && crate::scalar::all_finite(a) && all_zero(b) ==> is_zero(
            #[trigger] M::inner(a, b),
        )
    &&& forall|a: Seq<M::Elem>, k: int|
        #![trigger M::sum(a), a[k]]
        0 <= k < a.len() && (forall|i: int|
            0 <= i < a.len() && i != k ==> is_zero(#[trigger] a[i])) ==> same(M::sum(a), a[k])
}

/// Whether zero and one are neutral in tensors of format `f`.
pub open spec fn tensor_neutral<M: Model>(f: Format) -> bool {
    &&& is_neutral::<M::Elem>()
    &&& keeps_units::<M>(f)
    &&& accumulates::<M>()
}

/// Whether inner products and sums are accumulated from the first entry on.
#[verifier::opaque]
pub open spec fn folds<M: Model>() -> bool {
    &&& forall|a: Seq<M::Elem>, b: Seq<M::Elem>|
        #[trigger] M::inner(a, b) == dot(a, b, a.len())
    &&& forall|a: Seq<M::Elem>, b: Seq<M::Elem>|
        #[trigger] M::inner3(a, b) == dot(a, b, a.len())
    &&& forall|a: Seq<M::Elem>, b: Seq<M::Elem>|
        #[trigger] M::inner4(a, b) == dot(a, b, a.len())
    &&& forall|a: Seq<M::Elem>| #[trigger] M::sum(a) == total(a, a.len())
}

/// Whether host numbers become tensor entries unchanged.
#[verifier::opaque]
pub open spec fn casts_nothing<M: Model>(f: Format) -> bool {
    forall|x: M::Elem| #[trigger] M::cast(f, x) == x
}

/// Whether tensors of format `f` compute exactly.
pub open spec fn is_exact<M: Model>(f: Format) -> bool {
    &&& is_ring::<M::Elem>()
    &&& folds::<M>()
    &&& casts_nothing::<M>(f)
}

/// The constants zero and one of a format.
pub proof fn lemma_units<M: Model>(f: Format)
    requires
        tensor_neutral::<M>(f),
    ensures
        is_zero(constant::<M>(f, 0)),
        is_one(constant::<M>(f, 1)),
        constant::<M>(f, 0).s_finite(),
        constant::<M>(f, 1).s_finite(),
{
    reveal(keeps_units);
    reveal(crate::laws::arithmetic::equality_fits);
    reveal(crate::laws::arithmetic::one_fits);
}

/// A host zero or one as a tensor entry.
pub proof fn lemma_cast_units<M: Model>(f: Format, x: M::Elem)
    requires
        tensor_neutral::<M>(f),
    ensures
        is_zero(x) ==> is_zero(M::cast(f, x)),
        is_one(x) ==> is_one(M::cast(f, x)),
{
    reveal(keeps_units);
}

/// An inner product of finite numbers and zeros.
pub proof fn lemma_inner_zero<M: Model>(f: Format, a: Seq<M::Elem>, b: Seq<M::Elem>)
    requires
        tensor_neutral::<M>(f),
        a.len() == b.len(),
        crate::scalar::all_finite(a),
        all_zero(b),
    ensures
        is_zero(M::inner(a, b)),
{
    reveal(accumulates);
}

/// A sum of one number and zeros.
pub proof fn lemma_sum_of_one<M: Model>(f: Format, a: Seq<M::Elem>, k: int)
    requires
        tensor_neutral::<M>(f),
        0 <= k < a.len(),
        forall|i: int| 0 <= i < a.len() && i != k ==> is_zero(#[trigger] a[i]),
    ensures
        same(M::sum(a), a[k]),
{
    reveal(accumulates);
}

/// Inner products and sums that are folds.
pub proof fn lemma_folds<M: Model>(a: Seq<M::Elem>, b: Seq<M::Elem>)
    requires
        folds::<M>(),
    ensures
        M::inner(a, b) == dot(a, b, a.len()),
        M::inner3(a, b) == dot(a, b, a.len()),
        M::sum(a) == total(a, a.len()),
{
    reveal(folds);
}

/// Host numbers that are not changed.
pub proof fn lemma_cast<M: Model>(f: Format, x: M::Elem)
    requires
        casts_nothing::<M>(f),
    ensures
        M::cast(f, x) == x,
{
    reveal(casts_nothing);
}

/// The first `n` products of finite numbers and zeros add up to zero.
proof fn lemma_dot_zero<S: Scalar>(a: Seq<S>, b: Seq<S>, n: nat)
    requires
        is_neutral::<S>(),
        n <= a.len(),
        a.len() == b.len(),
        crate::scalar::all_finite(a),
        all_zero(b),
    ensures
        is_zero(dot(a, b, n)),
    decreases n,
{
    if n == 0 {
        reveal(crate::laws::arithmetic::equality_fits);
    } else {
        lemma_dot_zero(a, b, (n - 1) as nat);
        let sum = dot(a, b, (n - 1) as nat);
        let last = a[n - 1].s_mul(b[n - 1]);
        mul_zero(a[n - 1], b[n - 1]);
        add_zero(sum, last);
        zeros_same(sum, sum.s_add(last));
    }
}

/// The first `n` entries, with at most entry `k` not zero, add up to it.
proof fn lemma_total_of_one<S: Scalar>(a: Seq<S>, k: int, n: nat)
    requires
        is_neutral::<S>(),
        0 <= k < a.len(),
        n <= a.len(),
        forall|i: int| 0 <= i < a.len() && i != k ==> is_zero(#[trigger] a[i]),
    ensures
        n <= k ==> is_zero(total(a, n)),
        n > k ==> same(total(a, n), a[k]),
    decreases n,
{
    if n == 0 {
        reveal(crate::laws::arithmetic::equality_fits);
    } else {
        lemma_total_of_one(a, k, (n - 1) as nat);
        let sum = total(a, (n - 1) as nat);
        let last = a[n - 1];
        if n - 1 == k {
            add_zero(last, sum);
        } else {
            assert(is_zero(last));
            add_zero(sum, last);
            if n <= k {
                zeros_same(sum, sum.s_add(last));
            } else {
                same_trans(sum.s_add(last), sum, a[k]);
            }
        }
    }
}

/// A backend that accumulates from the first entry on, and turns host zeros and
/// ones into zeros and ones, keeps the neutrality of its numbers.
pub proof fn law_folding_backend_is_neutral<M: Model>(f: Format)
    requires
        is_neutral::<M::Elem>(),
        folds::<M>(),
        keeps_units::<M>(f),
    ensures
        tensor_neutral::<M>(f),
{
    reveal(accumulates);
    reveal(folds);
    assert forall|a: Seq<M::Elem>, b: Seq<M::Elem>|
        a.len() == b.len() && crate::scalar::all_finite(a) && all_zero(b) implies is_zero(
        #[trigger] M::inner(a, b),
    ) by {
        lemma_dot_zero(a, b, a.len());
    }
    assert forall|a: Seq<M::Elem>, k: int|
        #![trigger M::sum(a), a[k]]
        0 <= k < a.len() && (forall|i: int|
            0 <= i < a.len() && i != k ==> is_zero(#[trigger] a[i])) implies same(
        M::sum(a),
        a[k],
    ) by {
        lemma_total_of_one(a, k, a.len());
    }
}

} // verus!
