//! Laws that the operations obey, stated over the limb model.
use crate::limbs::{
    fit_limbs, lemma_fit_of, lemma_sum_fit, lemma_value_push, limb_base, limb_weight,
    limbs_value, scaled_limbs, sum_limbs, wider,
};
use vstd::prelude::*;

verus! {

/// `a` added to itself `k` times, starting from a single zero limb.
pub open spec fn repeated_sum(a: Seq<u64>, k: nat) -> Seq<u64>
    decreases k,
{
    if k == 0 {
        seq![0u64]
    } else {
        sum_limbs(repeated_sum(a, (k - 1) as nat), a)
    }
}

/// Addition is commutative, limb for limb (and so in value).
pub proof fn lemma_add_commutative(a: Seq<u64>, b: Seq<u64>)
    ensures
        sum_limbs(a, b) == sum_limbs(b, a),
        limbs_value(sum_limbs(a, b)) == limbs_value(sum_limbs(b, a)),
{
    assert(limbs_value(a) + limbs_value(b) == limbs_value(b) + limbs_value(a));
    assert(wider(a.len(), b.len()) == wider(b.len(), a.len()));
}

/// Addition is associative, limb for limb (and so in value).
pub proof fn lemma_add_associative(a: Seq<u64>, b: Seq<u64>, c: Seq<u64>)
    ensures
        sum_limbs(sum_limbs(a, b), c) == sum_limbs(a, sum_limbs(b, c)),
        limbs_value(sum_limbs(sum_limbs(a, b), c)) == limbs_value(sum_limbs(a, sum_limbs(b, c))),
{
    let (va, vb, vc) = (limbs_value(a), limbs_value(b), limbs_value(c));
    lemma_fit_of(a, a.len());
    lemma_fit_of(b, b.len());
    lemma_fit_of(c, c.len());
    lemma_sum_fit(va + vb, vc, wider(a.len(), b.len()), c.len());
    lemma_sum_fit(va, vb + vc, a.len(), wider(b.len(), c.len()));
    assert(va + vb + vc == va + (vb + vc));
    assert(wider(wider(a.len(), b.len()), c.len()) == wider(a.len(), wider(b.len(), c.len())));
}

/// Adding a one-limb zero keeps the value, and keeps the limbs of a
/// non-empty operand as they are.
pub proof fn lemma_add_zero(a: Seq<u64>)
    ensures
        limbs_value(sum_limbs(a, seq![0u64])) == limbs_value(a),
        a.len() > 0 ==> sum_limbs(a, seq![0u64]) == a,
{
    let z = seq![0u64];
    assert(z.drop_first() =~= Seq::<u64>::empty());
    assert(limbs_value(z.drop_first()) == 0);
    assert(limbs_value(z) == 0);
    crate::limbs::lemma_fit_limbs(limbs_value(a), wider(a.len(), 1));
    if a.len() > 0 {
        lemma_fit_of(a, a.len());
    }
}

proof fn lemma_all_ones(n: nat)
    ensures
        limbs_value(Seq::new(n, |i: int| 0xffff_ffff_ffff_ffffu64)) + 1 == limb_weight(n),
        limbs_value(Seq::new(n, |i: int| 0u64)) == 0,
    decreases n,
{
    let ones = Seq::new(n, |i: int| 0xffff_ffff_ffff_ffffu64);
    let zeros = Seq::new(n, |i: int| 0u64);
    if n == 0 {
        assert(limbs_value(ones) == 0);
        assert(limbs_value(zeros) == 0);
    } else {
        let k = (n - 1) as nat;
        lemma_all_ones(k);
        let ones_k = Seq::new(k, |i: int| 0xffff_ffff_ffff_ffffu64);
        let zeros_k = Seq::new(k, |i: int| 0u64);
        assert(ones =~= ones_k.push(0xffff_ffff_ffff_ffffu64));
        assert(zeros =~= zeros_k.push(0u64));
        lemma_value_push(ones_k, 0xffff_ffff_ffff_ffffu64);
        lemma_value_push(zeros_k, 0u64);
        let w = limb_weight(k);
        assert((w - 1) + w * 0xffff_ffff_ffff_ffffu64 + 1 == limb_base() * w) by (nonlinear_arith);
    }
}

/// A carry that runs off the end of `n` all-ones limbs, when one is added,
/// leaves `n` zero limbs and one new limb of value one.
pub proof fn lemma_carry_off_the_end(n: nat)
    requires
        n > 0,
    ensures
        sum_limbs(Seq::new(n, |i: int| 0xffff_ffff_ffff_ffffu64), seq![1u64]) == Seq::new(
            n,
            |i: int| 0u64,
        ).push(1u64),
{
    let ones = Seq::new(n, |i: int| 0xffff_ffff_ffff_ffffu64);
    let zeros = Seq::new(n, |i: int| 0u64);
    let one = seq![1u64];
    lemma_all_ones(n);
    assert(one.drop_first() =~= Seq::<u64>::empty());
    assert(limbs_value(one.drop_first()) == 0);
    assert(limbs_value(one) == 1);
    lemma_value_push(zeros, 1u64);
    lemma_fit_of(zeros.push(1u64), n);
}

/// Multiplying by `k` gives, limb for limb, what adding `a` to a zero `k`
/// times gives.
pub proof fn lemma_mul_is_repeated_add(a: Seq<u64>, k: nat)
    ensures
        scaled_limbs(a, k) == repeated_sum(a, k),
        limbs_value(scaled_limbs(a, k)) == limbs_value(repeated_sum(a, k)),
    decreases k,
{
    if k > 0 {
        let v = limbs_value(a);
        let km = (k - 1) as nat;
        lemma_mul_is_repeated_add(a, km);
        lemma_fit_of(a, a.len());
        if km == 0 {
            let z = seq![0u64];
            assert(z.drop_first() =~= Seq::<u64>::empty());
            assert(limbs_value(z.drop_first()) == 0);
            assert(limbs_value(z) == 0);
            assert(k == 1);
            assert(v * 1 == 0 + v);
            assert(wider(1, a.len()) == wider(a.len(), 1));
        } else {
            lemma_sum_fit(v * km, v, wider(a.len(), 1), a.len());
            assert(v * km + v == v * k) by (nonlinear_arith)
                requires
                    km + 1 == k,
            ;
        }
    }
}

/// Multiplying by zero gives one zero limb, whatever the length of `a`.
pub proof fn lemma_mul_by_zero(a: Seq<u64>)
    ensures
        scaled_limbs(a, 0) == seq![0u64],
{
}

} // verus!
