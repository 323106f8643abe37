//! The mathematical model of a little-endian sequence of 64-bit limbs.
use vstd::arithmetic::power2::{lemma2_to64, lemma_pow2_adds, lemma_pow2_pos, pow2};
use vstd::prelude::*;

verus! {

/// The weight of one limb position over the one below it.
pub open spec fn limb_base() -> nat {
    0x1_0000_0000_0000_0000
}

/// The weight of limb position `n`.
pub open spec fn limb_weight(n: nat) -> nat
    decreases n,
{
    if n == 0 {
        1
    } else {
        limb_base() * limb_weight((n - 1) as nat)
    }
}

/// The number that a limb sequence stands for, least significant limb first.
pub open spec fn limbs_value(s: Seq<u64>) -> nat
    decreases s.len(),
{
    if s.len() == 0 {
        0
    } else {
        (s[0] + limb_base() * limbs_value(s.drop_first())) as nat
    }
}

/// The `n` lowest limbs of `v`.
pub open spec fn limbs_of(v: nat, n: nat) -> Seq<u64>
    decreases n,
{
    if n == 0 {
        Seq::empty()
    } else {
        seq![(v % limb_base()) as u64] + limbs_of(v / limb_base(), (n - 1) as nat)
    }
}

/// The fewest limbs that can hold `v`.
pub open spec fn min_limbs(v: nat) -> nat
    decreases v,
{
    if v == 0 {
        0
    } else {
        1 + min_limbs(v / limb_base())
    }
}

/// The larger of two limb counts.
pub open spec fn wider(m: nat, n: nat) -> nat {
    if m >= n {
        m
    } else {
        n
    }
}

/// `v` written in `n` limbs, or in as many more as it needs.
pub open spec fn fit_limbs(v: nat, n: nat) -> Seq<u64> {
    limbs_of(v, wider(n, min_limbs(v)))
}

pub proof fn lemma_weight_pos(n: nat)
    ensures
        limb_weight(n) > 0,
    decreases n,
{
    if n > 0 {
        lemma_weight_pos((n - 1) as nat);
        assert(limb_base() * limb_weight((n - 1) as nat) > 0) by (nonlinear_arith)
            requires
                limb_weight((n - 1) as nat) > 0,
                limb_base() > 0,
        ;
    }
}

pub proof fn lemma_value_bound(s: Seq<u64>)
    ensures
        limbs_value(s) < limb_weight(s.len()),
    decreases s.len(),
{
    if s.len() > 0 {
        let t = s.drop_first();
        lemma_value_bound(t);
        let v = limbs_value(t);
        let w = limb_weight(t.len());
        assert(s[0] + limb_base() * v < limb_base() * w) by (nonlinear_arith)
            requires
                v < w,
                s[0] < limb_base(),
        ;
    }
}

pub proof fn lemma_value_concat(a: Seq<u64>, b: Seq<u64>)
    ensures
        limbs_value(a + b) == limbs_value(a) + limb_weight(a.len()) * limbs_value(b),
    decreases a.len(),
{
    if a.len() == 0 {
        assert(a + b =~= b);
        assert(limb_weight(0) == 1);
        assert(limbs_value(a) == 0);
    } else {
        let t = a.drop_first();
        lemma_value_concat(t, b);
        assert((a + b).drop_first() =~= t + b);
        let vt = limbs_value(t);
        let vb = limbs_value(b);
        let wt = limb_weight(t.len());
        assert((a + b)[0] == a[0]);
        assert(limb_weight(a.len()) == limb_base() * wt);
        assert(limb_base() * (vt + wt * vb) == limb_base() * vt + (limb_base() * wt) * vb)
            by (nonlinear_arith);
    }
}

pub proof fn lemma_value_push(s: Seq<u64>, x: u64)
    ensures
        limbs_value(s.push(x)) == limbs_value(s) + limb_weight(s.len()) * x,
{
    lemma_value_concat(s, seq![x]);
    assert(s + seq![x] =~= s.push(x));
    assert(seq![x].drop_first() =~= Seq::<u64>::empty());
    assert(limbs_value(seq![x].drop_first()) == 0);
    assert(limbs_value(seq![x]) == x);
}

pub proof fn lemma_limbs_of(v: nat, n: nat)
    ensures
        limbs_of(v, n).len() == n,
        v < limb_weight(n) ==> limbs_value(limbs_of(v, n)) == v,
    decreases n,
{
    if n > 0 {
        let q = v / limb_base();
        lemma_limbs_of(q, (n - 1) as nat);
        let s = limbs_of(v, n);
        assert(s.drop_first() =~= limbs_of(q, (n - 1) as nat));
        if v < limb_weight(n) {
            assert(q < limb_weight((n - 1) as nat)) by (nonlinear_arith)
                requires
                    v < limb_base() * limb_weight((n - 1) as nat),
                    q == v / limb_base(),
                    limb_base() > 0,
            ;
        }
    }
}

pub proof fn lemma_limbs_of_value(s: Seq<u64>)
    ensures
        limbs_of(limbs_value(s), s.len()) == s,
    decreases s.len(),
{
    if s.len() > 0 {
        let t = s.drop_first();
        lemma_limbs_of_value(t);
        let v = limbs_value(s);
        let vt = limbs_value(t);
        assert(v % limb_base() == s[0] && v / limb_base() == vt) by (nonlinear_arith)
            requires
                v == s[0] + limb_base() * vt,
                s[0] < limb_base(),
                limb_base() > 0,
        ;
        assert(limbs_of(v, s.len()) =~= s);
    }
}

pub proof fn lemma_min_limbs(v: nat, n: nat)
    ensures
        min_limbs(v) <= n <==> v < limb_weight(n),
    decreases n,
{
    if n == 0 {
    } else if v == 0 {
        lemma_weight_pos(n);
    } else {
        let q = v / limb_base();
        lemma_min_limbs(q, (n - 1) as nat);
        let w = limb_weight((n - 1) as nat);
        assert(q < w <==> v < limb_base() * w) by (nonlinear_arith)
            requires
                q == v / limb_base(),
                limb_base() > 0,
        ;
    }
}

pub proof fn lemma_min_limbs_monotone(x: nat, y: nat)
    requires
        x <= y,
    ensures
        min_limbs(x) <= min_limbs(y),
{
    lemma_min_limbs(y, min_limbs(y));
    lemma_min_limbs(x, min_limbs(y));
}

/// The limbs of `a + b` (what `BigInt::add` returns), as wide as the wider operand, or one limb wider
/// where the sum needs it.
pub open spec fn sum_limbs(a: Seq<u64>, b: Seq<u64>) -> Seq<u64> {
    fit_limbs(limbs_value(a) + limbs_value(b), wider(a.len(), b.len()))
}

/// The limbs of `a` shifted left by `bits` (what `BigInt::shl_assign` leaves): `a` itself when `bits` is zero,
/// else `bits / 64` limbs more, or one more again where the value needs it.
pub open spec fn shifted_limbs(a: Seq<u64>, bits: nat) -> Seq<u64> {
    if bits == 0 {
        a
    } else {
        fit_limbs(limbs_value(a) * pow2(bits), a.len() + bits / 64)
    }
}

/// The limbs of `a * k` (what `BigInt::mul` returns): one zero limb when `k` is zero, else at least as
/// many limbs as `a` (and at least one), and more only where the value needs them.
pub open spec fn scaled_limbs(a: Seq<u64>, k: nat) -> Seq<u64> {
    if k == 0 {
        seq![0u64]
    } else {
        fit_limbs(limbs_value(a) * k, wider(a.len(), 1))
    }
}

pub proof fn lemma_value_top_limb(s: Seq<u64>)
    requires
        s.len() > 0,
    ensures
        limbs_value(s) >= limb_weight((s.len() - 1) as nat) * s.last(),
{
    let t = s.drop_last();
    assert(t.push(s.last()) =~= s);
    lemma_value_push(t, s.last());
}

pub proof fn lemma_fit_limbs(v: nat, n: nat)
    ensures
        fit_limbs(v, n).len() == wider(n, min_limbs(v)),
        limbs_value(fit_limbs(v, n)) == v,
{
    let m = wider(n, min_limbs(v));
    lemma_min_limbs(v, m);
    lemma_limbs_of(v, m);
}

/// A limb sequence of at least `n` limbs, whose limbs above the `n`-th are
/// needed, is `fit_limbs` of its value.
pub proof fn lemma_fit_of(s: Seq<u64>, n: nat)
    requires
        n <= s.len(),
        s.len() == n || s.last() != 0,
    ensures
        fit_limbs(limbs_value(s), n) == s,
{
    let v = limbs_value(s);
    lemma_value_bound(s);
    lemma_min_limbs(v, s.len());
    if s.len() > n {
        let k = (s.len() - 1) as nat;
        lemma_value_top_limb(s);
        lemma_weight_pos(k);
        assert(limb_weight(k) * s.last() >= limb_weight(k)) by (nonlinear_arith)
            requires
                s.last() >= 1,
                limb_weight(k) > 0,
        ;
        lemma_min_limbs(v, k);
    }
    lemma_limbs_of_value(s);
}

/// Adding two fitted values fits the sum to the wider of the two widths.
pub proof fn lemma_sum_fit(x: nat, y: nat, m: nat, n: nat)
    ensures
        sum_limbs(fit_limbs(x, m), fit_limbs(y, n)) == fit_limbs(x + y, wider(m, n)),
{
    lemma_fit_limbs(x, m);
    lemma_fit_limbs(y, n);
    lemma_min_limbs_monotone(x, x + y);
    lemma_min_limbs_monotone(y, x + y);
}

/// Shifting a fitted value by less than a limb keeps its width.
pub proof fn lemma_shift_fit(x: nat, n: nat, bits: nat)
    requires
        bits < 64,
    ensures
        shifted_limbs(fit_limbs(x, n), bits) == fit_limbs(x * pow2(bits), n),
{
    lemma_fit_limbs(x, n);
    if bits == 0 {
        lemma2_to64();
        assert(pow2(bits) == 1);
        assert(x * 1 == x);
    } else {
        lemma_pow2_pos(bits);
        assert(x <= x * pow2(bits)) by (nonlinear_arith)
            requires
                pow2(bits) > 0,
        ;
        lemma_min_limbs_monotone(x, x * pow2(bits));
        assert(fit_limbs(x, n).len() + bits / 64 == wider(n, min_limbs(x)));
    }
}

/// The weight of limb position `n` is two to the `64 * n`.
pub proof fn lemma_weight_pow2(n: nat)
    ensures
        limb_weight(n) == pow2(64 * n),
    decreases n,
{
    if n == 0 {
        lemma2_to64();
    } else {
        lemma_weight_pow2((n - 1) as nat);
        lemma_pow2_adds(64, 64 * (n - 1) as nat);
        lemma2_to64();
        assert(64 + 64 * (n - 1) as nat == 64 * n);
    }
}

} // verus!
