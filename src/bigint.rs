//! An unsigned integer of any size, held as 64-bit limbs.
use crate::limbs::{
    fit_limbs, lemma_fit_limbs, lemma_fit_of, lemma_value_concat, lemma_value_push, lemma_weight_pow2,
    lemma_shift_fit, lemma_sum_fit, limb_base, limb_weight, limbs_value, scaled_limbs,
    shifted_limbs, sum_limbs, wider,
};
use vstd::arithmetic::power2::{lemma2_to64, lemma_pow2_adds, lemma_pow2_pos, pow2};
use vstd::bits::{
    lemma_u64_pow2_no_overflow, lemma_u64_low_bits_mask_is_mod, lemma_u64_shl_is_mul,
    lemma_u64_shr_is_div,
};
use vstd::prelude::*;
use vstd::std_specs::bits::axiom_u64_trailing_zeros;

verus! {

/// An unsigned integer of any size: `data` holds its limbs, least
/// significant first.
#[derive(Clone)]
pub struct BigInt {
    pub data: Vec<u64>,
}

impl View for BigInt {
    type V = Seq<u64>;

    open spec fn view(&self) -> Seq<u64> {
        self.data@
    }
}

impl BigInt {
    /// Well-formed: at least one limb.
    pub open spec fn wf(&self) -> bool {
        self.data@.len() > 0
    }

    /// A one-limb integer equal to `val`.
    pub fn from(val: u64) -> (r: BigInt)
        ensures
            r@ == seq![val],
            limbs_value(r@) == val,
            r.wf(),
    {
        let r = BigInt { data: vec![val] };
        proof {
            assert(r@.drop_first() =~= Seq::<u64>::empty());
            assert(limbs_value(r@.drop_first()) == 0);
        }
        r
    }

    /// The sum of `self` and `rhs`, as a new integer.
    pub fn add(&self, rhs: &BigInt) -> (r: BigInt)
        ensures
            r@ == sum_limbs(self@, rhs@),
            limbs_value(r@) == limbs_value(self@) + limbs_value(rhs@),
            self.wf() || rhs.wf() ==> r.wf(),
    {
        let mut r = BigInt { data: self.data.clone() };
        proof {
            assert(r@ =~= self@);
        }
        r.add_assign(rhs);
        r
    }

    /// Adds `rhs` into `self`.
    pub fn add_assign(&mut self, rhs: &BigInt)
        ensures
            final(self)@ == sum_limbs(old(self)@, rhs@),
            limbs_value(final(self)@) == limbs_value(old(self)@) + limbs_value(rhs@),
            old(self).wf() || rhs.wf() ==> final(self).wf(),
    {
        internal_add(&mut self.data, rhs.data.as_slice());
        proof {
            lemma_fit_limbs(
                limbs_value(old(self)@) + limbs_value(rhs@),
                wider(old(self)@.len(), rhs@.len()),
            );
        }
    }

    /// The product of `self` and `scalar`, as a new integer: one set bit of
    /// `scalar` at a time, each adding in `self` shifted to that bit.
    pub fn mul(&self, scalar: u64) -> (r: BigInt)
        ensures
            r@ == scaled_limbs(self@, scalar as nat),
            limbs_value(r@) == limbs_value(self@) * scalar,
            r.wf(),
    {
        if scalar == 0 {
            proof {
                assert(limbs_value(self@) * 0 == 0);
            }
            return BigInt::from(0);
        }
        let ghost v = limbs_value(self@);
        let ghost la = self@.len();
        let mut ret = BigInt::from(0);
        let mut cumulative = BigInt { data: self.data.clone() };
        let mut right = scalar;
        let ghost mut started = false;
        proof {
            assert(cumulative@ =~= self@);
            lemma_fit_of(self@, la);
            lemma_fit_of(ret@, 1);
            assert(v * scalar == 0 + v * right);
        }
        while right > 0
            invariant
                scalar > 0,
                !started ==> right == scalar,
                cumulative@ == fit_limbs(limbs_value(cumulative@), la),
                ret@ == fit_limbs(limbs_value(ret@), if started { wider(la, 1) } else { 1 }),
                limbs_value(ret@) + limbs_value(cumulative@) * right == v * scalar,
            decreases right,
        {
            let tz = right.trailing_zeros() as u64;
            let ghost c = limbs_value(cumulative@);
            let ghost r0 = limbs_value(ret@);
            let ghost n0: nat = if started { wider(la, 1) } else { 1 };
            let ghost q = right >> tz;
            let ghost right0 = right;
            proof {
                lemma_odd_part(right);
                lemma_pow2_pos(tz as nat);
                lemma_shift_fit(c, la, tz as nat);
            }
            cumulative.shl_assign(tz);
            let ghost c1 = limbs_value(cumulative@);
            proof {
                lemma_sum_fit(r0, c1, n0, la);
            }
            ret.add_assign(&cumulative);
            proof {
                lemma_shift_fit(c1, la, 1);
                lemma2_to64();
            }
            cumulative.shl_assign(1);
            right = (right >> tz) >> 1;
            proof {
                started = true;
                lemma_mul_step(r0 as int, c as int, pow2(tz as nat) as int, q as int, right as int);
                assert(q <= right0) by (nonlinear_arith)
                    requires
                        right0 == q * pow2(tz as nat),
                        pow2(tz as nat) > 0,
                ;
            }
        }
        ret
    }

    /// Shifts the value left by `bits` bits, across limb boundaries.
    pub fn shl_assign(&mut self, bits: u64)
        ensures
            final(self)@ == shifted_limbs(old(self)@, bits as nat),
            limbs_value(final(self)@) == limbs_value(old(self)@) * pow2(bits as nat),
            old(self).wf() ==> final(self).wf(),
    {
        let ghost o = self.data@;
        proof {
            lemma_fit_limbs(limbs_value(o) * pow2(bits as nat), (o.len() + bits / 64) as nat);
        }
        if bits == 0 {
            proof {
                lemma2_to64();
                assert(pow2(bits as nat) == 1);
                assert(limbs_value(o) * 1 == limbs_value(o));
            }
            return;
        }
        let zeros_to_add = bits / 64;
        let shift_value = bits % 64;
        let n = self.data.len();
        // A shift by whole limbs moves no bits across limbs (and `x >> 64`
        // would not be defined).
        if shift_value != 0 {
            let mut current: u64 = 0;
            let mut i: usize = 0;
            proof {
                lemma_pow2_pos(shift_value as nat);
                assert(self.data@.take(0) =~= Seq::<u64>::empty());
                assert(o.take(0) =~= Seq::<u64>::empty());
                assert(limbs_value(Seq::<u64>::empty()) == 0);
                assert(limb_weight(0) == 1);
            }
            while i < n
                invariant
                    0 < shift_value < 64,
                    n == o.len(),
                    i <= n,
                    self.data@.len() == n,
                    forall|k: int| i <= k < n ==> self.data@[k] == o[k],
                    current < pow2(shift_value as nat),
                    limbs_value(self.data@.take(i as int)) + current * limb_weight(i as nat)
                        == limbs_value(o.take(i as int)) * pow2(shift_value as nat),
                decreases n - i,
            {
                let x = self.data[i];
                let hi = x >> (64 - shift_value);
                let lo = (x << shift_value) | current;
                let ghost before = self.data@;
                self.data[i] = lo;
                proof {
                    let ii = i as int;
                    lemma_limb_shift(x, shift_value, current);
                    assert(self.data@.take(ii + 1) =~= before.take(ii).push(lo));
                    assert(o.take(ii + 1) =~= o.take(ii).push(o[ii]));
                    lemma_value_push(before.take(ii), lo);
                    lemma_value_push(o.take(ii), o[ii]);
                    lemma_shift_step(
                        limbs_value(before.take(ii)) as int,
                        limbs_value(o.take(ii)) as int,
                        limb_weight(i as nat) as int,
                        pow2(shift_value as nat) as int,
                        current as int,
                        hi as int,
                        lo as int,
                        x as int,
                    );
                    assert(limb_weight((i + 1) as nat) == limb_base() * limb_weight(i as nat));
                }
                current = hi;
                i += 1;
            }
            proof {
                assert(self.data@.take(n as int) =~= self.data@);
                assert(o.take(n as int) =~= o);
            }
            assert(limbs_value(self.data@) + current * limb_weight(n as nat) == limbs_value(o)
                * pow2(shift_value as nat));
            if current != 0 {
                proof {
                    lemma_value_push(self.data@, current);
                    assert(current * limb_weight(n as nat) == limb_weight(n as nat) * current)
                        by (nonlinear_arith);
                }
                self.data.push(current);
            }
            assert(limbs_value(self.data@) == limbs_value(o) * pow2(shift_value as nat));
        } else {
            proof {
                lemma2_to64();
                assert(pow2(shift_value as nat) == 1);
                assert(limbs_value(o) * 1 == limbs_value(o));
            }
        }
        // The value is now the old one times 2^shift_value, in n or n + 1 limbs.
        let ghost mid = self.data@;
        assert(limbs_value(mid) == limbs_value(o) * pow2(shift_value as nat));
        assert(mid.len() == n || (mid.len() == n + 1 && mid.last() != 0));
        let ghost mut zs: Seq<u64> = Seq::empty();
        proof {
            assert(self.data@ =~= zs + mid);
        }
        if zeros_to_add > 0 {
            let mut out: Vec<u64> = Vec::new();
            let mut k: u64 = 0;
            while k < zeros_to_add
                invariant
                    k <= zeros_to_add,
                    out@.len() == k,
                    limbs_value(out@) == 0,
                decreases zeros_to_add - k,
            {
                proof {
                    lemma_value_push(out@, 0);
                }
                out.push(0);
                k += 1;
            }
            let ghost zeros = out@;
            proof {
                zs = zeros;
            }
            let mut i: usize = 0;
            while i < self.data.len()
                invariant
                    self.data@ == mid,
                    i <= mid.len(),
                    out@ == zeros + mid.take(i as int),
                decreases mid.len() - i,
            {
                proof {
                    assert(zeros + mid.take(i + 1) =~= (zeros + mid.take(i as int)).push(mid[i as int]));
                }
                out.push(self.data[i]);
                i += 1;
            }
            proof {
                assert(mid.take(mid.len() as int) =~= mid);
            }
            self.data = out;
        }
        proof {
            let k = zeros_to_add as nat;
            let s = shift_value as nat;
            assert(zs.len() == k && limbs_value(zs) == 0 && self.data@ == zs + mid);
            lemma_value_concat(zs, mid);
            lemma_weight_pow2(k);
            lemma_pow2_adds(64 * k, s);
            assert(64 * k + s == bits);
            assert(limbs_value(o) * (pow2(64 * k) * pow2(s)) == pow2(64 * k) * (limbs_value(o)
                * pow2(s))) by (nonlinear_arith);
            assert(limbs_value(self.data@) == limbs_value(o) * pow2(bits as nat));
            if self.data@.len() > n + k {
                assert(self.data@.last() == mid.last());
            }
            lemma_fit_of(self.data@, (n + k) as nat);
        }
    }
}

/// A nonzero `u64` is its odd part times two to its count of trailing zeros.
proof fn lemma_odd_part(x: u64)
    requires
        x > 0,
    ensures
        x.trailing_zeros() < 64,
        (x >> (x.trailing_zeros() as u64)) % 2 == 1,
        x == (x >> (x.trailing_zeros() as u64)) * pow2(x.trailing_zeros() as nat),
        (x >> (x.trailing_zeros() as u64)) >> 1u64 == (x >> (x.trailing_zeros() as u64)) / 2,
{
    let t = x.trailing_zeros() as u64;
    axiom_u64_trailing_zeros(x);
    let q = x >> t;
    assert(q % 2 == 1 && q >> 1u64 == q / 2) by (bit_vector)
        requires
            q & 1u64 == 1u64,
    ;
    lemma_u64_shr_is_div(x, t);
    lemma_pow2_pos(t as nat);
    if t == 0 {
        lemma2_to64();
        assert(x == q * 1);
    } else {
        assert(x == q << t) by (bit_vector)
            requires
                0 < t < 64,
                q == x >> t,
                x << ((64 - t) as u64) == 0,
        ;
        assert(q * pow2(t as nat) <= x) by (nonlinear_arith)
            requires
                q == x as int / pow2(t as nat) as int,
                pow2(t as nat) > 0,
        ;
        lemma_u64_shl_is_mul(q, t);
    }
}

proof fn lemma_mul_step(r: int, c: int, p: int, q: int, h: int)
    requires
        q % 2 == 1,
        h == q / 2,
    ensures
        (r + c * p) + (c * p * 2) * h == r + c * (q * p),
{
    assert(q == 2 * h + 1);
    assert((c * p * 2) * h == c * p * (2 * h)) by (nonlinear_arith);
    assert(c * (q * p) == c * p * q) by (nonlinear_arith);
    assert(c * p * (2 * h + 1) == c * p * (2 * h) + c * p) by (nonlinear_arith);
}

/// One for a set carry, zero for a clear one.
pub open spec fn carry_value(carry: bool) -> nat {
    if carry {
        1
    } else {
        0
    }
}

/// Adds two limbs and an incoming carry: the low limb of the sum and
/// whether it overflowed.
pub fn carry_add(a: u64, b: u64, carry: bool) -> (r: (u64, bool))
    ensures
        r.0 + limb_base() * carry_value(r.1) == a + b + carry_value(carry),
{
    let add1 = a.wrapping_add(if carry { 1 } else { 0 });
    let carry1 = add1 < a;
    let add2 = add1.wrapping_add(b);
    let carry2 = add2 < add1;
    (add2, carry1 || carry2)
}

proof fn lemma_carry_step(vl: int, vo: int, vr: int, w: int, carry: int, c: int, sum: int, x: int, y: int)
    requires
        vl + carry * w == vo + vr,
        sum + c * limb_base() == x + y + carry,
    ensures
        (vl + w * sum) + c * (limb_base() * w) == (vo + w * x) + (vr + w * y),
{
    assert(w * (sum + c * limb_base()) == w * (x + y + carry)) by (nonlinear_arith)
        requires
            sum + c * limb_base() == x + y + carry,
    ;
    assert((vl + w * sum) + c * (limb_base() * w) == vl + w * (sum + c * limb_base()))
        by (nonlinear_arith);
    assert(w * (x + y + carry) == w * x + w * y + carry * w) by (nonlinear_arith);
}

proof fn lemma_limb_shift(x: u64, s: u64, c: u64)
    requires
        0 < s < 64,
        c < pow2(s as nat),
    ensures
        ((x << s) | c) + limb_base() * (x >> ((64 - s) as u64)) == x * pow2(s as nat) + c,
        (x >> ((64 - s) as u64)) < pow2(s as nat),
{
    let t: u64 = ((64 - s) as u64);
    lemma_u64_pow2_no_overflow(s as nat);
    lemma_u64_pow2_no_overflow(t as nat);
    lemma_u64_shl_is_mul(1, s);
    lemma_u64_shl_is_mul(1, t);
    let mask: u64 = (pow2(t as nat) - 1) as u64;
    lemma_u64_low_bits_mask_is_mod(x, t as nat);
    let m: u64 = x & mask;
    assert(x << s == (x & mask) << s) by (bit_vector)
        requires
            0 < s < 64,
            t == 64 - s,
            mask + 1 == (1u64 << t),
    ;
    assert(((x << s) | c) == (x << s) + c) by (bit_vector)
        requires
            0 < s < 64,
            c < (1u64 << s),
    ;
    assert((x >> t) < (1u64 << s)) by (bit_vector)
        requires
            0 < s < 64,
            t == 64 - s,
    ;
    lemma_pow2_adds(t as nat, s as nat);
    lemma2_to64();
    assert(m * pow2(s as nat) < pow2(t as nat) * pow2(s as nat)) by (nonlinear_arith)
        requires
            m < pow2(t as nat),
            pow2(s as nat) > 0,
    ;
    lemma_u64_shl_is_mul(m, s);
    lemma_u64_shr_is_div(x, t);
    let ps = pow2(s as nat) as int;
    let pt = pow2(t as nat) as int;
    let hi = (x >> t) as int;
    assert(x == pt * hi + m) by (nonlinear_arith)
        requires
            hi == x as int / pt,
            m == x as int % pt,
            pt > 0,
    ;
    assert(x * ps == (pt * ps) * hi + m * ps) by (nonlinear_arith)
        requires
            x == pt * hi + m,
    ;
}

proof fn lemma_shift_step(vl: int, vo: int, w: int, p: int, cur: int, hi: int, lo: int, x: int)
    requires
        vl + cur * w == vo * p,
        lo + limb_base() * hi == x * p + cur,
    ensures
        (vl + w * lo) + hi * (limb_base() * w) == (vo + w * x) * p,
{
    assert(w * (lo + limb_base() * hi) == w * (x * p + cur)) by (nonlinear_arith)
        requires
            lo + limb_base() * hi == x * p + cur,
    ;
    assert((vl + w * lo) + hi * (limb_base() * w) == vl + w * (lo + limb_base() * hi))
        by (nonlinear_arith);
    assert(w * (x * p + cur) == w * (x * p) + cur * w) by (nonlinear_arith);
    assert((vo + w * x) * p == vo * p + w * (x * p)) by (nonlinear_arith);
}

/// Adds `right` into `left`, limb by limb with carry; a carry out of the
/// top limb becomes one new limb.
pub fn internal_add(left: &mut Vec<u64>, right: &[u64])
    ensures
        final(left)@ == sum_limbs(old(left)@, right@),
{
    let ghost o = left@;
    let ghost r = right@;
    let left_len = left.len();
    let right_len = right.len();
    let common = if left_len < right_len {
        left_len
    } else {
        right_len
    };
    let mut carry = false;
    let mut i: usize = 0;
    while i < common
        invariant
            common <= left_len,
            common <= right_len,
            left_len == o.len(),
            right_len == r.len(),
            r == right@,
            i <= common,
            left@.len() == left_len,
            forall|k: int| i <= k < left_len ==> left@[k] == o[k],
            limbs_value(left@.take(i as int)) + carry_value(carry) * limb_weight(i as nat)
                == limbs_value(o.take(i as int)) + limbs_value(r.take(i as int)),
        decreases common - i,
    {
        let (sum, c) = carry_add(left[i], right[i], carry);
        let ghost before = left@;
        left[i] = sum;
        proof {
            let ii = i as int;
            assert(left@.take(ii + 1) =~= before.take(ii).push(sum));
            assert(o.take(ii + 1) =~= o.take(ii).push(o[ii]));
            assert(r.take(ii + 1) =~= r.take(ii).push(r[ii]));
            lemma_value_push(before.take(ii), sum);
            lemma_value_push(o.take(ii), o[ii]);
            lemma_value_push(r.take(ii), r[ii]);
            lemma_carry_step(
                limbs_value(before.take(ii)) as int,
                limbs_value(o.take(ii)) as int,
                limbs_value(r.take(ii)) as int,
                limb_weight(i as nat) as int,
                carry_value(carry) as int,
                carry_value(c) as int,
                sum as int,
                o[ii] as int,
                r[ii] as int,
            );
            assert(limb_weight((i + 1) as nat) == limb_base() * limb_weight(i as nat));
        }
        carry = c;
        i += 1;
    }
    let ghost n: nat = if left_len >= right_len {
        left_len as nat
    } else {
        right_len as nat
    };
    if left_len > right_len {
        proof {
            assert(r.take(right_len as int) =~= r);
        }
        let mut j: usize = right_len;
        while carry && j < left_len
            invariant
                right_len <= j <= left_len,
                left_len == o.len(),
                right_len == r.len(),
                left@.len() == left_len,
                forall|k: int| j <= k < left_len ==> left@[k] == o[k],
                limbs_value(left@.take(j as int)) + carry_value(carry) * limb_weight(j as nat)
                    == limbs_value(o.take(j as int)) + limbs_value(r),
            decreases left_len - j,
        {
            let (sum, c) = carry_add(left[j], 0, carry);
            let ghost before = left@;
            left[j] = sum;
            proof {
                let jj = j as int;
                assert(left@.take(jj + 1) =~= before.take(jj).push(sum));
                assert(o.take(jj + 1) =~= o.take(jj).push(o[jj]));
                lemma_value_push(before.take(jj), sum);
                lemma_value_push(o.take(jj), o[jj]);
                lemma_carry_step(
                    limbs_value(before.take(jj)) as int,
                    limbs_value(o.take(jj)) as int,
                    limbs_value(r) as int,
                    limb_weight(j as nat) as int,
                    carry_value(carry) as int,
                    carry_value(c) as int,
                    sum as int,
                    o[jj] as int,
                    0,
                );
                assert(limb_weight((j + 1) as nat) == limb_base() * limb_weight(j as nat));
            }
            carry = c;
            j += 1;
        }
        if carry {
            proof {
                assert(left@.take(j as int) =~= left@);
                assert(o.take(j as int) =~= o);
                lemma_value_push(left@, 1);
            }
            left.push(1);
        } else {
            proof {
                let jj = j as int;
                assert(left@ =~= left@.take(jj) + o.skip(jj));
                assert(o =~= o.take(jj) + o.skip(jj));
                lemma_value_concat(left@.take(jj), o.skip(jj));
                lemma_value_concat(o.take(jj), o.skip(jj));
            }
        }
    } else {
        proof {
            assert(left@.take(left_len as int) =~= left@);
            assert(o.take(left_len as int) =~= o);
        }
        let mut j: usize = left_len;
        while carry && j < right_len
            invariant
                left_len <= j <= right_len,
                right_len == r.len(),
                r == right@,
                left@.len() == j,
                limbs_value(left@) + carry_value(carry) * limb_weight(j as nat) == limbs_value(o)
                    + limbs_value(r.take(j as int)),
            decreases right_len - j,
        {
            let (sum, c) = carry_add(0, right[j], carry);
            proof {
                let jj = j as int;
                assert(r.take(jj + 1) =~= r.take(jj).push(r[jj]));
                lemma_value_push(left@, sum);
                lemma_value_push(r.take(jj), r[jj]);
                lemma_carry_step(
                    limbs_value(left@) as int,
                    limbs_value(o) as int,
                    limbs_value(r.take(jj)) as int,
                    limb_weight(j as nat) as int,
                    carry_value(carry) as int,
                    carry_value(c) as int,
                    sum as int,
                    0,
                    r[jj] as int,
                );
                assert(limb_weight((j + 1) as nat) == limb_base() * limb_weight(j as nat));
            }
            left.push(sum);
            carry = c;
            j += 1;
        }
        if carry {
            proof {
                assert(r.take(j as int) =~= r);
                lemma_value_push(left@, 1);
            }
            left.push(1);
        } else {
            while j < right_len
                invariant
                    left_len <= j <= right_len,
                    right_len == r.len(),
                    r == right@,
                    left@.len() == j,
                    limbs_value(left@) == limbs_value(o) + limbs_value(r.take(j as int)),
                decreases right_len - j,
            {
                proof {
                    let jj = j as int;
                    assert(r.take(jj + 1) =~= r.take(jj).push(r[jj]));
                    lemma_value_push(left@, r[jj]);
                    lemma_value_push(r.take(jj), r[jj]);
                }
                left.push(right[j]);
                j += 1;
            }
            proof {
                assert(r.take(j as int) =~= r);
            }
        }
    }
    proof {
        lemma_fit_of(left@, n);
    }
}

} // verus!
