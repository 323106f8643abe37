use bignum::{carry_add, internal_add, BigInt};

fn big(limbs: &[u64]) -> BigInt {
    BigInt { data: limbs.to_vec() }
}

/// The limbs without zero limbs on top, so that values compare.
fn trimmed(limbs: &[u64]) -> Vec<u64> {
    let mut v = limbs.to_vec();
    while v.len() > 1 && *v.last().unwrap() == 0 {
        v.pop();
    }
    if v.is_empty() {
        v.push(0);
    }
    v
}

fn same_value(a: &BigInt, b: &BigInt) -> bool {
    trimmed(&a.data) == trimmed(&b.data)
}

fn to_u128(a: &BigInt) -> u128 {
    let t = trimmed(&a.data);
    assert!(t.len() <= 2);
    let hi = if t.len() == 2 { t[1] } else { 0 };
    ((hi as u128) << 64) | t[0] as u128
}

fn hex(a: &BigInt) -> String {
    let mut s = String::new();
    for limb in a.data.iter().rev() {
        s.push_str(&format!("{:016x}", limb));
    }
    s
}

fn factorial(n: u64) -> BigInt {
    let mut acc = BigInt::from(1);
    for i in 2..n + 1 {
        acc = acc.mul(i);
    }
    acc
}

fn samples() -> Vec<BigInt> {
    vec![
        big(&[0]),
        big(&[1]),
        big(&[u64::MAX]),
        big(&[u64::MAX, u64::MAX]),
        big(&[0x1234_5678_9abc_def0, 0xfedc_ba98_7654_3210, 7]),
        big(&[5, 0, 0]),
        big(&[u64::MAX, 0, u64::MAX, 1]),
    ]
}

#[test]
fn from_native_has_one_limb() {
    for x in [0u64, 1, 42, u64::MAX] {
        assert_eq!(BigInt::from(x).data, vec![x]);
    }
}

#[test]
fn carry_add_cases() {
    assert_eq!(carry_add(1, 2, false), (3, false));
    assert_eq!(carry_add(1, 2, true), (4, false));
    assert_eq!(carry_add(u64::MAX, 1, false), (0, true));
    assert_eq!(carry_add(u64::MAX, 0, true), (0, true));
    assert_eq!(carry_add(u64::MAX, u64::MAX, true), (u64::MAX, true));
    assert_eq!(carry_add(0, u64::MAX, true), (0, true));
}

#[test]
fn internal_add_lengths() {
    let mut left = vec![u64::MAX, u64::MAX];
    internal_add(&mut left, &[1]);
    assert_eq!(left, vec![0, 0, 1]);

    let mut left = vec![1];
    internal_add(&mut left, &[u64::MAX, u64::MAX, 3]);
    assert_eq!(left, vec![0, 0, 4]);

    let mut left = vec![2];
    internal_add(&mut left, &[1, 2, 3]);
    assert_eq!(left, vec![3, 2, 3]);

    let mut left = vec![u64::MAX];
    internal_add(&mut left, &[u64::MAX]);
    assert_eq!(left, vec![u64::MAX - 1, 1]);

    let mut left = vec![7, 8, 9];
    internal_add(&mut left, &[]);
    assert_eq!(left, vec![7, 8, 9]);
}

#[test]
fn add_small_values() {
    let a = BigInt::from(40);
    let b = BigInt::from(2);
    assert_eq!(a.add(&b).data, vec![42]);
    let c = BigInt::from(u64::MAX).add(&BigInt::from(u64::MAX));
    assert_eq!(c.data, vec![u64::MAX - 1, 1]);
}

#[test]
fn add_is_commutative() {
    for a in samples() {
        for b in samples() {
            let ab = a.add(&b);
            let ba = b.add(&a);
            assert!(same_value(&ab, &ba));
            assert_eq!(ab.data, ba.data);
        }
    }
}

#[test]
fn add_is_associative() {
    for a in samples() {
        for b in samples() {
            for c in samples() {
                let left = a.add(&b).add(&c);
                let right = a.add(&b.add(&c));
                assert!(same_value(&left, &right));
                assert_eq!(left.data, right.data);
            }
        }
    }
}

#[test]
fn add_zero_is_identity() {
    for a in samples() {
        let r = a.add(&BigInt::from(0));
        assert!(same_value(&r, &a));
        assert_eq!(r.data, a.data);
    }
}

#[test]
fn add_assign_matches_add() {
    // shorter + shorter, shorter + longer, longer + shorter, equal lengths
    let pairs = vec![
        (big(&[3]), big(&[4])),
        (big(&[u64::MAX]), big(&[1, 2, 3])),
        (big(&[1, 2, 3]), big(&[u64::MAX])),
        (big(&[u64::MAX, 5]), big(&[1, u64::MAX])),
    ];
    for (a, b) in pairs {
        let sum = a.add(&b);
        let mut acc = a.clone();
        acc.add_assign(&b);
        assert_eq!(acc.data, sum.data);
    }
}

#[test]
fn add_assign_carry_off_the_end() {
    let mut a = big(&[u64::MAX, u64::MAX, u64::MAX]);
    a.add_assign(&BigInt::from(1));
    assert_eq!(a.data, vec![0, 0, 0, 1]);
    let mut b = BigInt::from(1);
    b.add_assign(&big(&[u64::MAX, u64::MAX]));
    assert_eq!(b.data, vec![0, 0, 1]);
}

#[test]
fn shl_zero_changes_nothing() {
    for a in samples() {
        let mut b = a.clone();
        b.shl_assign(0);
        assert_eq!(b.data, a.data);
    }
}

#[test]
fn shl_multiplies_by_power_of_two() {
    for a in samples() {
        for bits in [0u64, 1, 63, 64, 65, 128, 191] {
            let mut shifted = a.clone();
            shifted.shl_assign(bits);
            let mut doubled = a.clone();
            for _ in 0..bits {
                doubled = doubled.add(&doubled);
            }
            assert!(same_value(&shifted, &doubled), "bits {}", bits);
        }
    }
}

#[test]
fn shl_exact_limbs() {
    let mut a = BigInt::from(1);
    a.shl_assign(65);
    assert_eq!(a.data, vec![0, 2]);
    let mut b = BigInt::from(0x8000_0000_0000_0001);
    b.shl_assign(1);
    assert_eq!(b.data, vec![2, 1]);
    let mut c = big(&[u64::MAX, 0]);
    c.shl_assign(4);
    assert_eq!(c.data, vec![0xffff_ffff_ffff_fff0, 0xf]);
    let mut d = BigInt::from(3);
    d.shl_assign(128);
    assert_eq!(d.data, vec![0, 0, 3]);
    let mut e = BigInt::from(u64::MAX);
    e.shl_assign(191);
    assert_eq!(e.data, vec![0, 0, 0x8000_0000_0000_0000, 0x7fff_ffff_ffff_ffff]);
}

#[test]
fn mul_matches_repeated_add() {
    for a in samples() {
        for scalar in [0u64, 1, 2, 3, 255] {
            let product = a.mul(scalar);
            let mut sum = BigInt::from(0);
            for _ in 0..scalar {
                sum.add_assign(&a);
            }
            assert!(same_value(&product, &sum), "scalar {}", scalar);
        }
    }
}

#[test]
fn mul_by_max_scalar() {
    for a in samples() {
        // a * (2^64 - 1) + a == a * 2^64
        let mut shifted = a.clone();
        shifted.shl_assign(64);
        let back = a.mul(u64::MAX).add(&a);
        assert!(same_value(&back, &shifted));
    }
    let x = BigInt::from(0xdead_beef);
    assert_eq!(to_u128(&x.mul(u64::MAX)), 0xdead_beef_u128 * u64::MAX as u128);
}

#[test]
fn mul_by_top_bit() {
    let a = BigInt::from(3);
    let r = a.mul(1 << 63);
    assert_eq!(r.data, vec![0x8000_0000_0000_0000, 1]);
}

#[test]
fn mul_exact_limbs() {
    assert_eq!(BigInt::from(6).mul(7).data, vec![42]);
    assert_eq!(big(&[5, 0, 0]).mul(3).data, vec![15, 0, 0]);
    assert_eq!(BigInt::from(u64::MAX).mul(u64::MAX).data, vec![1, u64::MAX - 1]);
}

#[test]
fn mul_by_zero_is_one_zero_limb() {
    for a in samples() {
        assert_eq!(a.mul(0).data, vec![0]);
    }
}

#[test]
fn factorial_of_100_in_hex() {
    let f = factorial(100);
    assert_eq!(f.data.len(), 9);
    assert_eq!(
        hex(&f),
        "0000000000001b30964ec395dc24069528d54bbda40d16e966ef9a70eb21b5b2943a321cdf10391745570cca9420c6ecb3b72ed2ee8b02ea2735c61a000000000000000000000000"
    );
}

#[test]
fn factorial_limb_counts_grow() {
    let mut acc = BigInt::from(1);
    let mut last = 1;
    for i in 2..1001u64 {
        acc = acc.mul(i);
        assert!(acc.data.len() >= last);
        last = acc.data.len();
    }
    assert_eq!(acc.data.len(), 134);
    assert_eq!(factorial(1000).data, acc.data);
}
