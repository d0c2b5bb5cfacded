use pbc_algebra::{
    lagrange, polynomial, xor, AlgebraError, Element, ElementPP, Group, Integer, Pairing,
    ELEMENT_BYTES,
};
use std::collections::HashSet;

/// A prime of about 2^40.
const BIG_PRIME: u64 = 1_000_000_000_039;

fn ctx(order: u64) -> Pairing {
    Pairing::new(order).unwrap()
}

fn zr(p: &Pairing, v: i64) -> Element {
    let mut e = Element::new(Group::Zr, p);
    e.set_si(v);
    e
}

fn in_group(p: &Pairing, g: Group, v: u64) -> Element {
    let mut e = Element::new(g, p);
    e.as_mut_ptr().value = v;
    e
}

fn value(e: &Element) -> u64 {
    e.as_ptr().value
}

fn set_of(items: &[i64]) -> HashSet<i64> {
    items.iter().cloned().collect()
}

#[test]
fn pairing_rejects_bad_orders() {
    assert_eq!(Pairing::new(0).unwrap_err(), AlgebraError::InvalidParameters);
    assert_eq!(Pairing::new(1).unwrap_err(), AlgebraError::InvalidParameters);
    assert_eq!(Pairing::new(pbc_algebra::ORDER_MAX + 1).unwrap_err(), AlgebraError::InvalidParameters);
    assert_eq!(Pairing::new(6).unwrap_err(), AlgebraError::InvalidParameters);
    assert_eq!(Pairing::new(1_000_000_007 * 3).unwrap_err(), AlgebraError::InvalidParameters);
    assert_eq!(Pairing::new(2).unwrap().order(), 2);
    assert_eq!(Pairing::new(2_147_483_647).unwrap().order(), 2_147_483_647);
    assert_eq!(Pairing::new(101).unwrap().order(), 101);
    assert_eq!(Pairing::new(101).unwrap().as_ptr().order, 101);
}

#[test]
fn new_element_is_zero_in_its_group() {
    let p = ctx(101);
    for g in [Group::Zr, Group::G1, Group::G2, Group::GT] {
        let e = Element::new(g, &p);
        assert_eq!(e.group, g);
        assert_eq!(value(&e), 0);
        assert_eq!(e.as_ptr().order, 101);
    }
}

#[test]
fn init_changes_group_and_resets() {
    let p = ctx(101);
    let mut e = zr(&p, 9);
    e.init_g1(&p);
    assert_eq!((e.group, value(&e)), (Group::G1, 0));
    e.as_mut_ptr().value = 7;
    e.init_g2(&p);
    assert_eq!((e.group, value(&e)), (Group::G2, 0));
    e.init_gt(&p);
    assert_eq!((e.group, value(&e)), (Group::GT, 0));
    e.init_zr(&p);
    assert_eq!((e.group, value(&e)), (Group::Zr, 0));
}

#[test]
fn g1_bytes_round_trip() {
    let p = ctx(BIG_PRIME);
    for v in [0u64, 1, 2, 255, 256, 0x01_0203_0405, BIG_PRIME - 1] {
        let e = in_group(&p, Group::G1, v);
        let bytes = e.to_bytes();
        assert_eq!(bytes.len(), ELEMENT_BYTES);
        let back = Element::from_bytes(&p, bytes).unwrap();
        assert_eq!(back.group, Group::G1);
        assert_eq!(back.cmp(&e), 0);
    }
}

#[test]
fn to_bytes_is_big_endian() {
    let p = ctx(BIG_PRIME);
    let e = in_group(&p, Group::G1, 0x01_0203_0405);
    assert_eq!(e.to_bytes(), vec![0, 0, 0, 1, 2, 3, 4, 5]);
}

#[test]
fn from_bytes_rejects_bad_input() {
    let p = ctx(101);
    assert_eq!(Element::from_bytes(&p, vec![0; 7]).unwrap_err(), AlgebraError::DeserializationError);
    assert_eq!(Element::from_bytes(&p, vec![0; 9]).unwrap_err(), AlgebraError::DeserializationError);
    assert_eq!(
        Element::from_bytes(&p, vec![0, 0, 0, 0, 0, 0, 0, 101]).unwrap_err(),
        AlgebraError::DeserializationError
    );
    let e = Element::from_bytes(&p, vec![0, 0, 0, 0, 0, 0, 0, 100]).unwrap();
    assert_eq!(value(&e), 100);
}

#[test]
fn zr_identities() {
    let p = ctx(101);
    for (a, b, c) in [(3i64, 50, 99), (100, 100, 100), (0, 1, 2), (57, 44, 13)] {
        let mut left = zr(&p, a);
        left.add(&zr(&p, b)).unwrap();
        left.add(&zr(&p, c)).unwrap();
        let mut bc = zr(&p, b);
        bc.add(&zr(&p, c)).unwrap();
        let mut right = zr(&p, a);
        right.add(&bc).unwrap();
        assert_eq!(left.cmp(&right), 0);

        let mut one = Element::new(Group::Zr, &p);
        one.set1();
        let mut m = zr(&p, a);
        m.mul(&one).unwrap();
        assert_eq!(value(&m), a as u64);

        let mut s = zr(&p, a);
        s.add(&Element::new(Group::Zr, &p)).unwrap();
        assert_eq!(value(&s), a as u64);

        let mut d = zr(&p, a);
        d.sub(&zr(&p, a)).unwrap();
        assert_eq!(value(&d), 0);
    }
}

#[test]
fn zr_arithmetic_values() {
    let p = ctx(101);
    let mut e = zr(&p, 60);
    e.add(&zr(&p, 50)).unwrap();
    assert_eq!(value(&e), 9);
    e.sub(&zr(&p, 10)).unwrap();
    assert_eq!(value(&e), 100);
    e.mul(&zr(&p, 3)).unwrap();
    assert_eq!(value(&e), 98);
    e.mul_si(-2);
    assert_eq!(value(&e), 6);
    e.mul_zn(&zr(&p, 20)).unwrap();
    assert_eq!(value(&e), 19);
    e.div(&zr(&p, 19)).unwrap();
    assert_eq!(value(&e), 1);
    let mut q = zr(&p, 1);
    q.div(&zr(&p, 2)).unwrap();
    assert_eq!(value(&q), 51);
}

#[test]
fn set_si_reduces_negative_values() {
    let p = ctx(101);
    assert_eq!(value(&zr(&p, -1)), 100);
    assert_eq!(value(&zr(&p, -202)), 0);
    assert_eq!(value(&zr(&p, 205)), 3);
    assert_eq!(value(&zr(&p, i64::MIN)), ((i64::MIN as i128).rem_euclid(101)) as u64);
}

#[test]
fn unary_operations() {
    let p = ctx(101);
    let src = zr(&p, 10);
    let mut e = Element::new(Group::Zr, &p);
    e.double(&src).unwrap();
    assert_eq!(value(&e), 20);
    e.halve(&src).unwrap();
    assert_eq!(value(&e), 5);
    e.square(&src).unwrap();
    assert_eq!(value(&e), 100 % 101);
    e.neg(&src).unwrap();
    assert_eq!(value(&e), 91);
    e.invert(&src).unwrap();
    assert_eq!((value(&e) * 10) % 101, 1);
    assert_eq!(value(&e), 91);
}

#[test]
fn group_law_outside_zr() {
    let p = ctx(101);
    let mut g = in_group(&p, Group::G1, 40);
    g.mul(&in_group(&p, Group::G1, 70)).unwrap();
    assert_eq!(value(&g), 9);
    g.set1();
    assert_eq!(value(&g), 0);
    let mut sq = Element::new(Group::G1, &p);
    sq.square(&in_group(&p, Group::G1, 60)).unwrap();
    assert_eq!(value(&sq), 19);
    let mut inv = Element::new(Group::G2, &p);
    inv.invert(&in_group(&p, Group::G2, 1)).unwrap();
    assert_eq!(value(&inv), 100);
    let mut d = in_group(&p, Group::GT, 5);
    d.div(&in_group(&p, Group::GT, 7)).unwrap();
    assert_eq!(value(&d), 99);
}

#[test]
fn mismatched_groups_are_refused() {
    let p = ctx(101);
    let q = ctx(103);
    let mut a = zr(&p, 5);
    assert_eq!(a.add(&in_group(&p, Group::G1, 1)), Err(AlgebraError::GroupMismatch));
    assert_eq!(a.mul(&zr(&q, 1)), Err(AlgebraError::GroupMismatch));
    assert_eq!(a.set(&in_group(&p, Group::G2, 1)), Err(AlgebraError::GroupMismatch));
    assert_eq!(value(&a), 5);
    let mut g = in_group(&p, Group::G1, 3);
    assert_eq!(g.mul_zn(&in_group(&p, Group::G1, 3)), Err(AlgebraError::GroupMismatch));
    assert_eq!(value(&g), 3);
}

#[test]
fn division_errors() {
    let p = ctx(101);
    let mut a = zr(&p, 5);
    assert_eq!(a.div(&zr(&p, 0)), Err(AlgebraError::DivisionByZero));
    assert_eq!(a.invert(&zr(&p, 0)), Err(AlgebraError::DivisionByZero));
    assert_eq!(value(&a), 5);
    // Modulo 2, 2 is 0 and has no inverse: halving is refused.
    let two = ctx(2);
    let mut b = zr(&two, 1);
    assert_eq!(b.halve(&zr(&two, 1)), Err(AlgebraError::NotInvertible));
    assert_eq!(b.div(&zr(&two, 2)), Err(AlgebraError::DivisionByZero));
    assert_eq!(value(&b), 1);
    b.div(&zr(&two, 1)).unwrap();
    assert_eq!(value(&b), 1);
}

#[test]
fn pairing_is_bilinear() {
    let p = ctx(BIG_PRIME);
    let g1 = in_group(&p, Group::G1, 123_456_789);
    let g2 = in_group(&p, Group::G2, 987_654_321);
    for (a, b) in [(2i64, 3i64), (17, 5), (1_000_003, 999_999_937)] {
        let mut g1a = in_group(&p, Group::G1, 0);
        g1a.set(&g1).unwrap();
        g1a.mul_zn(&zr(&p, a)).unwrap();
        let mut g2b = in_group(&p, Group::G2, 0);
        g2b.set(&g2).unwrap();
        g2b.mul_zn(&zr(&p, b)).unwrap();
        let left = g1a.pair(&p, &g2b).unwrap();

        let mut right = g1.pair(&p, &g2).unwrap();
        let mut ab = zr(&p, a);
        ab.mul(&zr(&p, b)).unwrap();
        right.mul_zn(&ab).unwrap();
        assert_eq!(left.group, Group::GT);
        assert_eq!(left.cmp(&right), 0);
    }
}

#[test]
fn pairing_by_repeated_multiplication() {
    let p = ctx(101);
    let g1 = in_group(&p, Group::G1, 7);
    let g2 = in_group(&p, Group::G2, 11);
    // g1^2 and g2^3 by the group law.
    let mut g1a = Element::new(Group::G1, &p);
    g1a.set1();
    for _ in 0..2 {
        g1a.mul(&g1).unwrap();
    }
    let mut g2b = Element::new(Group::G2, &p);
    g2b.set1();
    for _ in 0..3 {
        g2b.mul(&g2).unwrap();
    }
    let left = g1a.pair(&p, &g2b).unwrap();
    let base = g1.pair(&p, &g2).unwrap();
    let mut right = Element::new(Group::GT, &p);
    right.set1();
    for _ in 0..6 {
        right.mul(&base).unwrap();
    }
    assert_eq!(left.cmp(&right), 0);
    assert_eq!(value(&left), (7 * 2 * 11 * 3) % 101);
}

#[test]
fn pairing_refuses_wrong_groups() {
    let p = ctx(101);
    let g1 = in_group(&p, Group::G1, 7);
    let g2 = in_group(&p, Group::G2, 11);
    assert_eq!(g2.pair(&p, &g1).unwrap_err(), AlgebraError::GroupMismatch);
    assert_eq!(g1.pair(&p, &g1).unwrap_err(), AlgebraError::GroupMismatch);
    assert_eq!(g1.pair(&ctx(103), &g2).unwrap_err(), AlgebraError::GroupMismatch);
}

fn repeated_mul(base: &Element, p: &Pairing, n: u32) -> Element {
    let mut acc = Element::new(base.group, p);
    acc.set1();
    for _ in 0..n {
        acc.mul(base).unwrap();
    }
    acc
}

#[test]
fn precomputed_power_matches_repeated_mul() {
    let p = ctx(BIG_PRIME);
    for base in [zr(&p, 3), zr(&p, 123_456_789_012), in_group(&p, Group::G1, 99_999), in_group(&p, Group::GT, 5)] {
        let mut pp = ElementPP::new();
        pp.init(&base);
        for n in [0u32, 1, 2, 5, 17] {
            let mut exp = Integer::new();
            exp.set_si(n as i64);
            let mut dst = Element::new(Group::Zr, &p);
            pp.pow(&mut dst, &exp).unwrap();
            let expected = repeated_mul(&base, &p, n);
            assert_eq!(dst.group, base.group);
            assert_eq!(dst.cmp(&expected), 0, "n = {}", n);

            let mut dst2 = Element::new(Group::Zr, &p);
            pp.pow_zn(&mut dst2, &zr(&p, n as i64)).unwrap();
            assert_eq!(dst2.cmp(&expected), 0);
        }
    }
}

#[test]
fn precomputed_power_values() {
    let p = ctx(101);
    let mut pp = ElementPP::new();
    pp.init(&zr(&p, 2));
    let mut dst = Element::new(Group::Zr, &p);
    let mut exp = Integer::new();
    exp.set_si(10);
    pp.pow(&mut dst, &exp).unwrap();
    assert_eq!(value(&dst), 1024 % 101);
    exp.set_si(-1);
    pp.pow(&mut dst, &exp).unwrap();
    assert_eq!(value(&dst), 51);
    // A large exponent: 2^100 mod 101 is 1 by Fermat.
    pp.pow_zn(&mut dst, &zr(&p, 100)).unwrap();
    assert_eq!(value(&dst), 1);

    let mut gp = ElementPP::new();
    gp.init(&in_group(&p, Group::G1, 7));
    exp.set_si(-3);
    gp.pow(&mut dst, &exp).unwrap();
    assert_eq!((dst.group, value(&dst)), (Group::G1, 101 - 21));
    assert_eq!(gp.pow_zn(&mut dst, &in_group(&p, Group::G1, 1)), Err(AlgebraError::GroupMismatch));
}

#[test]
fn precomputed_power_snapshots_base() {
    let p = ctx(101);
    let mut base = zr(&p, 3);
    let mut pp = ElementPP::new();
    pp.init(&base);
    base.set_si(5);
    let mut exp = Integer::new();
    exp.set_si(2);
    let mut dst = Element::new(Group::Zr, &p);
    pp.pow(&mut dst, &exp).unwrap();
    assert_eq!(value(&dst), 9);
    pp.clear();
    pp.init(&base);
    pp.pow(&mut dst, &exp).unwrap();
    assert_eq!(value(&dst), 25);
}

#[test]
fn precomputed_power_of_zero_negative() {
    let p = ctx(101);
    let mut pp = ElementPP::new();
    pp.init(&zr(&p, 0));
    let mut exp = Integer::new();
    exp.set_si(-2);
    let mut dst = zr(&p, 42);
    assert_eq!(pp.pow(&mut dst, &exp), Err(AlgebraError::NotInvertible));
    assert_eq!(value(&dst), 42);
}

#[test]
fn polynomial_at_zero_is_constant_term() {
    let p = ctx(BIG_PRIME);
    let x = Element::new(Group::Zr, &p);
    for (c0, c1, c2) in [(0i64, 0, 0), (5, 6, 7), (123_456, 999, -1)] {
        let cs = vec![zr(&p, c0), zr(&p, c1), zr(&p, c2)];
        let y = polynomial(&x, &p, &cs);
        assert_eq!(y.cmp(&cs[0]), 0);
    }
}

#[test]
fn polynomial_values() {
    let p = ctx(101);
    let cs = vec![zr(&p, 1), zr(&p, 2), zr(&p, 3)];
    assert_eq!(value(&polynomial(&zr(&p, 2), &p, &cs)), 17);
    assert_eq!(value(&polynomial(&zr(&p, 10), &p, &cs)), (1 + 20 + 300) % 101);
    assert_eq!(value(&polynomial(&zr(&p, 10), &p, &vec![])), 0);
}

#[test]
fn lagrange_coefficient_value() {
    let p = ctx(101);
    // S = {0, 1, 2}, j = 0: (-2)(-3) / ((0-1)(0-2)) = 6 / 2 = 3.
    let l0 = lagrange(&p, 3, 5, &set_of(&[0, 1, 2]), 0).unwrap();
    assert_eq!(value(&l0), 3);
    // j = 1: (-1)(-3) / ((1-0)(1-2)) = 3 / -1 = -3.
    let l1 = lagrange(&p, 3, 5, &set_of(&[0, 1, 2]), 1).unwrap();
    assert_eq!(value(&l1), 98);
}

#[test]
fn lagrange_reconstructs_secret() {
    let p = ctx(BIG_PRIME);
    let secret = 31_337i64;
    let coefficients = vec![zr(&p, secret), zr(&p, 4_242), zr(&p, 987_654_321)];
    let shares: Vec<Element> =
        (0..5).map(|j| polynomial(&zr(&p, j + 1), &p, &coefficients)).collect();
    let mut subsets = 0;
    for a in 0..5i64 {
        for b in (a + 1)..5 {
            for c in (b + 1)..5 {
                let s = set_of(&[a, b, c]);
                let mut sum = Element::new(Group::Zr, &p);
                for &j in &[a, b, c] {
                    let mut term = Element::new(Group::Zr, &p);
                    term.set(&shares[j as usize]).unwrap();
                    term.mul(&lagrange(&p, 3, 5, &s, j).unwrap()).unwrap();
                    sum.add(&term).unwrap();
                }
                assert_eq!(sum.cmp(&zr(&p, secret)), 0);
                subsets += 1;
            }
        }
    }
    assert_eq!(subsets, 10);
}

#[test]
fn lagrange_rejects_bad_sets() {
    let p = ctx(101);
    let bad = AlgebraError::InvalidReconstructionSet;
    assert_eq!(lagrange(&p, 3, 5, &set_of(&[0, 1]), 0).unwrap_err(), bad);
    assert_eq!(lagrange(&p, 3, 5, &set_of(&[0, 1, 2, 3]), 0).unwrap_err(), bad);
    assert_eq!(lagrange(&p, 3, 5, &set_of(&[0, 1, 5]), 0).unwrap_err(), bad);
    assert_eq!(lagrange(&p, 3, 5, &set_of(&[-1, 1, 2]), 1).unwrap_err(), bad);
    assert_eq!(lagrange(&p, 0, 5, &set_of(&[]), 0).map(|e| value(&e)), Ok(1));
}

#[test]
fn lagrange_denominator_without_inverse() {
    // Modulo 2, indices 0 and 2 give the denominator -2, which is 0.
    let q = ctx(2);
    assert_eq!(
        lagrange(&q, 2, 3, &set_of(&[0, 2]), 0).unwrap_err(),
        AlgebraError::DivisionByZero
    );
}

#[test]
fn hash_h_is_deterministic_and_sensitive() {
    let p = ctx(BIG_PRIME);
    let tag: Vec<u8> = (0u8..32).collect();
    let e = in_group(&p, Group::G1, 5);
    let h1 = e.hash_h(&p, tag.clone()).unwrap();
    let h2 = in_group(&p, Group::G1, 5).hash_h(&p, tag.clone()).unwrap();
    assert_eq!(h1.group, Group::G2);
    assert_eq!(h1.cmp(&h2), 0);
    assert_eq!(value(&h1), 114_853_279_955);

    let mut other_tag = tag.clone();
    other_tag[31] ^= 1;
    let h3 = e.hash_h(&p, other_tag).unwrap();
    assert_ne!(h1.cmp(&h3), 0);
    let h4 = in_group(&p, Group::G1, 6).hash_h(&p, tag).unwrap();
    assert_ne!(h1.cmp(&h4), 0);
}

#[test]
fn hash_h_rejects_bad_tag_length() {
    let p = ctx(101);
    let e = in_group(&p, Group::G1, 5);
    assert_eq!(e.hash_h(&p, vec![0; 31]).unwrap_err(), AlgebraError::InvalidLength);
    assert_eq!(e.hash_h(&p, vec![0; 33]).unwrap_err(), AlgebraError::InvalidLength);
    assert_eq!(e.hash_h(&p, vec![]).unwrap_err(), AlgebraError::InvalidLength);
}

#[test]
fn hash_g_is_sha256_of_encoding() {
    let p = ctx(101);
    let e = Element::new(Group::G1, &p);
    let digest = e.hash_g();
    let expected: Vec<u8> = (0..32)
        .map(|i| u8::from_str_radix(&"af5570f5a1810b7af78caf4bc70a660f0df51e42baf91d4de5b2328de0e83dfc"[2 * i..2 * i + 2], 16).unwrap())
        .collect();
    assert_eq!(digest, expected);
}

#[test]
fn set_from_hash_values() {
    let p = ctx(BIG_PRIME);
    let mut e = Element::new(Group::G1, &p);
    e.set_from_hash(b"abc".to_vec());
    assert_eq!(value(&e), 499_729_676_028);
    let q = ctx(101);
    let mut f = Element::new(Group::G2, &q);
    f.set_from_hash(b"abc".to_vec());
    assert_eq!(value(&f), 22);
    let mut g = Element::new(Group::G2, &q);
    g.set_from_digest(&vec![0, 0, 0, 0, 0, 0, 1, 0, 0xff]);
    assert_eq!(value(&g), 256 % 101);
}

#[test]
fn compare_orders_by_value() {
    let p = ctx(101);
    assert!(zr(&p, 3).cmp(&zr(&p, 4)) < 0);
    assert!(zr(&p, 4).cmp(&zr(&p, 3)) > 0);
    assert_eq!(zr(&p, 4).cmp(&zr(&p, 105)), 0);
}

#[test]
fn random_reduces_entropy() {
    let p = ctx(101);
    let mut e = Element::new(Group::G1, &p);
    e.random(1_000);
    assert_eq!(value(&e), 1_000 % 101);
    e.random(u64::MAX);
    assert_eq!(value(&e), u64::MAX % 101);
}

#[test]
fn integer_conversions() {
    let p = ctx(BIG_PRIME);
    let i = zr(&p, -1).to_integer();
    assert_eq!(i.get_si(), (BIG_PRIME - 1) as i64);
    let mut n = Integer::new();
    assert_eq!(n.get_si(), 0);
    n.set_si(-42);
    assert_eq!(n.get_si(), -42);
    assert_eq!(n.get_ui(), 42);
    n.set_si(i64::MIN);
    assert_eq!(n.get_ui(), 1u64 << 63);
    n.as_mut_ptr().value = 8;
    assert_eq!(n.as_ptr().value, 8);
    n.init();
    assert_eq!(n.get_si(), 0);
}

#[test]
fn xor_bytes() {
    assert_eq!(xor(vec![0x0f, 0xff, 0x00], vec![0xf0, 0x0f, 0x00]), vec![0xff, 0xf0, 0x00]);
    assert_eq!(xor(vec![], vec![]), Vec::<u8>::new());
}
