//! Properties that tie several operations of the library together.
use crate::codec::{be_bytes, lemma_be_round_trip};
use crate::element::{decode_spec, hash_to_value, op_mul, unit_of};
use crate::element_pp::power_nat;
use crate::group::Group;
use crate::threshold::{lagrange_den, poly_eval, valid_reconstruction_set, zr_pow};
use crate::zr::{
    invertible, is_prime, lemma_prime_invertible, lemma_prime_no_zero_divisors, valid_order, zr_add,
    zr_mul, zr_sub,
};
use vstd::arithmetic::div_mod::{
    lemma_add_mod_noop, lemma_fundamental_div_mod_converse, lemma_mod_bound, lemma_mul_mod_noop,
    lemma_small_mod,
};
use vstd::prelude::*;

verus! {

/// Decoding the encoding that `to_bytes` gives of a `G1` element with
/// `from_bytes` yields the same value, so the two compare equal.
pub proof fn law_g1_bytes_round_trip(r: int, v: u64)
    requires
        valid_order(r),
        v < r,
    ensures
        decode_spec(r, be_bytes(v)) == Some(v as int),
{
    lemma_be_round_trip(v);
}

/// In `Zr`: addition is associative, 1 is neutral for `mul`, 0 is neutral
/// for `add`, and `a - a` is 0.
pub proof fn law_zr_identities(r: int, a: int, b: int, c: int)
    requires
        valid_order(r),
        0 <= a < r,
        0 <= b < r,
        0 <= c < r,
    ensures
        zr_add(r, zr_add(r, a, b), c) == zr_add(r, a, zr_add(r, b, c)),
        op_mul(Group::Zr, r, a, unit_of(Group::Zr)) == a,
        zr_add(r, a, 0) == a,
        zr_sub(r, a, a) == 0,
{
    lemma_small_mod(a as nat, r as nat);
    lemma_small_mod(b as nat, r as nat);
    lemma_small_mod(c as nat, r as nat);
    lemma_add_mod_noop(a + b, c, r);
    lemma_add_mod_noop(a, b + c, r);
    lemma_small_mod(0, r as nat);
}

/// The pairing is bilinear: pairing `g1^a` with `g2^b` gives the pairing of
/// `g1` and `g2` raised to `a * b`. Exponents of `G1` and `G2` elements are
/// their values; `mul_zn` raises, `pair` pairs.
pub proof fn law_pairing_bilinear(r: int, g1: int, g2: int, a: int, b: int)
    requires
        valid_order(r),
        0 <= g1 < r,
        0 <= g2 < r,
        0 <= a < r,
        0 <= b < r,
    ensures
        zr_mul(r, zr_mul(r, g1, a), zr_mul(r, g2, b)) == zr_mul(
            r,
            zr_mul(r, g1, g2),
            zr_mul(r, a, b),
        ),
{
    lemma_mul_mod_noop(g1 * a, g2 * b, r);
    lemma_mul_mod_noop(g1 * g2, a * b, r);
    assert((g1 * a) * (g2 * b) == (g1 * g2) * (a * b)) by (nonlinear_arith);
}

/// A precomputed power `base^n` is `base` combined with itself `n` times by
/// `mul`: the identity for `n = 0`, and one more `mul` by the base for each
/// further step.
pub proof fn law_power_is_repeated_mul(g: Group, r: int, b: int, n: nat)
    requires
        valid_order(r),
        0 <= b < r,
    ensures
        power_nat(g, r, b, 0) == unit_of(g),
        power_nat(g, r, b, n + 1) == op_mul(g, r, power_nat(g, r, b, n), b),
{
}

/// Evaluating a polynomial at 0 gives its constant term.
pub proof fn law_polynomial_at_zero(r: int, cs: Seq<int>)
    requires
        valid_order(r),
        cs.len() >= 1,
        forall|i: int| 0 <= i < cs.len() ==> 0 <= #[trigger] cs[i] < r,
    ensures
        poly_eval(r, cs, 0) == cs[0],
    decreases cs.len(),
{
    lemma_small_mod(0, r as nat);
    if cs.len() == 1 {
        lemma_small_mod(cs[0] as nat, r as nat);
        assert(cs.drop_last().len() == 0);
        assert(poly_eval(r, cs.drop_last(), 0) == 0);
        assert(zr_pow(r, 0, 0) == 1);
        assert(cs.last() == cs[0]);
        assert(cs[0] * 1 == cs[0]);
        assert(poly_eval(r, cs, 0) == zr_add(r, 0, zr_mul(r, cs[0], 1)));
    } else {
        let n = (cs.len() - 1) as nat;
        let init = cs.drop_last();
        assert forall|i: int| 0 <= i < init.len() implies 0 <= #[trigger] init[i] < r by {
            assert(init[i] == cs[i]);
        }
        law_polynomial_at_zero(r, init);
        assert(init[0] == cs[0]);
        assert(zr_pow(r, 0, n) == 0) by {
            assert(zr_pow(r, 0, n) == zr_mul(r, zr_pow(r, 0, (n - 1) as nat), 0));
        }
        assert(cs.last() * 0 == 0);
        assert(zr_mul(r, cs.last(), 0) == 0);
        lemma_small_mod(cs[0] as nat, r as nat);
        assert(poly_eval(r, cs, 0) == zr_add(r, poly_eval(r, init, 0), zr_mul(r, cs.last(), zr_pow(r, 0, n))));
    }
}

/// Hashing into `G2` depends on the element's value and the tag alone: the
/// same value and the same tag give the same element.
pub proof fn law_hash_h_deterministic(r: int, v1: u64, v2: u64, t1: Seq<u8>, t2: Seq<u8>)
    requires
        valid_order(r),
        v1 == v2,
        t1 == t2,
    ensures
        hash_to_value(r, be_bytes(v1) + t1) == hash_to_value(r, be_bytes(v2) + t2),
{
}

proof fn lemma_den_in_range(r: int, l: int, s: Set<i64>, j: int, n: nat)
    requires
        is_prime(r),
        l <= r,
        0 <= j < l,
        n <= l,
        forall|i: i64| s.contains(i) ==> 0 <= i < l,
    ensures
        0 < lagrange_den(r, s, j, n) < r,
    decreases n,
{
    if n > 0 {
        let i = n - 1;
        lemma_den_in_range(r, l, s, j, (n - 1) as nat);
        if s.contains(i as i64) && i != j {
            let f = (j - i) % r;
            if j > i {
                lemma_small_mod((j - i) as nat, r as nat);
            } else {
                lemma_fundamental_div_mod_converse(j - i, r, -1, j - i + r);
            }
            let prev = lagrange_den(r, s, j, (n - 1) as nat);
            lemma_prime_no_zero_divisors(r, prev, f);
            lemma_mod_bound(prev * f, r);
        }
    }
}

/// Over a prime order `r` no smaller than `l`, the Lagrange denominator of
/// any index `j` in `{0, ..., l-1}` for a valid reconstruction set is
/// invertible: `lagrange` then returns a coefficient, never an error.
pub proof fn law_lagrange_denominator_invertible(r: int, k: int, l: int, s: Set<i64>, j: int)
    requires
        is_prime(r),
        l <= r,
        0 <= j < l,
        valid_reconstruction_set(k, l, s),
    ensures
        invertible(r, lagrange_den(r, s, j, l as nat)),
{
    lemma_den_in_range(r, l, s, j, l as nat);
    lemma_prime_invertible(r, lagrange_den(r, s, j, l as nat));
}

} // verus!
