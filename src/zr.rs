//! Arithmetic modulo the group order `r`: the scalar ring `Zr`, and the
//! exponents by which the elements of `G1`, `G2` and `GT` are represented.
use vstd::arithmetic::div_mod::*;
use vstd::prelude::*;

verus! {

/// The largest group order a context accepts (2^62): sums of two values stay
/// below 2^63 and every value fits an `i64`.
pub const ORDER_MAX: u64 = 0x4000_0000_0000_0000;

pub open spec fn valid_order(r: int) -> bool {
    2 <= r <= ORDER_MAX
}

pub open spec fn zr_add(r: int, a: int, b: int) -> int {
    (a + b) % r
}

pub open spec fn zr_sub(r: int, a: int, b: int) -> int {
    (a - b) % r
}

pub open spec fn zr_neg(r: int, a: int) -> int {
    (0 - a) % r
}

pub open spec fn zr_mul(r: int, a: int, b: int) -> int {
    (a * b) % r
}

/// `x` is the inverse of `b` modulo `r`.
pub open spec fn is_inverse(r: int, b: int, x: int) -> bool {
    0 <= x < r && (x * b) % r == 1
}

pub open spec fn invertible(r: int, b: int) -> bool {
    exists|x: int| is_inverse(r, b, x)
}

/// `q` is the quotient `a / b` modulo `r`: the value in `[0, r)` that `b`
/// multiplies back to `a`.
pub open spec fn is_quotient(r: int, a: int, b: int, q: int) -> bool {
    0 <= q < r && (q * b) % r == a % r
}

/// Multiplying by an inverse of `b` divides by `b`.
pub proof fn lemma_quotient_by_inverse(r: int, a: int, b: int, inv: int)
    requires
        r >= 2,
        0 <= a < r,
        is_inverse(r, b, inv),
    ensures
        is_quotient(r, a, b, zr_mul(r, a, inv)),
{
    let q = zr_mul(r, a, inv);
    lemma_mod_bound(a * inv, r);
    lemma_mul_mod_noop_left(a * inv, b, r);
    vstd::arithmetic::mul::lemma_mul_is_associative(a, inv, b);
    lemma_mul_mod_noop_right(a, inv * b, r);
    lemma_small_mod(a as nat, r as nat);
}

/// `p` is prime: at least 2, and no integer in `[2, p)` divides it.
pub open spec fn is_prime(p: int) -> bool {
    p >= 2 && forall|d: int| 2 <= d < p ==> #[trigger] (p % d) != 0
}

/// Bezout coefficients and the common divisor of `a` and `b`: the result
/// `(x, y, g, ka, kb)` has `g == a*x + b*y`, `a == ka*g` and `b == kb*g`.
proof fn lemma_bezout(a: int, b: int) -> (res: (int, int, int, int, int))
    requires
        0 <= a,
        0 <= b,
        a + b > 0,
    ensures
        res.2 > 0,
        res.2 == a * res.0 + b * res.1,
        a == res.3 * res.2,
        b == res.4 * res.2,
    decreases b,
{
    if b == 0 {
        (1, 0, a, 1, 0)
    } else {
        lemma_fundamental_div_mod(a, b);
        lemma_mod_bound(a, b);
        let q = a / b;
        let m = a % b;
        let (x1, y1, g, kb, km) = lemma_bezout(b, m);
        // g == b*x1 + m*y1 and a == b*q + m
        let x = y1;
        let y = x1 - q * y1;
        let ka = kb * q + km;
        assert(g == a * x + b * y) by (nonlinear_arith)
            requires
                g == b * x1 + m * y1,
                a == b * q + m,
                x == y1,
                y == x1 - q * y1,
        ;
        assert(a == ka * g) by (nonlinear_arith)
            requires
                a == b * q + m,
                b == kb * g,
                m == km * g,
                ka == kb * q + km,
        ;
        (x, y, g, ka, kb)
    }
}

/// Modulo a prime, every value in `(0, p)` has an inverse.
pub proof fn lemma_prime_invertible(p: int, b: int)
    requires
        is_prime(p),
        0 < b < p,
    ensures
        invertible(p, b),
{
    let (x, y, g, kp, kb) = lemma_bezout(p, b);
    assert(g <= b) by (nonlinear_arith)
        requires
            b == kb * g,
            g > 0,
            b > 0,
    ;
    if g >= 2 {
        lemma_fundamental_div_mod_converse(p, g, kp, 0);
        assert(p % g != 0);
    }
    assert(g == 1);
    // 1 == p*x + b*y, so (y mod p) * b is 1 modulo p.
    let inv = y % p;
    lemma_mod_bound(y, p);
    lemma_mul_mod_noop_left(y, b, p);
    assert(b * y == 1 + (-x) * p) by (nonlinear_arith)
        requires
            1 == p * x + b * y,
    ;
    assert(y * b == (-x) * p + 1) by (nonlinear_arith)
        requires
            b * y == 1 + (-x) * p,
    ;
    lemma_fundamental_div_mod_converse(y * b, p, -x, 1);
    assert(is_inverse(p, b, inv));
}

/// Modulo a prime, a product of two non-zero values is non-zero.
pub proof fn lemma_prime_no_zero_divisors(p: int, a: int, b: int)
    requires
        is_prime(p),
        0 < a < p,
        0 < b < p,
    ensures
        zr_mul(p, a, b) != 0,
{
    lemma_prime_invertible(p, a);
    let inv = choose|x: int| is_inverse(p, a, x);
    if zr_mul(p, a, b) == 0 {
        // b == inv * a * b == inv * 0 modulo p
        lemma_mul_mod_noop_right(inv, a * b, p);
        vstd::arithmetic::mul::lemma_mul_is_associative(inv, a, b);
        lemma_mul_mod_noop_left(inv * a, b, p);
        lemma_small_mod(b as nat, p as nat);
        assert((inv * (a * b)) % p == (inv * 0) % p);
        assert(inv * 0 == 0);
        lemma_small_mod(0, p as nat);
        assert(((inv * a) % p * b) % p == b);
    }
}

/// Whether `r` is prime, by trial division up to its square root.
pub fn check_prime(r: u64) -> (b: bool)
    requires
        r <= ORDER_MAX,
    ensures
        b == is_prime(r as int),
{
    if r < 2 {
        return false;
    }
    let mut d: u64 = 2;
    while d <= r / d
        invariant
            r >= 2,
            r <= ORDER_MAX,
            2 <= d <= r + 1,
            forall|e: int| 2 <= e < d ==> #[trigger] ((r as int) % e) != 0,
        decreases r + 1 - d,
    {
        proof {
            lemma_fundamental_div_mod(r as int, d as int);
            lemma_mod_bound(r as int, d as int);
            assert(d * d <= r) by (nonlinear_arith)
                requires
                    d <= r / d,
                    r == d * (r / d) + r % d,
                    r % d >= 0,
                    d >= 2,
            ;
            assert(d <= r) by (nonlinear_arith)
                requires
                    d * d <= r,
                    d >= 2,
            ;
        }
        if r % d == 0 {
            proof {
                assert(d < r) by (nonlinear_arith)
                    requires
                        d * d <= r,
                        d >= 2,
                ;
            }
            return false;
        }
        d = d + 1;
    }
    proof {
        let ri = r as int;
        let di = d as int;
        lemma_fundamental_div_mod(ri, di);
        lemma_mod_bound(ri, di);
        assert(di * di > ri) by (nonlinear_arith)
            requires
                di > ri / di,
                ri == di * (ri / di) + ri % di,
                ri % di < di,
                di >= 2,
        ;
        assert forall|e: int| 2 <= e < ri implies #[trigger] (ri % e) != 0 by {
            if e >= di && ri % e == 0 {
                let q = ri / e;
                lemma_fundamental_div_mod(ri, e);
                assert(ri == e * q);
                assert(q >= 2) by (nonlinear_arith)
                    requires
                        ri == e * q,
                        e < ri,
                        e >= 2,
                ;
                assert(q < di) by (nonlinear_arith)
                    requires
                        ri == e * q,
                        e >= di,
                        di * di > ri,
                        di >= 2,
                ;
                lemma_fundamental_div_mod_converse(ri, q, e, 0);
                assert(ri % q == 0);
            }
        }
    }
    true
}

pub fn mod_add(r: u64, a: u64, b: u64) -> (c: u64)
    requires
        valid_order(r as int),
        a < r,
        b < r,
    ensures
        c == zr_add(r as int, a as int, b as int),
{
    let s = a + b;
    if s >= r {
        proof {
            lemma_fundamental_div_mod_converse(s as int, r as int, 1, (s - r) as int);
        }
        s - r
    } else {
        proof {
            lemma_small_mod(s as nat, r as nat);
        }
        s
    }
}

pub fn mod_sub(r: u64, a: u64, b: u64) -> (c: u64)
    requires
        valid_order(r as int),
        a < r,
        b < r,
    ensures
        c == zr_sub(r as int, a as int, b as int),
{
    if a >= b {
        proof {
            lemma_small_mod((a - b) as nat, r as nat);
        }
        a - b
    } else {
        proof {
            lemma_fundamental_div_mod_converse(a - b, r as int, -1, a - b + r);
        }
        a + (r - b)
    }
}

pub fn mod_neg(r: u64, a: u64) -> (c: u64)
    requires
        valid_order(r as int),
        a < r,
    ensures
        c == zr_neg(r as int, a as int),
{
    mod_sub(r, 0, a)
}

pub fn mod_mul(r: u64, a: u64, b: u64) -> (c: u64)
    requires
        valid_order(r as int),
        a < r,
        b < r,
    ensures
        c == zr_mul(r as int, a as int, b as int),
{
    proof {
        assert((a as int) * (b as int) < 0x1_0000_0000_0000_0000_0000_0000_0000_0000) by (nonlinear_arith)
            requires
                a < ORDER_MAX,
                b < ORDER_MAX,
        ;
    }
    let p = (a as u128) * (b as u128);
    (p % (r as u128)) as u64
}

/// `v` reduced into `[0, r)`.
pub fn mod_from_i64(r: u64, v: i64) -> (c: u64)
    requires
        valid_order(r as int),
    ensures
        c == (v as int) % (r as int),
{
    if v >= 0 {
        (v as u64) % r
    } else {
        let u: u64 = (0 - (v as i128)) as u64;
        let m: u64 = u % r;
        proof {
            let q = (u as int) / (r as int);
            lemma_fundamental_div_mod(u as int, r as int);
            if m > 0 {
                assert(v as int == (-q - 1) * (r as int) + (r - m)) by (nonlinear_arith)
                    requires
                        u as int == (r as int) * q + m as int,
                        v as int == -(u as int),
                ;
                lemma_fundamental_div_mod_converse(v as int, r as int, -q - 1, (r - m) as int);
            } else {
                assert(v as int == (-q) * (r as int) + 0) by (nonlinear_arith)
                    requires
                        u as int == (r as int) * q + m as int,
                        m == 0,
                        v as int == -(u as int),
                ;
                lemma_fundamental_div_mod_converse(v as int, r as int, -q, 0);
            }
        }
        if m == 0 {
            0
        } else {
            r - m
        }
    }
}

/// The inverse of `b` modulo `r`, found by the extended Euclidean algorithm;
/// `None` exactly when `b` has none.
pub fn mod_inverse(r: u64, b: u64) -> (res: Option<u64>)
    requires
        valid_order(r as int),
        b < r,
    ensures
        match res {
            Some(x) => is_inverse(r as int, b as int, x as int),
            None => !invertible(r as int, b as int),
        },
{
    let ghost rr = r as int;
    let ghost bb = b as int;
    // Remainders x0, x1 with x0 == s0 * b and x1 == s1 * b modulo r.
    let mut x0: u64 = r;
    let mut x1: u64 = b;
    let mut s0: u64 = 0;
    let mut s1: u64 = 1;
    // Cofactors expressing r and b over the current remainders.
    let ghost mut a0: int = 1;
    let ghost mut a1: int = 0;
    let ghost mut c0: int = 0;
    let ghost mut c1: int = 1;
    // Multiples of r in the congruences above.
    let ghost mut k0: int = -1;
    let ghost mut k1: int = 0;
    while x1 != 0
        invariant
            valid_order(rr),
            rr == r,
            bb == b,
            0 < x0 <= r,
            x1 < x0,
            s0 < r,
            s1 < r,
            rr == a0 * x0 + a1 * x1,
            bb == c0 * x0 + c1 * x1,
            s0 * bb == x0 + k0 * rr,
            s1 * bb == x1 + k1 * rr,
        decreases x1,
    {
        let q: u64 = x0 / x1;
        let x2: u64 = x0 % x1;
        proof {
            lemma_div_nonincreasing(x0 as int, x1 as int);
            assert((q as int) * (s1 as int) < 0x1_0000_0000_0000_0000_0000_0000_0000_0000) by (nonlinear_arith)
                requires
                    q <= ORDER_MAX,
                    s1 < ORDER_MAX,
            ;
        }
        let t: u64 = ((q as u128 * s1 as u128) % (r as u128)) as u64;
        let s2: u64 = mod_sub(r, s0, t);
        proof {
            lemma_fundamental_div_mod(x0 as int, x1 as int);
            assert(x0 as int == (x1 as int) * (q as int) + x2 as int);
            let d = (s0 - q * s1) / rr;
            lemma_sub_mod_noop_right(s0 as int, q * s1, rr);
            lemma_fundamental_div_mod(s0 - q * s1, rr);
            assert(s2 as int == (s0 - q * s1) % rr);
            let na0 = a0 * q + a1;
            let nc0 = c0 * q + c1;
            let nk1 = k0 - q * k1 - d * bb;
            assert(rr == na0 * x1 + a0 * x2) by (nonlinear_arith)
                requires
                    rr == a0 * x0 + a1 * x1,
                    x0 as int == (x1 as int) * (q as int) + x2 as int,
                    na0 == a0 * q + a1,
            ;
            assert(bb == nc0 * x1 + c0 * x2) by (nonlinear_arith)
                requires
                    bb == c0 * x0 + c1 * x1,
                    x0 as int == (x1 as int) * (q as int) + x2 as int,
                    nc0 == c0 * q + c1,
            ;
            assert(s2 * bb == x2 + nk1 * rr) by (nonlinear_arith)
                requires
                    s0 - q * s1 == rr * d + s2,
                    s0 * bb == x0 + k0 * rr,
                    s1 * bb == x1 + k1 * rr,
                    x0 as int == (x1 as int) * (q as int) + x2 as int,
                    nk1 == k0 - q * k1 - d * bb,
            ;
            a1 = a0;
            a0 = na0;
            c1 = c0;
            c0 = nc0;
            k0 = k1;
            k1 = nk1;
        }
        x0 = x1;
        x1 = x2;
        s0 = s1;
        s1 = s2;
    }
    if x0 == 1 {
        proof {
            lemma_fundamental_div_mod_converse(s0 * bb, rr, k0, 1);
        }
        Some(s0)
    } else {
        proof {
            assert(bb == c0 * x0);
            assert(rr == a0 * x0);
            assert forall|x: int| !#[trigger] is_inverse(rr, bb, x) by {
                if is_inverse(rr, bb, x) {
                    let k = (x * bb) / rr;
                    lemma_fundamental_div_mod(x * bb, rr);
                    let m = x * c0 - k * a0;
                    assert(x0 * m == 1) by (nonlinear_arith)
                        requires
                            x * bb == rr * k + 1,
                            bb == c0 * x0,
                            rr == a0 * x0,
                            m == x * c0 - k * a0,
                    ;
                    assert(false) by (nonlinear_arith)
                        requires
                            x0 * m == 1,
                            x0 >= 2,
                    ;
                }
            }
        }
        None
    }
}

} // verus!
