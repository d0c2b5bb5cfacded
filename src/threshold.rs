//! Threshold secret sharing over `Zr`: evaluating the sharing polynomial,
//! and the Lagrange coefficients that rebuild its constant term from `k` of
//! the `l` shares.
use crate::element::Element;
use crate::error::{fails_with, AlgebraError};
use crate::group::Group;
use crate::laws::law_lagrange_denominator_invertible;
use crate::pairing::Pairing;
use crate::zr::{invertible, is_quotient, zr_add, zr_mul};
use std::collections::HashSet;
use vstd::arithmetic::div_mod::lemma_sub_mod_noop;
use vstd::prelude::*;
use vstd::std_specs::iter::IteratorSpec;

verus! {

/// `x^i` in `Zr`: `i` products, starting from 1.
pub open spec fn zr_pow(r: int, x: int, i: nat) -> int
    decreases i,
{
    if i == 0 {
        1
    } else {
        zr_mul(r, zr_pow(r, x, (i - 1) as nat), x)
    }
}

/// `cs[0] + cs[1]*x + ... + cs[n-1]*x^(n-1)` in `Zr`.
pub open spec fn poly_eval(r: int, cs: Seq<int>, x: int) -> int
    decreases cs.len(),
{
    if cs.len() == 0 {
        0
    } else {
        zr_add(
            r,
            poly_eval(r, cs.drop_last(), x),
            zr_mul(r, cs.last(), zr_pow(r, x, (cs.len() - 1) as nat)),
        )
    }
}

/// The values of a sequence of elements.
pub open spec fn values_of(es: Seq<Element>) -> Seq<int> {
    es.map_values(|e: Element| e.value())
}

/// Every element of `es` is a well-formed `Zr` element of order `r`.
pub open spec fn all_scalars(es: Seq<Element>, r: int) -> bool {
    forall|i: int| 0 <= i < es.len() ==> {
        &&& #[trigger] es[i].wf()
        &&& es[i].group == Group::Zr
        &&& es[i].order() == r
    }
}

/// A reconstruction set has exactly `k` indices, all in `{0, ..., l-1}`.
pub open spec fn valid_reconstruction_set(k: int, l: int, s: Set<i64>) -> bool {
    &&& s.len() == k
    &&& forall|i: i64| s.contains(i) ==> 0 <= i < l
}

/// The Lagrange numerator over the indices of `s` below `n` other than `j`,
/// in ascending order: the product of `0 - i - 1`. The evaluation points
/// are `i + 1`, so share `i` is the polynomial's value at `i + 1` and the
/// secret its value at 0.
pub open spec fn lagrange_num(r: int, s: Set<i64>, j: int, n: nat) -> int
    decreases n,
{
    if n == 0 {
        1
    } else {
        let i = n - 1;
        let prev = lagrange_num(r, s, j, (n - 1) as nat);
        if s.contains(i as i64) && i != j {
            zr_mul(r, prev, (0 - i - 1) % r)
        } else {
            prev
        }
    }
}

/// The Lagrange denominator over the same indices: the product of `j - i`.
pub open spec fn lagrange_den(r: int, s: Set<i64>, j: int, n: nat) -> int
    decreases n,
{
    if n == 0 {
        1
    } else {
        let i = n - 1;
        let prev = lagrange_den(r, s, j, (n - 1) as nat);
        if s.contains(i as i64) && i != j {
            zr_mul(r, prev, (j - i) % r)
        } else {
            prev
        }
    }
}

proof fn lemma_hash_set_finite(s: &HashSet<i64>)
    ensures
        s@.finite(),
{
    broadcast use vstd::std_specs::hash::group_hash_axioms;

    let keys = vstd::std_specs::hash::spec_hash_keys_iter(s);
    vstd::std_specs::hash::axiom_spec_hash_keys_iter(s);
    vstd::seq_lib::seq_to_set_is_finite(keys.remaining().unref());
}

/// Evaluates `coefficients[0] + coefficients[1]*x + ...` at `x = in_x` by
/// accumulating `y += c * x_power`, `x_power *= in_x`, constant term first.
pub fn polynomial(in_x: &Element, pairing: &Pairing, coefficients: &Vec<Element>) -> (y: Element)
    requires
        pairing.wf(),
        in_x.wf(),
        in_x.group == Group::Zr,
        in_x.order() == pairing.order_spec(),
        all_scalars(coefficients@, pairing.order_spec()),
    ensures
        y.wf(),
        y.group == Group::Zr,
        y.order() == pairing.order_spec(),
        y.value() == poly_eval(pairing.order_spec(), values_of(coefficients@), in_x.value()),
{
    let ghost r = pairing.order_spec();
    let ghost cs = values_of(coefficients@);
    let mut y = Element::new(Group::Zr, pairing);
    y.set0();
    let mut x = Element::new(Group::Zr, pairing);
    x.set1();
    let mut i: usize = 0;
    while i < coefficients.len()
        invariant
            pairing.wf(),
            r == pairing.order_spec(),
            cs == values_of(coefficients@),
            in_x.wf(),
            in_x.group == Group::Zr,
            in_x.order() == r,
            all_scalars(coefficients@, r),
            0 <= i <= coefficients.len(),
            y.wf(),
            y.group == Group::Zr,
            y.order() == r,
            x.wf(),
            x.group == Group::Zr,
            x.order() == r,
            y.value() == poly_eval(r, cs.take(i as int), in_x.value()),
            x.value() == zr_pow(r, in_x.value(), i as nat),
        decreases coefficients.len() - i,
    {
        let coefficient = &coefficients[i];
        assert(coefficients@[i as int].wf());
        let mut tmp = Element::new(Group::Zr, pairing);
        let _ = tmp.set(coefficient);
        let _ = tmp.mul(&x);
        let _ = y.add(&tmp);
        let _ = x.mul(in_x);
        proof {
            let next = cs.take(i + 1);
            assert(next.len() == i + 1);
            assert(next.drop_last() =~= cs.take(i as int));
            assert(cs[i as int] == coefficients@[i as int].value());
            assert(next.last() == coefficient.value());
            assert(poly_eval(r, next, in_x.value()) == zr_add(
                r,
                poly_eval(r, cs.take(i as int), in_x.value()),
                zr_mul(r, coefficient.value(), zr_pow(r, in_x.value(), i as nat)),
            ));
        }
        i = i + 1;
    }
    proof {
        assert(cs.take(i as int) =~= cs);
    }
    y
}

/// The Lagrange coefficient of index `j` for the reconstruction set `s`, at
/// evaluation point 0: `lagrange_num / lagrange_den` over `s` without `j`,
/// indices taken in ascending order.
///
/// `InvalidReconstructionSet` unless `s` holds exactly `k` indices, all in
/// `{0, ..., l-1}`; `DivisionByZero` or `NotInvertible` when the
/// denominator has no inverse modulo the order, which cannot happen for
/// `j` in `{0, ..., l-1}` when `l` is at most the (prime) order.
pub fn lagrange(pairing: &Pairing, k: u32, l: u32, s: &HashSet<i64>, j: i64) -> (res: Result<
    Element,
    AlgebraError,
>)
    requires
        pairing.wf(),
    ensures
        ({
            let r = pairing.order_spec();
            let num = lagrange_num(r, s@, j as int, l as nat);
            let den = lagrange_den(r, s@, j as int, l as nat);
            &&& !valid_reconstruction_set(k as int, l as int, s@) ==> fails_with(
                res,
                AlgebraError::InvalidReconstructionSet,
            )
            &&& valid_reconstruction_set(k as int, l as int, s@) && den == 0 ==> fails_with(
                res,
                AlgebraError::DivisionByZero,
            )
            &&& valid_reconstruction_set(k as int, l as int, s@) && den != 0 && !invertible(r, den)
                ==> fails_with(res, AlgebraError::NotInvertible)
            &&& valid_reconstruction_set(k as int, l as int, s@) && 0 <= j < l && l <= r
                ==> res.is_ok()
            &&& valid_reconstruction_set(k as int, l as int, s@) && invertible(r, den) ==> match res {
                Ok(e) => e.wf() && e.group == Group::Zr && e.order() == r && is_quotient(
                    r,
                    num,
                    den,
                    e.value(),
                ),
                Err(_) => false,
            }
        }),
{
    broadcast use vstd::std_specs::hash::group_hash_axioms;
    broadcast use vstd::set::group_set_axioms;

    let ghost r = pairing.order_spec();
    proof {
        lemma_hash_set_finite(s);
    }
    let mut num = Element::new(Group::Zr, pairing);
    num.set1();
    let mut den = Element::new(Group::Zr, pairing);
    den.set1();
    // How many indices of `s` lie in `{0, ..., i-1}`.
    let mut count: usize = 0;
    let ghost mut seen: Set<i64> = Set::empty();
    let mut i: u32 = 0;
    while i < l
        invariant
            pairing.wf(),
            r == pairing.order_spec(),
            s@.finite(),
            i <= l,
            num.wf(),
            num.group == Group::Zr,
            num.order() == r,
            den.wf(),
            den.group == Group::Zr,
            den.order() == r,
            num.value() == lagrange_num(r, s@, j as int, i as nat),
            den.value() == lagrange_den(r, s@, j as int, i as nat),
            seen.finite(),
            count == seen.len(),
            count <= i,
            forall|x: i64| seen.contains(x) <==> (s@.contains(x) && 0 <= x < i),
        decreases l - i,
    {
        let ii: i64 = i as i64;
        if s.contains(&ii) {
            proof {
                assert(!seen.contains(ii));
                seen = seen.insert(ii);
            }
            count = count + 1;
            if ii != j {
                let mut num_t = Element::new(Group::Zr, pairing);
                num_t.set_si(0 - ii - 1);
                let _ = num.mul(&num_t);
                let mut den_t = Element::new(Group::Zr, pairing);
                den_t.set_si(j);
                let mut idx = Element::new(Group::Zr, pairing);
                idx.set_si(ii);
                let _ = den_t.sub(&idx);
                proof {
                    lemma_sub_mod_noop(j as int, ii as int, r);
                }
                let _ = den.mul(&den_t);
            }
        }
        i = i + 1;
    }
    let valid = count == s.len() && s.len() == k as usize;
    proof {
        if count == s@.len() {
            assert(seen.subset_of(s@));
            vstd::set_lib::lemma_subset_equality(seen, s@);
        }
        if forall|x: i64| s@.contains(x) ==> 0 <= x < l {
            assert(seen =~= s@);
        }
    }
    if !valid {
        return Err(AlgebraError::InvalidReconstructionSet);
    }
    proof {
        if 0 <= j < l && l <= r {
            law_lagrange_denominator_invertible(r, k as int, l as int, s@, j as int);
        }
    }
    match num.div(&den) {
        Ok(()) => Ok(num),
        Err(e) => Err(e),
    }
}

} // verus!
