//! Precomputed exponentiation: powers of one fixed base, for repeated use
//! with varying exponents.
use crate::element::{op_mul, unit_of, Element, Element_t};
use crate::error::{fails_with, AlgebraError};
use crate::group::Group;
use crate::integer::{abs_of, Integer};
use crate::zr::{invertible, is_inverse, mod_inverse, mod_mul, mod_neg, valid_order, zr_neg};
use vstd::arithmetic::div_mod::{
    lemma_add_mod_noop, lemma_fundamental_div_mod, lemma_mod_bound, lemma_mul_mod_noop_left, lemma_mul_mod_noop_right, lemma_small_mod,
};
use vstd::arithmetic::mul::{lemma_mul_is_associative, lemma_mul_is_distributive_add};
use vstd::arithmetic::power::{
    lemma_pow0, lemma_pow1, lemma_pow_adds, lemma_pow_mod_noop, lemma_pow_multiplies,
    lemma_square_is_pow2, pow,
};
use vstd::prelude::*;

verus! {

/// `b` combined with itself `n` times under `mul` in group `g`, starting
/// from the identity.
pub open spec fn power_nat(g: Group, r: int, b: int, n: nat) -> int
    decreases n,
{
    if n == 0 {
        unit_of(g)
    } else {
        op_mul(g, r, power_nat(g, r, b, (n - 1) as nat), b)
    }
}

/// Outside `Zr`, the `n`-th power multiplies the exponent by `n`.
pub proof fn lemma_power_group(g: Group, r: int, b: int, n: nat)
    requires
        g != Group::Zr,
        r >= 2,
        0 <= b < r,
    ensures
        power_nat(g, r, b, n) == (b * n) % r,
    decreases n,
{
    if n == 0 {
        lemma_small_mod(0, r as nat);
    } else {
        lemma_power_group(g, r, b, (n - 1) as nat);
        lemma_small_mod(b as nat, r as nat);
        lemma_add_mod_noop(b * (n - 1), b, r);
        lemma_mul_is_distributive_add(b, n - 1, 1);
    }
}

/// In `Zr`, the `n`-th power is the integer power reduced modulo `r`.
pub proof fn lemma_power_scalar(r: int, b: int, n: nat)
    requires
        r >= 2,
    ensures
        power_nat(Group::Zr, r, b, n) == pow(b, n) % r,
    decreases n,
{
    if n == 0 {
        lemma_pow0(b);
        lemma_small_mod(1, r as nat);
    } else {
        lemma_power_scalar(r, b, (n - 1) as nat);
        lemma_mul_mod_noop_left(pow(b, (n - 1) as nat), b, r);
        lemma_pow_adds(b, (n - 1) as nat, 1);
        lemma_pow1(b);
    }
}

/// One step of square-and-multiply keeps `acc * cur^e` modulo `r`.
proof fn lemma_square_step(r: int, acc: int, cur: int, e: nat)
    requires
        r >= 2,
    ensures
        ({
            let t: nat = e % 2;
            let acc2 = if t == 1 {
                (acc * cur) % r
            } else {
                acc
            };
            (acc2 * pow((cur * cur) % r, e / 2)) % r == (acc * pow(cur, e)) % r
        }),
{
    let t: nat = e % 2;
    let h: nat = e / 2;
    lemma_fundamental_div_mod(e as int, 2);
    assert(e == 2 * h + t);
    lemma_pow_adds(cur, t, 2 * h);
    lemma_pow_multiplies(cur, 2, h);
    lemma_square_is_pow2(cur);
    let ph = pow(cur * cur, h);
    assert(pow(cur, e) == pow(cur, t) * ph);
    lemma_pow_mod_noop(cur * cur, h, r);
    let phr = pow((cur * cur) % r, h);
    assert(phr % r == ph % r);
    if t == 1 {
        lemma_pow1(cur);
        let acc2 = (acc * cur) % r;
        lemma_mul_mod_noop_right(acc2, phr, r);
        lemma_mul_mod_noop_right(acc2, ph, r);
        assert((acc2 * phr) % r == (acc2 * ph) % r);
        lemma_mul_mod_noop_left(acc * cur, ph, r);
        assert((acc2 * ph) % r == ((acc * cur) * ph) % r);
        lemma_mul_is_associative(acc, cur, ph);
        assert(pow(cur, e) == cur * ph);
    } else {
        lemma_pow0(cur);
        assert(pow(cur, e) == ph);
        lemma_mul_mod_noop_right(acc, phr, r);
        lemma_mul_mod_noop_right(acc, ph, r);
    }
}

/// `b^n` modulo `r` by square-and-multiply.
fn mod_pow(r: u64, b: u64, n: u64) -> (res: u64)
    requires
        valid_order(r as int),
        b < r,
    ensures
        res == power_nat(Group::Zr, r as int, b as int, n as nat),
{
    let mut acc: u64 = 1;
    let mut cur: u64 = b;
    let mut e: u64 = n;
    proof {
        lemma_pow1(1);
        assert(acc * pow(cur as int, e as nat) == pow(b as int, n as nat));
    }
    while e > 0
        invariant
            valid_order(r as int),
            acc < r,
            cur < r,
            (acc * pow(cur as int, e as nat)) % (r as int) == pow(b as int, n as nat) % (r as int),
        decreases e,
    {
        proof {
            lemma_square_step(r as int, acc as int, cur as int, e as nat);
        }
        if e % 2 == 1 {
            acc = mod_mul(r, acc, cur);
        }
        cur = mod_mul(r, cur, cur);
        e = e / 2;
    }
    proof {
        lemma_pow0(cur as int);
        lemma_small_mod(acc as nat, r as nat);
        lemma_power_scalar(r as int, b as int, n as nat);
    }
    acc
}

/// The exponentiation table of one base. It holds a copy of the base taken
/// when it was initialised, so later changes to that element do not reach it.
#[derive(Debug)]
pub struct ElementPP {
    base: Option<Element_t>,
    group: Group,
}

impl ElementPP {
    pub closed spec fn is_ready(&self) -> bool {
        self.base is Some
    }

    /// The group of the base.
    pub closed spec fn base_group(&self) -> Group {
        self.group
    }

    /// The value of the base.
    pub closed spec fn base_value(&self) -> int {
        self.base->Some_0.value as int
    }

    /// The order of the base's group.
    pub closed spec fn base_order(&self) -> int {
        self.base->Some_0.order as int
    }

    pub closed spec fn wf(&self) -> bool {
        self.base is Some ==> valid_order(self.base_order()) && self.base_value() < self.base_order()
    }

    /// A table bound to no base yet.
    pub fn new() -> (r: ElementPP)
        ensures
            r.wf(),
            !r.is_ready(),
    {
        ElementPP { base: None, group: Group::Zr }
    }

    /// Binds the table to the current value of `base`.
    pub fn init(&mut self, base: &Element)
        requires
            base.wf(),
        ensures
            final(self).wf(),
            final(self).is_ready(),
            final(self).base_group() == base.group,
            final(self).base_value() == base.value(),
            final(self).base_order() == base.order(),
    {
        self.base = Some(base.raw);
        self.group = base.group;
    }

    /// Unbinds the table; `init` binds it again.
    pub fn clear(&mut self)
        ensures
            final(self).wf(),
            !final(self).is_ready(),
    {
        self.base = None;
    }

    fn base_raw(&self) -> (r: Element_t)
        requires
            self.is_ready(),
        ensures
            r.value == self.base_value(),
            r.order == self.base_order(),
    {
        match self.base {
            Some(b) => b,
            None => Element_t { order: 0, value: 0 },
        }
    }

    /// `dst = base^n`, in the base's group: `n` applications of `mul` to the
    /// base. A negative `n` gives the inverse of `base^|n|`; in `Zr` that is
    /// `NotInvertible` when `base^|n|` has no inverse.
    pub fn pow(&mut self, dst: &mut Element, n: &Integer) -> (res: Result<(), AlgebraError>)
        requires
            old(self).wf(),
            old(self).is_ready(),
        ensures
            *final(self) == *old(self),
            ({
                let g = old(self).base_group();
                let r = old(self).base_order();
                let p = power_nat(g, r, old(self).base_value(), abs_of(n.value()) as nat);
                &&& n.value() >= 0 ==> res.is_ok() && final(dst).wf() && final(dst).group == g
                    && final(dst).order() == r && final(dst).value() == p
                &&& n.value() < 0 && g != Group::Zr ==> res.is_ok() && final(dst).wf()
                    && final(dst).group == g && final(dst).order() == r && final(dst).value()
                    == zr_neg(r, p)
                &&& n.value() < 0 && g == Group::Zr && invertible(r, p) ==> res.is_ok()
                    && final(dst).wf() && final(dst).group == g && final(dst).order() == r
                    && is_inverse(r, p, final(dst).value())
                &&& n.value() < 0 && g == Group::Zr && !invertible(r, p) ==> fails_with(
                    res,
                    AlgebraError::NotInvertible,
                ) && *final(dst) == *old(dst)
            }),
    {
        let b = self.base_raw();
        let e = n.get_ui();
        let p = self.power_abs(b, e);
        if n.get_si() >= 0 {
            dst.group = self.group;
            dst.raw = Element_t { order: b.order, value: p };
            return Ok(());
        }
        if !self.group.is_scalar() {
            dst.group = self.group;
            dst.raw = Element_t { order: b.order, value: mod_neg(b.order, p) };
            return Ok(());
        }
        match mod_inverse(b.order, p) {
            None => Err(AlgebraError::NotInvertible),
            Some(inv) => {
                dst.group = self.group;
                dst.raw = Element_t { order: b.order, value: inv };
                Ok(())
            },
        }
    }

    fn power_abs(&self, b: Element_t, e: u64) -> (p: u64)
        requires
            self.wf(),
            self.is_ready(),
            b.value == self.base_value(),
            b.order == self.base_order(),
        ensures
            p == power_nat(self.base_group(), b.order as int, b.value as int, e as nat),
            p < b.order,
    {
        if self.group.is_scalar() {
            let p = mod_pow(b.order, b.value, e);
            proof {
                lemma_power_scalar(b.order as int, b.value as int, e as nat);
                lemma_mod_bound(pow(b.value as int, e as nat), b.order as int);
            }
            p
        } else {
            proof {
                lemma_power_group(self.group, b.order as int, b.value as int, e as nat);
                lemma_mul_mod_noop_right(b.value as int, e as int, b.order as int);
            }
            mod_mul(b.order, b.value, e % b.order)
        }
    }

    /// `dst = base^z` for a scalar `z` of `Zr` of the base's order: `z`
    /// applications of `mul` to the base.
    pub fn pow_zn(&mut self, dst: &mut Element, z: &Element) -> (res: Result<(), AlgebraError>)
        requires
            old(self).wf(),
            old(self).is_ready(),
            z.wf(),
        ensures
            *final(self) == *old(self),
            res.is_ok() <==> (z.group == Group::Zr && z.order() == old(self).base_order()),
            res.is_ok() ==> final(dst).wf() && final(dst).group == old(self).base_group()
                && final(dst).order() == old(self).base_order() && final(dst).value() == power_nat(
                old(self).base_group(),
                old(self).base_order(),
                old(self).base_value(),
                z.value() as nat,
            ),
            res.is_err() ==> fails_with(res, AlgebraError::GroupMismatch),
            res.is_err() ==> *final(dst) == *old(dst),
    {
        let b = self.base_raw();
        if !(z.group == Group::Zr && z.raw.order == b.order) {
            return Err(AlgebraError::GroupMismatch);
        }
        let p = self.power_abs(b, z.raw.value);
        dst.group = self.group;
        dst.raw = Element_t { order: b.order, value: p };
        Ok(())
    }
}

} // verus!
