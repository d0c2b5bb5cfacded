//! Elements of `Zr`, `G1`, `G2` and `GT`.
//!
//! Every group of a context has the same prime-order structure, and an
//! element is held by its value modulo the order `r`: in `Zr` the residue
//! itself, in `G1`, `G2` and `GT` the exponent of the element with respect to
//! the group's fixed generator. The group law (`add`, and `mul` outside `Zr`)
//! then adds exponents, a scalar power multiplies them, and the pairing of
//! `g1^a` and `g2^b` is `gt^(a*b)`.
use crate::codec::{
    be_bytes, be_value, decode_u64, encode_u64, lemma_be_round_trip, sha256, sha256_of,
    DIGEST_BYTES, ELEMENT_BYTES,
};
use crate::error::{fails_with, AlgebraError};
use crate::group::Group;
use crate::integer::{Integer, Integer_t};
use crate::pairing::Pairing;
use crate::zr::{
    invertible, is_inverse, is_quotient, lemma_quotient_by_inverse, mod_add, mod_from_i64,
    mod_inverse, mod_mul, mod_neg, mod_sub, valid_order, zr_add, zr_mul, zr_neg, zr_sub,
};
use vstd::arithmetic::div_mod::*;
use vstd::prelude::*;

verus! {

/// The identity of the law that `mul` applies: 1 in `Zr`, the neutral
/// element (exponent 0) elsewhere.
pub open spec fn unit_of(g: Group) -> int {
    if g == Group::Zr {
        1
    } else {
        0
    }
}

/// What `mul` computes in group `g`: the ring product in `Zr`, the group law
/// elsewhere.
pub open spec fn op_mul(g: Group, r: int, a: int, b: int) -> int {
    if g == Group::Zr {
        zr_mul(r, a, b)
    } else {
        zr_add(r, a, b)
    }
}

/// The value a `G2` element takes when `data` is hashed into a group of
/// order `r`: the first eight bytes of the digest, reduced modulo `r`.
pub open spec fn hash_to_value(r: int, data: Seq<u8>) -> int {
    scalar_of_digest(r, sha256_of(data))
}

/// The value a digest stands for in a group of order `r`.
pub open spec fn scalar_of_digest(r: int, digest: Seq<u8>) -> int {
    (be_value(digest) as int) % r
}

/// The value a canonical encoding decodes to in a group of order `r`:
/// `None` when its length is wrong or the value is not below `r`.
pub open spec fn decode_spec(r: int, data: Seq<u8>) -> Option<int> {
    if data.len() == ELEMENT_BYTES && (be_value(data) as int) < r {
        Some(be_value(data) as int)
    } else {
        None
    }
}

/// The stored state of an [`Element`]: the order of its group and its value.
#[allow(non_camel_case_types)]
#[derive(Clone, Copy, Debug, PartialEq, Eq, Structural)]
pub struct Element_t {
    pub order: u64,
    pub value: u64,
}

/// An element of one group of a pairing context. Its group never changes
/// but through re-initialisation; a failed operation leaves it unchanged.
#[derive(Debug)]
pub struct Element {
    pub group: Group,
    pub raw: Element_t,
}

impl Element {
    pub open spec fn value(&self) -> int {
        self.raw.value as int
    }

    pub open spec fn order(&self) -> int {
        self.raw.order as int
    }

    /// The value lies in `[0, r)` for a usable order `r`.
    pub open spec fn wf(&self) -> bool {
        valid_order(self.order()) && self.value() < self.order()
    }

    /// Same group, and the same context order.
    pub open spec fn same_group(&self, other: &Element) -> bool {
        self.group == other.group && self.order() == other.order()
    }

    /// `self` is `before` with its value replaced by `v`.
    pub open spec fn updates(&self, before: Element, v: int) -> bool {
        self.group == before.group && self.order() == before.order() && self.value() == v
    }

    fn matches(&self, other: &Element) -> (r: bool)
        ensures
            r == self.same_group(other),
    {
        self.group == other.group && self.raw.order == other.raw.order
    }

    /// A new element of group `g`, equal to zero (the neutral element outside
    /// `Zr`).
    pub fn new(g: Group, p: &Pairing) -> (r: Element)
        requires
            p.wf(),
        ensures
            r.wf(),
            r.group == g,
            r.order() == p.order_spec(),
            r.value() == 0,
    {
        Element { group: g, raw: Element_t { order: p.order(), value: 0 } }
    }

    /// Decodes a `G1` element from its canonical encoding.
    pub fn from_bytes(pairing: &Pairing, data: Vec<u8>) -> (res: Result<Element, AlgebraError>)
        requires
            pairing.wf(),
        ensures
            match res {
                Ok(e) => e.wf() && e.group == Group::G1 && e.order() == pairing.order_spec()
                    && decode_spec(pairing.order_spec(), data@) == Some(e.value()),
                Err(err) => err == AlgebraError::DeserializationError && decode_spec(
                    pairing.order_spec(),
                    data@,
                ) is None,
            },
    {
        if data.len() != ELEMENT_BYTES {
            return Err(AlgebraError::DeserializationError);
        }
        let v = decode_u64(data.as_slice());
        if v >= pairing.order() {
            return Err(AlgebraError::DeserializationError);
        }
        Ok(Element { group: Group::G1, raw: Element_t { order: pairing.order(), value: v } })
    }

    /// The canonical encoding: `ELEMENT_BYTES` bytes, most significant first.
    pub fn to_bytes(&self) -> (r: Vec<u8>)
        ensures
            r@ == be_bytes(self.raw.value),
            r@.len() == ELEMENT_BYTES,
    {
        proof {
            lemma_be_round_trip(self.raw.value);
        }
        encode_u64(self.raw.value)
    }

    pub fn as_ptr(&self) -> (r: &Element_t)
        ensures
            *r == self.raw,
    {
        &self.raw
    }

    pub fn as_mut_ptr(&mut self) -> (r: &mut Element_t)
        ensures
            *r == old(self).raw,
            *final(self) == (Element { group: old(self).group, raw: *final(r) }),
    {
        &mut self.raw
    }

    fn init_in(&mut self, g: Group, pairing: &Pairing)
        requires
            pairing.wf(),
        ensures
            final(self).wf(),
            final(self).group == g,
            final(self).order() == pairing.order_spec(),
            final(self).value() == 0,
    {
        self.group = g;
        self.raw = Element_t { order: pairing.order(), value: 0 };
    }

    /// Makes this the zero element of `G1` in `pairing`.
    pub fn init_g1(&mut self, pairing: &Pairing)
        requires
            pairing.wf(),
        ensures
            final(self).wf(),
            final(self).group == Group::G1,
            final(self).order() == pairing.order_spec(),
            final(self).value() == 0,
    {
        self.init_in(Group::G1, pairing)
    }

    /// Makes this the zero element of `G2` in `pairing`.
    pub fn init_g2(&mut self, pairing: &Pairing)
        requires
            pairing.wf(),
        ensures
            final(self).wf(),
            final(self).group == Group::G2,
            final(self).order() == pairing.order_spec(),
            final(self).value() == 0,
    {
        self.init_in(Group::G2, pairing)
    }

    /// Makes this the zero element of `GT` in `pairing`.
    pub fn init_gt(&mut self, pairing: &Pairing)
        requires
            pairing.wf(),
        ensures
            final(self).wf(),
            final(self).group == Group::GT,
            final(self).order() == pairing.order_spec(),
            final(self).value() == 0,
    {
        self.init_in(Group::GT, pairing)
    }

    /// Makes this the zero element of `Zr` in `pairing`.
    pub fn init_zr(&mut self, pairing: &Pairing)
        requires
            pairing.wf(),
        ensures
            final(self).wf(),
            final(self).group == Group::Zr,
            final(self).order() == pairing.order_spec(),
            final(self).value() == 0,
    {
        self.init_in(Group::Zr, pairing)
    }

    /// Copies the value of `rhs`, which must be of the same group.
    pub fn set(&mut self, rhs: &Element) -> (res: Result<(), AlgebraError>)
        requires
            old(self).wf(),
            rhs.wf(),
        ensures
            final(self).wf(),
            res.is_ok() <==> old(self).same_group(rhs),
            res.is_ok() ==> final(self).updates(*old(self), rhs.value()),
            res.is_err() ==> res == Err::<(), AlgebraError>(AlgebraError::GroupMismatch),
            res.is_err() ==> *final(self) == *old(self),
    {
        if !self.matches(rhs) {
            return Err(AlgebraError::GroupMismatch);
        }
        self.raw.value = rhs.raw.value;
        Ok(())
    }

    /// Sets the element to zero: the additive identity of `Zr`, the neutral
    /// element elsewhere.
    pub fn set0(&mut self)
        requires
            old(self).wf(),
        ensures
            final(self).wf(),
            final(self).updates(*old(self), 0),
    {
        self.raw.value = 0;
    }

    /// Sets the element to the identity of `mul`: 1 in `Zr`, the neutral
    /// element elsewhere.
    pub fn set1(&mut self)
        requires
            old(self).wf(),
        ensures
            final(self).wf(),
            final(self).updates(*old(self), unit_of(old(self).group)),
    {
        if self.group.is_scalar() {
            self.raw.value = 1;
        } else {
            self.raw.value = 0;
        }
    }

    /// Sets a `Zr` element to the integer `si`, reduced modulo the order.
    pub fn set_si(&mut self, si: i64)
        requires
            old(self).wf(),
            old(self).group == Group::Zr,
        ensures
            final(self).wf(),
            final(self).updates(*old(self), (si as int) % old(self).order()),
    {
        self.raw.value = mod_from_i64(self.raw.order, si);
    }

    /// Compares canonical encodings: zero when they are equal, negative when
    /// this one orders first, positive otherwise.
    pub fn cmp(&self, rhs: &Element) -> (r: i32)
        ensures
            r == 0 <==> self.raw.value == rhs.raw.value,
            r < 0 <==> self.raw.value < rhs.raw.value,
    {
        if self.raw.value == rhs.raw.value {
            0
        } else if self.raw.value < rhs.raw.value {
            -1
        } else {
            1
        }
    }

    /// The value of the element as an integer.
    pub fn to_integer(&self) -> (r: Integer)
        requires
            self.wf(),
        ensures
            r.value() == self.value(),
    {
        Integer { raw: Integer_t { value: self.raw.value as i64 } }
    }

    /// Sets the element from a number drawn by the caller's random source:
    /// `entropy` reduced modulo the order. A uniform draw over `u64` gives a
    /// value within `r / 2^64` of uniform.
    pub fn random(&mut self, entropy: u64)
        requires
            old(self).wf(),
        ensures
            final(self).wf(),
            final(self).updates(*old(self), (entropy as int) % old(self).order()),
    {
        self.raw.value = entropy % self.raw.order;
    }
}

impl Element {
    /// The pairing `e(self, rhs)`, a new `GT` element: `self` must be in `G1`
    /// and `rhs` in `G2`, both of `pairing`.
    pub fn pair(&self, pairing: &Pairing, rhs: &Element) -> (res: Result<Element, AlgebraError>)
        requires
            pairing.wf(),
            self.wf(),
            rhs.wf(),
        ensures
            res.is_ok() <==> (self.group == Group::G1 && rhs.group == Group::G2 && self.order()
                == pairing.order_spec() && rhs.order() == pairing.order_spec()),
            match res {
                Ok(e) => e.wf() && e.group == Group::GT && e.order() == pairing.order_spec()
                    && e.value() == zr_mul(pairing.order_spec(), self.value(), rhs.value()),
                Err(err) => err == AlgebraError::GroupMismatch,
            },
    {
        let r = pairing.order();
        if !(self.group == Group::G1 && rhs.group == Group::G2 && self.raw.order == r
            && rhs.raw.order == r) {
            return Err(AlgebraError::GroupMismatch);
        }
        Ok(Element { group: Group::GT, raw: Element_t { order: r, value: mod_mul(r, self.raw.value, rhs.raw.value) } })
    }

    /// `self = self + rhs`: the ring sum in `Zr`, the group law elsewhere.
    pub fn add(&mut self, rhs: &Element) -> (res: Result<(), AlgebraError>)
        requires
            old(self).wf(),
            rhs.wf(),
        ensures
            final(self).wf(),
            res.is_ok() <==> old(self).same_group(rhs),
            res.is_ok() ==> final(self).updates(
                *old(self),
                zr_add(old(self).order(), old(self).value(), rhs.value()),
            ),
            res.is_err() ==> fails_with(res, AlgebraError::GroupMismatch) && *final(self) == *old(self),
    {
        if !self.matches(rhs) {
            return Err(AlgebraError::GroupMismatch);
        }
        self.raw.value = mod_add(self.raw.order, self.raw.value, rhs.raw.value);
        Ok(())
    }

    /// `self = self - rhs`: the ring difference in `Zr`, the group law with
    /// the inverse of `rhs` elsewhere.
    pub fn sub(&mut self, rhs: &Element) -> (res: Result<(), AlgebraError>)
        requires
            old(self).wf(),
            rhs.wf(),
        ensures
            final(self).wf(),
            res.is_ok() <==> old(self).same_group(rhs),
            res.is_ok() ==> final(self).updates(
                *old(self),
                zr_sub(old(self).order(), old(self).value(), rhs.value()),
            ),
            res.is_err() ==> fails_with(res, AlgebraError::GroupMismatch) && *final(self) == *old(self),
    {
        if !self.matches(rhs) {
            return Err(AlgebraError::GroupMismatch);
        }
        self.raw.value = mod_sub(self.raw.order, self.raw.value, rhs.raw.value);
        Ok(())
    }

    /// `self = self * rhs`: the ring product in `Zr`, the group law elsewhere.
    pub fn mul(&mut self, rhs: &Element) -> (res: Result<(), AlgebraError>)
        requires
            old(self).wf(),
            rhs.wf(),
        ensures
            final(self).wf(),
            res.is_ok() <==> old(self).same_group(rhs),
            res.is_ok() ==> final(self).updates(
                *old(self),
                op_mul(old(self).group, old(self).order(), old(self).value(), rhs.value()),
            ),
            res.is_err() ==> fails_with(res, AlgebraError::GroupMismatch) && *final(self) == *old(self),
    {
        if !self.matches(rhs) {
            return Err(AlgebraError::GroupMismatch);
        }
        if self.group.is_scalar() {
            self.raw.value = mod_mul(self.raw.order, self.raw.value, rhs.raw.value);
        } else {
            self.raw.value = mod_add(self.raw.order, self.raw.value, rhs.raw.value);
        }
        Ok(())
    }

    /// `self = self * n` for an integer `n`: a multiple in `Zr`, the `n`-th
    /// power elsewhere.
    pub fn mul_si(&mut self, n: i64)
        requires
            old(self).wf(),
        ensures
            final(self).wf(),
            final(self).updates(*old(self), (old(self).value() * n) % old(self).order()),
    {
        let r = self.raw.order;
        let m = mod_from_i64(r, n);
        proof {
            lemma_mul_mod_noop_right(self.value(), n as int, r as int);
        }
        self.raw.value = mod_mul(r, self.raw.value, m);
    }

    /// `self = self * z` for a scalar `z` of `Zr`: the ring product in `Zr`,
    /// the `z`-th power elsewhere.
    pub fn mul_zn(&mut self, z: &Element) -> (res: Result<(), AlgebraError>)
        requires
            old(self).wf(),
            z.wf(),
        ensures
            final(self).wf(),
            res.is_ok() <==> (z.group == Group::Zr && z.order() == old(self).order()),
            res.is_ok() ==> final(self).updates(
                *old(self),
                zr_mul(old(self).order(), old(self).value(), z.value()),
            ),
            res.is_err() ==> fails_with(res, AlgebraError::GroupMismatch) && *final(self) == *old(self),
    {
        if !(z.group == Group::Zr && z.raw.order == self.raw.order) {
            return Err(AlgebraError::GroupMismatch);
        }
        self.raw.value = mod_mul(self.raw.order, self.raw.value, z.raw.value);
        Ok(())
    }

    /// `self = self / rhs`. In `Zr` the quotient that `rhs` multiplies back
    /// to `self`, with `DivisionByZero` for a zero divisor and
    /// `NotInvertible` for one without an inverse; elsewhere the group law
    /// with the inverse of `rhs`.
    pub fn div(&mut self, rhs: &Element) -> (res: Result<(), AlgebraError>)
        requires
            old(self).wf(),
            rhs.wf(),
        ensures
            final(self).wf(),
            !old(self).same_group(rhs) ==> fails_with(res, AlgebraError::GroupMismatch),
            old(self).same_group(rhs) && old(self).group == Group::Zr ==> {
                &&& rhs.value() == 0 ==> fails_with(res, AlgebraError::DivisionByZero)
                &&& rhs.value() != 0 && !invertible(rhs.order(), rhs.value()) ==> fails_with(
                    res,
                    AlgebraError::NotInvertible,
                )
                &&& invertible(rhs.order(), rhs.value()) ==> res.is_ok() && final(self).group
                    == old(self).group && final(self).order() == old(self).order() && is_quotient(
                    rhs.order(),
                    old(self).value(),
                    rhs.value(),
                    final(self).value(),
                )
            },
            old(self).same_group(rhs) && old(self).group != Group::Zr ==> res.is_ok()
                && final(self).updates(
                *old(self),
                zr_sub(old(self).order(), old(self).value(), rhs.value()),
            ),
            res.is_err() ==> *final(self) == *old(self),
    {
        if !self.matches(rhs) {
            return Err(AlgebraError::GroupMismatch);
        }
        let r = self.raw.order;
        if !self.group.is_scalar() {
            self.raw.value = mod_sub(r, self.raw.value, rhs.raw.value);
            return Ok(());
        }
        if rhs.raw.value == 0 {
            proof {
                assert forall|x: int| !#[trigger] is_inverse(r as int, 0, x) by {
                    assert(x * 0 == 0);
                }
            }
            return Err(AlgebraError::DivisionByZero);
        }
        match mod_inverse(r, rhs.raw.value) {
            None => Err(AlgebraError::NotInvertible),
            Some(inv) => {
                proof {
                    lemma_quotient_by_inverse(r as int, self.value(), rhs.value(), inv as int);
                }
                self.raw.value = mod_mul(r, self.raw.value, inv);
                Ok(())
            },
        }
    }

    /// `self = rhs + rhs`.
    pub fn double(&mut self, rhs: &Element) -> (res: Result<(), AlgebraError>)
        requires
            old(self).wf(),
            rhs.wf(),
        ensures
            final(self).wf(),
            res.is_ok() <==> old(self).same_group(rhs),
            res.is_ok() ==> final(self).updates(
                *old(self),
                zr_add(rhs.order(), rhs.value(), rhs.value()),
            ),
            res.is_err() ==> fails_with(res, AlgebraError::GroupMismatch) && *final(self) == *old(self),
    {
        if !self.matches(rhs) {
            return Err(AlgebraError::GroupMismatch);
        }
        self.raw.value = mod_add(rhs.raw.order, rhs.raw.value, rhs.raw.value);
        Ok(())
    }

    /// `self = rhs / 2`, the value that doubles to `rhs`; `NotInvertible`
    /// when 2 has no inverse modulo the order.
    pub fn halve(&mut self, rhs: &Element) -> (res: Result<(), AlgebraError>)
        requires
            old(self).wf(),
            rhs.wf(),
        ensures
            final(self).wf(),
            !old(self).same_group(rhs) ==> fails_with(res, AlgebraError::GroupMismatch),
            old(self).same_group(rhs) && !invertible(rhs.order(), 2) ==> fails_with(
                res,
                AlgebraError::NotInvertible,
            ),
            old(self).same_group(rhs) && invertible(rhs.order(), 2) ==> res.is_ok()
                && final(self).group == old(self).group && final(self).order() == old(self).order()
                && is_quotient(rhs.order(), rhs.value(), 2, final(self).value()),
            res.is_err() ==> *final(self) == *old(self),
    {
        if !self.matches(rhs) {
            return Err(AlgebraError::GroupMismatch);
        }
        let r = rhs.raw.order;
        if r == 2 {
            proof {
                assert forall|x: int| !#[trigger] is_inverse(2, 2, x) by {
                    lemma_mod_multiples_basic(x, 2);
                }
            }
            return Err(AlgebraError::NotInvertible);
        }
        match mod_inverse(r, 2) {
            None => Err(AlgebraError::NotInvertible),
            Some(inv) => {
                proof {
                    lemma_quotient_by_inverse(r as int, rhs.value(), 2, inv as int);
                }
                self.raw.value = mod_mul(r, rhs.raw.value, inv);
                Ok(())
            },
        }
    }

    /// `self = rhs * rhs`, with `mul`'s meaning in the group.
    pub fn square(&mut self, rhs: &Element) -> (res: Result<(), AlgebraError>)
        requires
            old(self).wf(),
            rhs.wf(),
        ensures
            final(self).wf(),
            res.is_ok() <==> old(self).same_group(rhs),
            res.is_ok() ==> final(self).updates(
                *old(self),
                op_mul(rhs.group, rhs.order(), rhs.value(), rhs.value()),
            ),
            res.is_err() ==> fails_with(res, AlgebraError::GroupMismatch) && *final(self) == *old(self),
    {
        if !self.matches(rhs) {
            return Err(AlgebraError::GroupMismatch);
        }
        if rhs.group.is_scalar() {
            self.raw.value = mod_mul(rhs.raw.order, rhs.raw.value, rhs.raw.value);
        } else {
            self.raw.value = mod_add(rhs.raw.order, rhs.raw.value, rhs.raw.value);
        }
        Ok(())
    }

    /// `self = -rhs`, the additive inverse.
    pub fn neg(&mut self, rhs: &Element) -> (res: Result<(), AlgebraError>)
        requires
            old(self).wf(),
            rhs.wf(),
        ensures
            final(self).wf(),
            res.is_ok() <==> old(self).same_group(rhs),
            res.is_ok() ==> final(self).updates(*old(self), zr_neg(rhs.order(), rhs.value())),
            res.is_err() ==> fails_with(res, AlgebraError::GroupMismatch) && *final(self) == *old(self),
    {
        if !self.matches(rhs) {
            return Err(AlgebraError::GroupMismatch);
        }
        self.raw.value = mod_neg(rhs.raw.order, rhs.raw.value);
        Ok(())
    }

    /// `self = rhs^-1`, the inverse under `mul`: in `Zr` the multiplicative
    /// inverse (`DivisionByZero` for zero, `NotInvertible` when there is
    /// none), elsewhere the group inverse.
    pub fn invert(&mut self, rhs: &Element) -> (res: Result<(), AlgebraError>)
        requires
            old(self).wf(),
            rhs.wf(),
        ensures
            final(self).wf(),
            !old(self).same_group(rhs) ==> fails_with(res, AlgebraError::GroupMismatch),
            old(self).same_group(rhs) && rhs.group == Group::Zr ==> {
                &&& rhs.value() == 0 ==> fails_with(res, AlgebraError::DivisionByZero)
                &&& rhs.value() != 0 && !invertible(rhs.order(), rhs.value()) ==> fails_with(
                    res,
                    AlgebraError::NotInvertible,
                )
                &&& invertible(rhs.order(), rhs.value()) ==> res.is_ok() && final(self).group
                    == old(self).group && final(self).order() == old(self).order() && is_inverse(
                    rhs.order(),
                    rhs.value(),
                    final(self).value(),
                )
            },
            old(self).same_group(rhs) && rhs.group != Group::Zr ==> res.is_ok()
                && final(self).updates(*old(self), zr_neg(rhs.order(), rhs.value())),
            res.is_err() ==> *final(self) == *old(self),
    {
        if !self.matches(rhs) {
            return Err(AlgebraError::GroupMismatch);
        }
        let r = rhs.raw.order;
        if !rhs.group.is_scalar() {
            self.raw.value = mod_neg(r, rhs.raw.value);
            return Ok(());
        }
        if rhs.raw.value == 0 {
            proof {
                assert forall|x: int| !#[trigger] is_inverse(r as int, 0, x) by {
                    assert(x * 0 == 0);
                }
            }
            return Err(AlgebraError::DivisionByZero);
        }
        match mod_inverse(r, rhs.raw.value) {
            None => Err(AlgebraError::NotInvertible),
            Some(inv) => {
                self.raw.value = inv;
                Ok(())
            },
        }
    }
}

impl Element {
    /// Sets the element from a digest: its first eight bytes, most
    /// significant first, reduced modulo the order.
    pub fn set_from_digest(&mut self, digest: &Vec<u8>)
        requires
            old(self).wf(),
            digest@.len() >= 8,
        ensures
            final(self).wf(),
            final(self).updates(*old(self), scalar_of_digest(old(self).order(), digest@)),
    {
        let v = decode_u64(digest.as_slice());
        self.raw.value = v % self.raw.order;
    }

    /// Hashes an arbitrary byte string into the element's group. The result
    /// depends on the bytes and the group's order alone.
    pub fn set_from_hash(&mut self, h: Vec<u8>)
        requires
            old(self).wf(),
        ensures
            final(self).wf(),
            final(self).updates(*old(self), hash_to_value(old(self).order(), h@)),
    {
        let digest = sha256(h.as_slice());
        self.set_from_digest(&digest);
    }

    /// The SHA-256 digest of the element's canonical encoding.
    pub fn hash_g(&self) -> (r: Vec<u8>)
        ensures
            r@ == sha256_of(be_bytes(self.raw.value)),
            r@.len() == DIGEST_BYTES,
    {
        let bytes = self.to_bytes();
        sha256(bytes.as_slice())
    }

    /// Binds a 32-byte tag to this element: the encoding of the element
    /// followed by the tag, with no separator, hashed into `G2`.
    /// `InvalidLength` when the tag is not 32 bytes long.
    pub fn hash_h(&self, pairing: &Pairing, bytes: Vec<u8>) -> (res: Result<Element, AlgebraError>)
        requires
            pairing.wf(),
        ensures
            res.is_ok() <==> bytes@.len() == DIGEST_BYTES,
            match res {
                Ok(e) => e.wf() && e.group == Group::G2 && e.order() == pairing.order_spec()
                    && e.value() == hash_to_value(
                    pairing.order_spec(),
                    be_bytes(self.raw.value) + bytes@,
                ),
                Err(err) => err == AlgebraError::InvalidLength,
            },
    {
        if bytes.len() != DIGEST_BYTES {
            return Err(AlgebraError::InvalidLength);
        }
        let mut combined = self.to_bytes();
        let mut tag = bytes;
        combined.append(&mut tag);
        let mut h = Element::new(Group::G2, pairing);
        h.set_from_hash(combined);
        Ok(h)
    }
}

} // verus!
