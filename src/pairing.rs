use crate::error::AlgebraError;
use crate::zr::{check_prime, is_prime, valid_order, ORDER_MAX};
use vstd::prelude::*;

verus! {

/// The parameters a pairing context is made from: the prime order `r`
/// shared by `Zr`, `G1`, `G2` and `GT`.
#[allow(non_camel_case_types)]
#[derive(Clone, Copy, Debug, PartialEq, Eq, Structural)]
pub struct Pairing_t {
    pub order: u64,
}

/// A pairing context. Every element is created against one, and it never
/// changes once made; elements keep a copy of what they need from it, so
/// none can outlive the parameters it was made with.
#[derive(Debug)]
pub struct Pairing {
    raw: Pairing_t,
}

impl Pairing {
    /// The group order of this context.
    pub closed spec fn order_spec(&self) -> int {
        self.raw.order as int
    }

    /// The order is usable and prime.
    pub open spec fn wf(&self) -> bool {
        valid_order(self.order_spec()) && is_prime(self.order_spec())
    }

    /// A context for groups of order `order`; `InvalidParameters` unless the
    /// order is a prime no larger than `ORDER_MAX`. Primality is checked by
    /// trial division.
    pub fn new(order: u64) -> (res: Result<Pairing, AlgebraError>)
        ensures
            match res {
                Ok(p) => p.wf() && p.order_spec() == order,
                Err(e) => e == AlgebraError::InvalidParameters,
            },
            res.is_ok() <==> valid_order(order as int) && is_prime(order as int),
    {
        if order < 2 || order > ORDER_MAX || !check_prime(order) {
            Err(AlgebraError::InvalidParameters)
        } else {
            Ok(Pairing { raw: Pairing_t { order } })
        }
    }

    pub fn order(&self) -> (r: u64)
        ensures
            r == self.order_spec(),
    {
        self.raw.order
    }

    /// The parameters behind this context.
    pub fn as_ptr(&self) -> (r: &Pairing_t)
        ensures
            r.order == self.order_spec(),
    {
        &self.raw
    }
}

} // verus!
