use vstd::prelude::*;

verus! {

/// The stored value of an [`Integer`].
#[allow(non_camel_case_types)]
#[derive(Clone, Copy, Debug, PartialEq, Eq, Structural)]
pub struct Integer_t {
    pub value: i64,
}

/// A signed integer, independent of any pairing context: exponents for
/// precomputed powers, and what a `Zr` element converts to.
#[derive(Clone, Copy, Debug, PartialEq, Eq, Structural)]
pub struct Integer {
    pub raw: Integer_t,
}

/// The absolute value of `v`.
pub open spec fn abs_of(v: int) -> int {
    if v < 0 {
        -v
    } else {
        v
    }
}

impl Integer {
    pub open spec fn value(&self) -> int {
        self.raw.value as int
    }

    /// A new integer, equal to zero.
    pub fn new() -> (r: Integer)
        ensures
            r.value() == 0,
    {
        Integer { raw: Integer_t { value: 0 } }
    }

    pub fn as_ptr(&self) -> (r: &Integer_t)
        ensures
            *r == self.raw,
    {
        &self.raw
    }

    pub fn as_mut_ptr(&mut self) -> (r: &mut Integer_t)
        ensures
            *r == old(self).raw,
            *final(self) == (Integer { raw: *final(r) }),
    {
        &mut self.raw
    }

    /// Resets the integer to zero.
    pub fn init(&mut self)
        ensures
            final(self).value() == 0,
    {
        self.raw.value = 0;
    }

    /// The absolute value, as an unsigned integer.
    pub fn get_ui(&self) -> (r: u64)
        ensures
            r == abs_of(self.value()),
    {
        let v = self.raw.value;
        if v < 0 {
            (0 - (v as i128)) as u64
        } else {
            v as u64
        }
    }

    pub fn get_si(&self) -> (r: i64)
        ensures
            r == self.value(),
    {
        self.raw.value
    }

    pub fn set_si(&mut self, si: i64)
        ensures
            final(self).value() == si,
    {
        self.raw.value = si;
    }
}

} // verus!
