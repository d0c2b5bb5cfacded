use vstd::prelude::*;

verus! {

/// The group an element belongs to.
///
/// `Zr` is the scalar ring, whose order is the order of the pairing groups;
/// `G1` and `G2` are the source groups and `GT` the target group of the
/// bilinear map `e: G1 x G2 -> GT`.
#[derive(Clone, Copy, Debug, PartialEq, Eq, Structural)]
pub enum Group {
    Zr,
    G1,
    G2,
    GT,
}

impl Group {
    /// Whether this is the scalar ring, where `mul` is the ring product;
    /// in the three other groups `mul` is the group law, as `add` is.
    pub fn is_scalar(&self) -> (r: bool)
        ensures
            r == (*self == Group::Zr),
    {
        match self {
            Group::Zr => true,
            _ => false,
        }
    }
}

} // verus!
