//! Algebra over a bilinear group family (the scalar ring `Zr`, the source
//! groups `G1` and `G2`, the target group `GT`) and the threshold layer built
//! on it: polynomial evaluation and Lagrange coefficients over `Zr`.
pub mod codec;
pub mod element;
pub mod element_pp;
pub mod error;
pub mod group;
pub mod integer;
pub mod laws;
pub mod pairing;
pub mod threshold;
pub mod zr;

pub use codec::{xor, DIGEST_BYTES, ELEMENT_BYTES};
pub use element::{Element, Element_t};
pub use element_pp::ElementPP;
pub use error::AlgebraError;
pub use group::Group;
pub use integer::{Integer, Integer_t};
pub use pairing::{Pairing, Pairing_t};
pub use threshold::{lagrange, polynomial};
pub use zr::ORDER_MAX;
