//! The seal on the map codec traits.
use vstd::prelude::*;

verus! {

/// Seals [`MapValueDecode`](super::MapValueDecode) and
/// [`MapCodec`](super::MapCodec): their contracts tie wire types, fixed
/// lengths and payloads together, and the proto scalar set is closed, so
/// only this crate's codecs implement them.
pub trait Sealed {
}

} // verus!
