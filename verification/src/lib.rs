//! Protobuf wire codec for `map<K, V>` fields and an import registry for
//! generated code.
use vstd::prelude::*;

pub mod error;
pub mod encoding;
pub mod types;
pub mod message;
pub mod proto_map;
pub mod map_codec;
pub mod imports;

verus! {

} // verus!
