use vstd::prelude::*;

pub mod base;
pub mod decode;
pub mod encode;
pub mod bits;
pub mod error;
pub mod fse;
pub mod kit;
pub mod le;
pub mod lmd;
pub mod lz;
pub mod match_kit;
pub mod reader;
pub mod stream_spec;

pub use error::{Error, FseErrorKind, Result};

verus! {

} // verus!
