//! Compact, deterministic byte encoding for virtual-machine instructions.
//!
//! Every encodable type implements [`Serialize`], whose contract states the exact bytes that
//! a value encodes to and what decoding the front of a byte slice yields. The wire format:
//!
//! - integers, `bool` and `char`: fixed width, little-endian (`usize` and `isize` as 64 bits);
//! - tuples and arrays: their components in order, with nothing between them;
//! - `Option`: a `bool` flag, then the value if there is one; `Box`: the value itself;
//! - `Vec`, boxed slices and `String`: an element (or UTF-8 byte) count, written with the
//!   caller's [`Size`] type, then the elements;
//! - tagged unions: the variant's position, as narrow as the variant count allows
//!   ([`tagged`]), then the variant's fields in declaration order.
//!
//! There is no version field or type identifier: both sides must agree on the types and on
//! the [`Size`] type.
use vstd::prelude::*;

pub mod composite;
pub mod error;
pub mod instruction;
pub mod laws;
pub mod little_endian;
pub mod primitive;
pub mod sequence;
pub mod serialize;
pub mod tagged;
pub mod text;

pub use error::Error;
pub use serialize::{push_len, read_len, Serialize, Size};

