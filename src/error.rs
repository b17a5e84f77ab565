//! The two ways an NBT input can be malformed.
use vstd::prelude::*;

verus! {

/// A fatal, structural parse error: the input is malformed at the byte or word
/// that was just consumed.
#[derive(Debug, Clone, Copy, PartialEq, Eq, Structural, Hash)]
pub enum NbtParseError {
    /// A tag discriminant outside `0..=12`.
    InvalidTag(u8),
    /// A negative length prefix on a byte array, int array, long array or list.
    InvalidLen(i32),
}

pub type NbtResult<T> = Result<T, NbtParseError>;

} // verus!
