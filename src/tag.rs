//! The one-byte tag that opens every NBT value.
use vstd::prelude::*;
use crate::error::NbtParseError;

verus! {

/// The kind of an NBT tag, one byte on the wire.
#[derive(Debug, Clone, Copy, PartialEq, Eq, Structural, PartialOrd, Ord, Hash)]
pub enum NbtTag {
    End,
    Byte,
    Short,
    Int,
    Long,
    Float,
    Double,
    ByteArray,
    String,
    List,
    Compound,
    IntArray,
    LongArray,
}

/// The tag that `b` encodes, or `InvalidTag(b)` where `b` is not in `0..=12`.
pub open spec fn decode_tag(b: u8) -> Result<NbtTag, NbtParseError> {
    match b {
        0 => Ok(NbtTag::End),
        1 => Ok(NbtTag::Byte),
        2 => Ok(NbtTag::Short),
        3 => Ok(NbtTag::Int),
        4 => Ok(NbtTag::Long),
        5 => Ok(NbtTag::Float),
        6 => Ok(NbtTag::Double),
        7 => Ok(NbtTag::ByteArray),
        8 => Ok(NbtTag::String),
        9 => Ok(NbtTag::List),
        10 => Ok(NbtTag::Compound),
        11 => Ok(NbtTag::IntArray),
        12 => Ok(NbtTag::LongArray),
        _ => Err(NbtParseError::InvalidTag(b)),
    }
}

impl TryFrom<u8> for NbtTag {
    type Error = NbtParseError;

    fn try_from(value: u8) -> (r: Result<Self, Self::Error>)
        ensures
            r == decode_tag(value),
    {
        Ok(
            match value {
            0 => NbtTag::End,
            1 => NbtTag::Byte,
            2 => NbtTag::Short,
            3 => NbtTag::Int,
            4 => NbtTag::Long,
            5 => NbtTag::Float,
            6 => NbtTag::Double,
            7 => NbtTag::ByteArray,
            8 => NbtTag::String,
            9 => NbtTag::List,
            10 => NbtTag::Compound,
            11 => NbtTag::IntArray,
            12 => NbtTag::LongArray,
                invalid => return Err(NbtParseError::InvalidTag(invalid)),
            },
        )
    }
}

impl vstd::std_specs::convert::TryFromSpecImpl<u8> for NbtTag {
    open spec fn obeys_try_from_spec() -> bool {
        true
    }

    open spec fn try_from_spec(v: u8) -> Result<Self, Self::Error> {
        decode_tag(v)
    }
}

} // verus!
