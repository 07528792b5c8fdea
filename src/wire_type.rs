use vstd::prelude::*;

verus! {

/// The low-level encodings a field payload can take, as carried in the
/// three low bits of a field header.
#[derive(Debug, Clone, Copy, PartialEq, Eq, Structural)]
pub enum WireType {
    Varint,
    SixtyFourBit,
    LengthDelimited,
    StartGroup,
    EndGroup,
    ThirtyTwoBit,
}

impl WireType {
    /// The numeric code of this wire type on the wire.
    pub open spec fn code(self) -> nat {
        match self {
            WireType::Varint => 0,
            WireType::SixtyFourBit => 1,
            WireType::LengthDelimited => 2,
            WireType::StartGroup => 3,
            WireType::EndGroup => 4,
            WireType::ThirtyTwoBit => 5,
        }
    }

    /// The wire type whose code is `val`, if any.
    pub open spec fn spec_from_code(val: int) -> Option<WireType> {
        if val == 0 {
            Some(WireType::Varint)
        } else if val == 1 {
            Some(WireType::SixtyFourBit)
        } else if val == 2 {
            Some(WireType::LengthDelimited)
        } else if val == 3 {
            Some(WireType::StartGroup)
        } else if val == 4 {
            Some(WireType::EndGroup)
        } else if val == 5 {
            Some(WireType::ThirtyTwoBit)
        } else {
            None
        }
    }

    pub fn from_uint(val: usize) -> (r: Option<WireType>)
        ensures
            r == Self::spec_from_code(val as int),
            r matches Some(w) ==> w.code() == val,
            r is None <==> val > 5,
    {
        match val {
            0 => Some(WireType::Varint),
            1 => Some(WireType::SixtyFourBit),
            2 => Some(WireType::LengthDelimited),
            3 => Some(WireType::StartGroup),
            4 => Some(WireType::EndGroup),
            5 => Some(WireType::ThirtyTwoBit),
            _ => None,
        }
    }

    /// The numeric code of this wire type.
    pub fn to_uint(self) -> (r: usize)
        ensures
            r == self.code(),
            Self::spec_from_code(r as int) == Some(self),
    {
        match self {
            WireType::Varint => 0,
            WireType::SixtyFourBit => 1,
            WireType::LengthDelimited => 2,
            WireType::StartGroup => 3,
            WireType::EndGroup => 4,
            WireType::ThirtyTwoBit => 5,
        }
    }
}

} // verus!
