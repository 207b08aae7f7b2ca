//! Opcodes, element types and their wire codes.

use crate::rank::protocol::ProtocolError;
use vstd::prelude::*;
use vstd::std_specs::convert::TryFromSpecImpl;

verus! {

#[derive(Debug, Clone, Copy, PartialEq, Eq, Hash, Structural)]
pub enum Opcode {
    Join,
    Ready,
    Broadcast,
    AllGather,
    Gather,
    Scatter,
    Reduce,
    AllReduce,
    ReduceScatter,
    AllToAll,
    AllToAllV,
    Barrier,
    Send,
    Receive,
    Abort,
    Heartbeat,
    Leave,
    SetTimeout,
    PeerEndpoint,
}

impl Opcode {
    /// The opcode's wire code.
    pub open spec fn spec_code(self) -> u8 {
        match self {
            Opcode::Join => 1,
            Opcode::Ready => 2,
            Opcode::Broadcast => 3,
            Opcode::AllGather => 4,
            Opcode::Gather => 5,
            Opcode::Scatter => 6,
            Opcode::Reduce => 7,
            Opcode::AllReduce => 8,
            Opcode::ReduceScatter => 9,
            Opcode::AllToAll => 10,
            Opcode::AllToAllV => 11,
            Opcode::Barrier => 12,
            Opcode::Send => 13,
            Opcode::Receive => 14,
            Opcode::Abort => 15,
            Opcode::Heartbeat => 16,
            Opcode::Leave => 17,
            Opcode::SetTimeout => 18,
            Opcode::PeerEndpoint => 19,
        }
    }

    /// The opcode whose wire code is `value`.
    pub open spec fn from_code(value: u8) -> Result<Opcode, ProtocolError> {
        match value {
            1 => Ok(Opcode::Join),
            2 => Ok(Opcode::Ready),
            3 => Ok(Opcode::Broadcast),
            4 => Ok(Opcode::AllGather),
            5 => Ok(Opcode::Gather),
            6 => Ok(Opcode::Scatter),
            7 => Ok(Opcode::Reduce),
            8 => Ok(Opcode::AllReduce),
            9 => Ok(Opcode::ReduceScatter),
            10 => Ok(Opcode::AllToAll),
            11 => Ok(Opcode::AllToAllV),
            12 => Ok(Opcode::Barrier),
            13 => Ok(Opcode::Send),
            14 => Ok(Opcode::Receive),
            15 => Ok(Opcode::Abort),
            16 => Ok(Opcode::Heartbeat),
            17 => Ok(Opcode::Leave),
            18 => Ok(Opcode::SetTimeout),
            19 => Ok(Opcode::PeerEndpoint),
            _ => Err(ProtocolError::UnknownOpcode(value)),
        }
    }

    /// The opcode's name in messages.
    pub open spec fn spec_name(self) -> Seq<char> {
        match self {
            Opcode::Join => "Join"@,
            Opcode::Ready => "Ready"@,
            Opcode::Broadcast => "Broadcast"@,
            Opcode::AllGather => "AllGather"@,
            Opcode::Gather => "Gather"@,
            Opcode::Scatter => "Scatter"@,
            Opcode::Reduce => "Reduce"@,
            Opcode::AllReduce => "AllReduce"@,
            Opcode::ReduceScatter => "ReduceScatter"@,
            Opcode::AllToAll => "AllToAll"@,
            Opcode::AllToAllV => "AllToAllV"@,
            Opcode::Barrier => "Barrier"@,
            Opcode::Send => "Send"@,
            Opcode::Receive => "Receive"@,
            Opcode::Abort => "Abort"@,
            Opcode::Heartbeat => "Heartbeat"@,
            Opcode::Leave => "Leave"@,
            Opcode::SetTimeout => "SetTimeout"@,
            Opcode::PeerEndpoint => "PeerEndpoint"@,
        }
    }

    pub fn code(self) -> (code: u8)
        ensures
            code == self.spec_code(),
    {
        match self {
            Opcode::Join => 1,
            Opcode::Ready => 2,
            Opcode::Broadcast => 3,
            Opcode::AllGather => 4,
            Opcode::Gather => 5,
            Opcode::Scatter => 6,
            Opcode::Reduce => 7,
            Opcode::AllReduce => 8,
            Opcode::ReduceScatter => 9,
            Opcode::AllToAll => 10,
            Opcode::AllToAllV => 11,
            Opcode::Barrier => 12,
            Opcode::Send => 13,
            Opcode::Receive => 14,
            Opcode::Abort => 15,
            Opcode::Heartbeat => 16,
            Opcode::Leave => 17,
            Opcode::SetTimeout => 18,
            Opcode::PeerEndpoint => 19,
        }
    }

    pub fn name(self) -> (name: &'static str)
        ensures
            name@ == self.spec_name(),
    {
        match self {
            Opcode::Join => "Join",
            Opcode::Ready => "Ready",
            Opcode::Broadcast => "Broadcast",
            Opcode::AllGather => "AllGather",
            Opcode::Gather => "Gather",
            Opcode::Scatter => "Scatter",
            Opcode::Reduce => "Reduce",
            Opcode::AllReduce => "AllReduce",
            Opcode::ReduceScatter => "ReduceScatter",
            Opcode::AllToAll => "AllToAll",
            Opcode::AllToAllV => "AllToAllV",
            Opcode::Barrier => "Barrier",
            Opcode::Send => "Send",
            Opcode::Receive => "Receive",
            Opcode::Abort => "Abort",
            Opcode::Heartbeat => "Heartbeat",
            Opcode::Leave => "Leave",
            Opcode::SetTimeout => "SetTimeout",
            Opcode::PeerEndpoint => "PeerEndpoint",
        }
    }
}

impl TryFromSpecImpl<u8> for Opcode {
    open spec fn obeys_try_from_spec() -> bool {
        true
    }

    open spec fn try_from_spec(value: u8) -> Result<Self, ProtocolError> {
        Opcode::from_code(value)
    }
}

impl TryFrom<u8> for Opcode {
    type Error = ProtocolError;

    fn try_from(value: u8) -> (result: Result<Self, ProtocolError>) {
        match value {
            1 => Ok(Opcode::Join),
            2 => Ok(Opcode::Ready),
            3 => Ok(Opcode::Broadcast),
            4 => Ok(Opcode::AllGather),
            5 => Ok(Opcode::Gather),
            6 => Ok(Opcode::Scatter),
            7 => Ok(Opcode::Reduce),
            8 => Ok(Opcode::AllReduce),
            9 => Ok(Opcode::ReduceScatter),
            10 => Ok(Opcode::AllToAll),
            11 => Ok(Opcode::AllToAllV),
            12 => Ok(Opcode::Barrier),
            13 => Ok(Opcode::Send),
            14 => Ok(Opcode::Receive),
            15 => Ok(Opcode::Abort),
            16 => Ok(Opcode::Heartbeat),
            17 => Ok(Opcode::Leave),
            18 => Ok(Opcode::SetTimeout),
            19 => Ok(Opcode::PeerEndpoint),
            _ => Err(ProtocolError::UnknownOpcode(value)),
        }
    }
}

#[derive(Debug, Clone, Copy, PartialEq, Eq, Structural)]
pub enum ElementType {
    /// A frame without elements.
    Untyped,
    U8,
    U32,
    I32,
    F32,
    F16,
    BF16,
    Bool,
    I8,
    I16,
    I64,
    F64,
    U16,
    U64,
    Complex64,
    Complex128,
    F8E4M3Fn,
    F8E5M2,
    F8E4M3Fnuz,
    F8E5M2Fnuz,
    F8E8M0Fnu,
    F4E2M1FnX2,
}

impl ElementType {
    /// The element type's wire code.
    pub open spec fn spec_code(self) -> u8 {
        match self {
            ElementType::Untyped => 0,
            ElementType::U8 => 1,
            ElementType::U32 => 2,
            ElementType::I32 => 3,
            ElementType::F32 => 4,
            ElementType::F16 => 5,
            ElementType::BF16 => 6,
            ElementType::Bool => 7,
            ElementType::I8 => 8,
            ElementType::I16 => 9,
            ElementType::I64 => 10,
            ElementType::F64 => 11,
            ElementType::U16 => 12,
            ElementType::U64 => 13,
            ElementType::Complex64 => 14,
            ElementType::Complex128 => 15,
            ElementType::F8E4M3Fn => 16,
            ElementType::F8E5M2 => 17,
            ElementType::F8E4M3Fnuz => 18,
            ElementType::F8E5M2Fnuz => 19,
            ElementType::F8E8M0Fnu => 20,
            ElementType::F4E2M1FnX2 => 21,
        }
    }

    /// The element type whose wire code is `value`.
    pub open spec fn from_code(value: u8) -> Result<ElementType, ProtocolError> {
        match value {
            0 => Ok(ElementType::Untyped),
            1 => Ok(ElementType::U8),
            2 => Ok(ElementType::U32),
            3 => Ok(ElementType::I32),
            4 => Ok(ElementType::F32),
            5 => Ok(ElementType::F16),
            6 => Ok(ElementType::BF16),
            7 => Ok(ElementType::Bool),
            8 => Ok(ElementType::I8),
            9 => Ok(ElementType::I16),
            10 => Ok(ElementType::I64),
            11 => Ok(ElementType::F64),
            12 => Ok(ElementType::U16),
            13 => Ok(ElementType::U64),
            14 => Ok(ElementType::Complex64),
            15 => Ok(ElementType::Complex128),
            16 => Ok(ElementType::F8E4M3Fn),
            17 => Ok(ElementType::F8E5M2),
            18 => Ok(ElementType::F8E4M3Fnuz),
            19 => Ok(ElementType::F8E5M2Fnuz),
            20 => Ok(ElementType::F8E8M0Fnu),
            21 => Ok(ElementType::F4E2M1FnX2),
            _ => Err(ProtocolError::UnknownElementType(value)),
        }
    }

    /// Bytes of one element; nothing for `Untyped`.
    pub open spec fn width(self) -> nat {
        match self {
            ElementType::Untyped => 0,
            ElementType::U8 | ElementType::Bool | ElementType::I8 | ElementType::F8E4M3Fn
            | ElementType::F8E5M2 | ElementType::F8E4M3Fnuz | ElementType::F8E5M2Fnuz
            | ElementType::F8E8M0Fnu | ElementType::F4E2M1FnX2 => 1,
            ElementType::F16 | ElementType::BF16 | ElementType::I16 | ElementType::U16 => 2,
            ElementType::U32 | ElementType::I32 | ElementType::F32 => 4,
            ElementType::I64 | ElementType::F64 | ElementType::U64 | ElementType::Complex64 => 8,
            ElementType::Complex128 => 16,
        }
    }

    /// The element type's name in messages.
    pub open spec fn spec_name(self) -> Seq<char> {
        match self {
            ElementType::Untyped => "None"@,
            ElementType::U8 => "U8"@,
            ElementType::U32 => "U32"@,
            ElementType::I32 => "I32"@,
            ElementType::F32 => "F32"@,
            ElementType::F16 => "F16"@,
            ElementType::BF16 => "BF16"@,
            ElementType::Bool => "Bool"@,
            ElementType::I8 => "I8"@,
            ElementType::I16 => "I16"@,
            ElementType::I64 => "I64"@,
            ElementType::F64 => "F64"@,
            ElementType::U16 => "U16"@,
            ElementType::U64 => "U64"@,
            ElementType::Complex64 => "Complex64"@,
            ElementType::Complex128 => "Complex128"@,
            ElementType::F8E4M3Fn => "F8E4M3Fn"@,
            ElementType::F8E5M2 => "F8E5M2"@,
            ElementType::F8E4M3Fnuz => "F8E4M3Fnuz"@,
            ElementType::F8E5M2Fnuz => "F8E5M2Fnuz"@,
            ElementType::F8E8M0Fnu => "F8E8M0Fnu"@,
            ElementType::F4E2M1FnX2 => "F4E2M1FnX2"@,
        }
    }

    pub fn code(self) -> (code: u8)
        ensures
            code == self.spec_code(),
    {
        match self {
            ElementType::Untyped => 0,
            ElementType::U8 => 1,
            ElementType::U32 => 2,
            ElementType::I32 => 3,
            ElementType::F32 => 4,
            ElementType::F16 => 5,
            ElementType::BF16 => 6,
            ElementType::Bool => 7,
            ElementType::I8 => 8,
            ElementType::I16 => 9,
            ElementType::I64 => 10,
            ElementType::F64 => 11,
            ElementType::U16 => 12,
            ElementType::U64 => 13,
            ElementType::Complex64 => 14,
            ElementType::Complex128 => 15,
            ElementType::F8E4M3Fn => 16,
            ElementType::F8E5M2 => 17,
            ElementType::F8E4M3Fnuz => 18,
            ElementType::F8E5M2Fnuz => 19,
            ElementType::F8E8M0Fnu => 20,
            ElementType::F4E2M1FnX2 => 21,
        }
    }

    pub fn name(self) -> (name: &'static str)
        ensures
            name@ == self.spec_name(),
    {
        match self {
            ElementType::Untyped => "None",
            ElementType::U8 => "U8",
            ElementType::U32 => "U32",
            ElementType::I32 => "I32",
            ElementType::F32 => "F32",
            ElementType::F16 => "F16",
            ElementType::BF16 => "BF16",
            ElementType::Bool => "Bool",
            ElementType::I8 => "I8",
            ElementType::I16 => "I16",
            ElementType::I64 => "I64",
            ElementType::F64 => "F64",
            ElementType::U16 => "U16",
            ElementType::U64 => "U64",
            ElementType::Complex64 => "Complex64",
            ElementType::Complex128 => "Complex128",
            ElementType::F8E4M3Fn => "F8E4M3Fn",
            ElementType::F8E5M2 => "F8E5M2",
            ElementType::F8E4M3Fnuz => "F8E4M3Fnuz",
            ElementType::F8E5M2Fnuz => "F8E5M2Fnuz",
            ElementType::F8E8M0Fnu => "F8E8M0Fnu",
            ElementType::F4E2M1FnX2 => "F4E2M1FnX2",
        }
    }

    pub fn byte_width(self) -> (width: usize)
        ensures
            width == self.width(),
    {
        match self {
            ElementType::Untyped => 0,
            ElementType::U8 | ElementType::Bool | ElementType::I8 | ElementType::F8E4M3Fn
            | ElementType::F8E5M2 | ElementType::F8E4M3Fnuz | ElementType::F8E5M2Fnuz
            | ElementType::F8E8M0Fnu | ElementType::F4E2M1FnX2 => 1,
            ElementType::F16 | ElementType::BF16 | ElementType::I16 | ElementType::U16 => 2,
            ElementType::U32 | ElementType::I32 | ElementType::F32 => 4,
            ElementType::I64 | ElementType::F64 | ElementType::U64 | ElementType::Complex64 => 8,
            ElementType::Complex128 => 16,
        }
    }

    /// Whether the type is one of the eight-bit and four-bit storage formats.
    pub fn is_low_precision_storage(self) -> (low: bool)
        ensures
            low == (self.spec_code() >= 16),
    {
        match self {
            ElementType::F8E4M3Fn | ElementType::F8E5M2 | ElementType::F8E4M3Fnuz
            | ElementType::F8E5M2Fnuz | ElementType::F8E8M0Fnu | ElementType::F4E2M1FnX2 => true,
            _ => false,
        }
    }
}

impl TryFromSpecImpl<u8> for ElementType {
    open spec fn obeys_try_from_spec() -> bool {
        true
    }

    open spec fn try_from_spec(value: u8) -> Result<Self, ProtocolError> {
        ElementType::from_code(value)
    }
}

impl TryFrom<u8> for ElementType {
    type Error = ProtocolError;

    fn try_from(value: u8) -> (result: Result<Self, ProtocolError>) {
        match value {
            0 => Ok(ElementType::Untyped),
            1 => Ok(ElementType::U8),
            2 => Ok(ElementType::U32),
            3 => Ok(ElementType::I32),
            4 => Ok(ElementType::F32),
            5 => Ok(ElementType::F16),
            6 => Ok(ElementType::BF16),
            7 => Ok(ElementType::Bool),
            8 => Ok(ElementType::I8),
            9 => Ok(ElementType::I16),
            10 => Ok(ElementType::I64),
            11 => Ok(ElementType::F64),
            12 => Ok(ElementType::U16),
            13 => Ok(ElementType::U64),
            14 => Ok(ElementType::Complex64),
            15 => Ok(ElementType::Complex128),
            16 => Ok(ElementType::F8E4M3Fn),
            17 => Ok(ElementType::F8E5M2),
            18 => Ok(ElementType::F8E4M3Fnuz),
            19 => Ok(ElementType::F8E5M2Fnuz),
            20 => Ok(ElementType::F8E8M0Fnu),
            21 => Ok(ElementType::F4E2M1FnX2),
            _ => Err(ProtocolError::UnknownElementType(value)),
        }
    }
}

} // verus!
