//! The small typed fields of the BOOTP header: op code, hardware type and
//! flags.
use vstd::prelude::*;

verus! {

/// The BOOTP op code.
#[derive(Debug, Clone, Copy, PartialEq, Eq, Hash, Structural)]
pub enum Opcode {
    BootRequest,
    BootReply,
    Unknown(u8),
}

/// The number that stands for an op code on the wire.
pub open spec fn opcode_num(o: Opcode) -> u8 {
    match o {
        Opcode::BootRequest => 1,
        Opcode::BootReply => 2,
        Opcode::Unknown(n) => n,
    }
}

/// The Opcode value that a number stands for on the wire.
pub open spec fn opcode_from(n: u8) -> Opcode {
    if n == 1 {
        Opcode::BootRequest
    } else if n == 2 {
        Opcode::BootReply
    } else {
        Opcode::Unknown(n)
    }
}

impl Opcode {
    /// The op code that a number stands for on the wire.
    pub fn from_u8(n: u8) -> (o: Opcode)
        ensures
            o == opcode_from(n),
            opcode_num(o) == n,
    {
        match n {
            1 => Opcode::BootRequest,
            2 => Opcode::BootReply,
            _ => Opcode::Unknown(n),
        }
    }

    /// The number that this op code stands for on the wire.
    pub fn to_u8(&self) -> (n: u8)
        ensures
            n == opcode_num(*self),
    {
        match self {
            Opcode::BootRequest => 1,
            Opcode::BootReply => 2,
            Opcode::Unknown(n) => *n,
        }
    }
}

/// The hardware address type (RFC 3232).
#[derive(Debug, Clone, Copy, PartialEq, Eq, Hash, Structural)]
pub enum HType {
    Eth,
    ExperimentalEth,
    AX25,
    ProteonTokenRing,
    Chaos,
    IEEE802,
    Arcnet,
    Unknown(u8),
}

/// The number that stands for a hardware type on the wire.
pub open spec fn htype_num(h: HType) -> u8 {
    match h {
        HType::Eth => 1,
        HType::ExperimentalEth => 2,
        HType::AX25 => 3,
        HType::ProteonTokenRing => 4,
        HType::Chaos => 5,
        HType::IEEE802 => 6,
        HType::Arcnet => 7,
        HType::Unknown(n) => n,
    }
}

/// The HType value that a number stands for on the wire.
pub open spec fn htype_from(n: u8) -> HType {
    if n == 1 {
        HType::Eth
    } else if n == 2 {
        HType::ExperimentalEth
    } else if n == 3 {
        HType::AX25
    } else if n == 4 {
        HType::ProteonTokenRing
    } else if n == 5 {
        HType::Chaos
    } else if n == 6 {
        HType::IEEE802
    } else if n == 7 {
        HType::Arcnet
    } else {
        HType::Unknown(n)
    }
}

impl HType {
    /// The hardware type that a number stands for on the wire.
    pub fn from_u8(n: u8) -> (h: HType)
        ensures
            h == htype_from(n),
            htype_num(h) == n,
    {
        match n {
            1 => HType::Eth,
            2 => HType::ExperimentalEth,
            3 => HType::AX25,
            4 => HType::ProteonTokenRing,
            5 => HType::Chaos,
            6 => HType::IEEE802,
            7 => HType::Arcnet,
            _ => HType::Unknown(n),
        }
    }

    /// The number that this hardware type stands for on the wire.
    pub fn to_u8(&self) -> (n: u8)
        ensures
            n == htype_num(*self),
    {
        match self {
            HType::Eth => 1,
            HType::ExperimentalEth => 2,
            HType::AX25 => 3,
            HType::ProteonTokenRing => 4,
            HType::Chaos => 5,
            HType::IEEE802 => 6,
            HType::Arcnet => 7,
            HType::Unknown(n) => *n,
        }
    }
}

/// The flags field; its most significant bit is the broadcast flag.
#[derive(Debug, Clone, Copy, PartialEq, Eq, Hash, Structural)]
pub struct Flags(u16);

impl View for Flags {
    type V = u16;

    closed spec fn view(&self) -> u16 {
        self.0
    }
}

impl Default for Flags {
    fn default() -> (f: Flags)
        ensures
            f@ == 0,
    {
        Flags(0)
    }
}

impl Flags {
    /// Flags with the given bits.
    pub fn new(n: u16) -> (f: Flags)
        ensures
            f@ == n,
    {
        Flags(n)
    }

    /// The bits of the flags field.
    pub fn bits(&self) -> (n: u16)
        ensures
            n == self@,
    {
        self.0
    }

    /// Whether the broadcast bit is set.
    pub fn broadcast(&self) -> (b: bool)
        ensures
            b == (self@ >= 0x8000),
    {
        self.0 >= 0x8000
    }

    /// The same flags with the broadcast bit set.
    pub fn set_broadcast(self) -> (f: Flags)
        ensures
            f@ == (if self@ >= 0x8000 { self@ } else { (self@ + 0x8000) as u16 }),
    {
        let v = self.0;
        let r = v | 0x8000;
        assert(r == (if v >= 0x8000 { v } else { (v + 0x8000) as u16 })) by (bit_vector)
            requires
                r == v | 0x8000,
        ;
        Flags(r)
    }
}

} // verus!
