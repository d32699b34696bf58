//! DHCP options: the codes, the typed option values, and the option store
//! of a message.
//!
//! The store is modelled as a map from the option code to the option's wire
//! payload (`OptionValue`). Options are kept ordered by code and written out in
//! that order.
use vstd::prelude::*;
use crate::wire::{extend_bytes, extend_range};

verus! {

/// A DHCP option code.
#[derive(Debug, Clone, Copy, PartialEq, Eq, Hash, Structural)]
pub enum OptionCode {
    Pad,
    SubnetMask,
    Router,
    DomainNameServer,
    Hostname,
    DomainName,
    RequestedIpAddress,
    AddressLeaseTime,
    OptionOverload,
    MessageType,
    ServerIdentifier,
    ParameterRequestList,
    Message,
    MaxMessageSize,
    Renewal,
    Rebinding,
    ClassIdentifier,
    ClientIdentifier,
    BootfileName,
    End,
    Unknown(u8),
}

/// The number that stands for an option code on the wire.
pub open spec fn code_num(c: OptionCode) -> u8 {
    match c {
        OptionCode::Pad => 0,
        OptionCode::SubnetMask => 1,
        OptionCode::Router => 3,
        OptionCode::DomainNameServer => 6,
        OptionCode::Hostname => 12,
        OptionCode::DomainName => 15,
        OptionCode::RequestedIpAddress => 50,
        OptionCode::AddressLeaseTime => 51,
        OptionCode::OptionOverload => 52,
        OptionCode::MessageType => 53,
        OptionCode::ServerIdentifier => 54,
        OptionCode::ParameterRequestList => 55,
        OptionCode::Message => 56,
        OptionCode::MaxMessageSize => 57,
        OptionCode::Renewal => 58,
        OptionCode::Rebinding => 59,
        OptionCode::ClassIdentifier => 60,
        OptionCode::ClientIdentifier => 61,
        OptionCode::BootfileName => 67,
        OptionCode::End => 255,
        OptionCode::Unknown(n) => n,
    }
}

/// The OptionCode value that a number stands for on the wire.
pub open spec fn code_from(n: u8) -> OptionCode {
    if n == 0 {
        OptionCode::Pad
    } else if n == 1 {
        OptionCode::SubnetMask
    } else if n == 3 {
        OptionCode::Router
    } else if n == 6 {
        OptionCode::DomainNameServer
    } else if n == 12 {
        OptionCode::Hostname
    } else if n == 15 {
        OptionCode::DomainName
    } else if n == 50 {
        OptionCode::RequestedIpAddress
    } else if n == 51 {
        OptionCode::AddressLeaseTime
    } else if n == 52 {
        OptionCode::OptionOverload
    } else if n == 53 {
        OptionCode::MessageType
    } else if n == 54 {
        OptionCode::ServerIdentifier
    } else if n == 55 {
        OptionCode::ParameterRequestList
    } else if n == 56 {
        OptionCode::Message
    } else if n == 57 {
        OptionCode::MaxMessageSize
    } else if n == 58 {
        OptionCode::Renewal
    } else if n == 59 {
        OptionCode::Rebinding
    } else if n == 60 {
        OptionCode::ClassIdentifier
    } else if n == 61 {
        OptionCode::ClientIdentifier
    } else if n == 67 {
        OptionCode::BootfileName
    } else if n == 255 {
        OptionCode::End
    } else {
        OptionCode::Unknown(n)
    }
}

impl OptionCode {
    /// The code that a number stands for on the wire.
    pub fn from_u8(n: u8) -> (c: OptionCode)
        ensures
            c == code_from(n),
            code_num(c) == n,
    {
        match n {
            0 => OptionCode::Pad,
            1 => OptionCode::SubnetMask,
            3 => OptionCode::Router,
            6 => OptionCode::DomainNameServer,
            12 => OptionCode::Hostname,
            15 => OptionCode::DomainName,
            50 => OptionCode::RequestedIpAddress,
            51 => OptionCode::AddressLeaseTime,
            52 => OptionCode::OptionOverload,
            53 => OptionCode::MessageType,
            54 => OptionCode::ServerIdentifier,
            55 => OptionCode::ParameterRequestList,
            56 => OptionCode::Message,
            57 => OptionCode::MaxMessageSize,
            58 => OptionCode::Renewal,
            59 => OptionCode::Rebinding,
            60 => OptionCode::ClassIdentifier,
            61 => OptionCode::ClientIdentifier,
            67 => OptionCode::BootfileName,
            255 => OptionCode::End,
            _ => OptionCode::Unknown(n),
        }
    }

    /// The number that this code stands for on the wire.
    pub fn to_u8(&self) -> (n: u8)
        ensures
            n == code_num(*self),
    {
        match self {
            OptionCode::Pad => 0,
            OptionCode::SubnetMask => 1,
            OptionCode::Router => 3,
            OptionCode::DomainNameServer => 6,
            OptionCode::Hostname => 12,
            OptionCode::DomainName => 15,
            OptionCode::RequestedIpAddress => 50,
            OptionCode::AddressLeaseTime => 51,
            OptionCode::OptionOverload => 52,
            OptionCode::MessageType => 53,
            OptionCode::ServerIdentifier => 54,
            OptionCode::ParameterRequestList => 55,
            OptionCode::Message => 56,
            OptionCode::MaxMessageSize => 57,
            OptionCode::Renewal => 58,
            OptionCode::Rebinding => 59,
            OptionCode::ClassIdentifier => 60,
            OptionCode::ClientIdentifier => 61,
            OptionCode::BootfileName => 67,
            OptionCode::End => 255,
            OptionCode::Unknown(n) => *n,
        }
    }
}

/// The DHCP message type carried by option 53.
#[derive(Debug, Clone, Copy, PartialEq, Eq, Hash, Structural)]
pub enum MessageType {
    Discover,
    Offer,
    Request,
    Decline,
    Ack,
    Nak,
    Release,
    Inform,
    Unknown(u8),
}

/// The number that stands for a message type on the wire.
pub open spec fn msg_type_num(t: MessageType) -> u8 {
    match t {
        MessageType::Discover => 1,
        MessageType::Offer => 2,
        MessageType::Request => 3,
        MessageType::Decline => 4,
        MessageType::Ack => 5,
        MessageType::Nak => 6,
        MessageType::Release => 7,
        MessageType::Inform => 8,
        MessageType::Unknown(n) => n,
    }
}

/// The MessageType value that a number stands for on the wire.
pub open spec fn msg_type_from(n: u8) -> MessageType {
    if n == 1 {
        MessageType::Discover
    } else if n == 2 {
        MessageType::Offer
    } else if n == 3 {
        MessageType::Request
    } else if n == 4 {
        MessageType::Decline
    } else if n == 5 {
        MessageType::Ack
    } else if n == 6 {
        MessageType::Nak
    } else if n == 7 {
        MessageType::Release
    } else if n == 8 {
        MessageType::Inform
    } else {
        MessageType::Unknown(n)
    }
}

impl MessageType {
    /// The message type that a number stands for on the wire.
    pub fn from_u8(n: u8) -> (t: MessageType)
        ensures
            t == msg_type_from(n),
            msg_type_num(t) == n,
    {
        match n {
            1 => MessageType::Discover,
            2 => MessageType::Offer,
            3 => MessageType::Request,
            4 => MessageType::Decline,
            5 => MessageType::Ack,
            6 => MessageType::Nak,
            7 => MessageType::Release,
            8 => MessageType::Inform,
            _ => MessageType::Unknown(n),
        }
    }

    /// The number that this message type stands for on the wire.
    pub fn to_u8(&self) -> (n: u8)
        ensures
            n == msg_type_num(*self),
    {
        match self {
            MessageType::Discover => 1,
            MessageType::Offer => 2,
            MessageType::Request => 3,
            MessageType::Decline => 4,
            MessageType::Ack => 5,
            MessageType::Nak => 6,
            MessageType::Release => 7,
            MessageType::Inform => 8,
            MessageType::Unknown(n) => *n,
        }
    }
}

/// An option that this library does not give a type of its own: its code and
/// its raw payload.
#[derive(Debug, Clone, PartialEq, Eq)]
pub struct UnknownOption {
    code: u8,
    data: Vec<u8>,
}

impl UnknownOption {
    pub fn new(code: OptionCode, data: Vec<u8>) -> (o: UnknownOption)
        ensures
            o.spec_code() == code_num(code),
            o.spec_data() == data@,
    {
        UnknownOption { code: code.to_u8(), data }
    }

    pub closed spec fn spec_code(&self) -> u8 {
        self.code
    }

    pub closed spec fn spec_data(&self) -> Seq<u8> {
        self.data@
    }

    /// The option's code.
    pub fn code(&self) -> (c: OptionCode)
        ensures
            c == code_from(self.spec_code()),
            code_num(c) == self.spec_code(),
    {
        OptionCode::from_u8(self.code)
    }

    /// The option's raw payload.
    pub fn data(&self) -> (d: &[u8])
        ensures
            d@ == self.spec_data(),
    {
        self.data.as_slice()
    }
}

/// One DHCP option.
#[derive(Debug, Clone, PartialEq, Eq)]
pub enum DhcpOption {
    MessageType(MessageType),
    OptionOverload(u8),
    Hostname(Vec<u8>),
    DomainName(Vec<u8>),
    Message(Vec<u8>),
    BootfileName(Vec<u8>),
    ClientIdentifier(Vec<u8>),
    ParameterRequestList(Vec<OptionCode>),
    Unknown(UnknownOption),
}

/// What the store holds for one option code: the payload as it stands on the
/// wire, and whether the option is held as one of the typed variants (rather
/// than as `DhcpOption::Unknown`).
pub struct OptionValue {
    pub data: Seq<u8>,
    pub typed: bool,
}

/// The code of an option, as a number.
pub open spec fn opt_code(o: DhcpOption) -> u8 {
    match o {
        DhcpOption::MessageType(_) => 53,
        DhcpOption::OptionOverload(_) => 52,
        DhcpOption::Hostname(_) => 12,
        DhcpOption::DomainName(_) => 15,
        DhcpOption::Message(_) => 56,
        DhcpOption::BootfileName(_) => 67,
        DhcpOption::ClientIdentifier(_) => 61,
        DhcpOption::ParameterRequestList(_) => 55,
        DhcpOption::Unknown(u) => u.spec_code(),
    }
}

/// The payload bytes of an option.
pub open spec fn opt_data(o: DhcpOption) -> Seq<u8> {
    match o {
        DhcpOption::MessageType(t) => seq![msg_type_num(t)],
        DhcpOption::OptionOverload(v) => seq![v],
        DhcpOption::Hostname(d) => d@,
        DhcpOption::DomainName(d) => d@,
        DhcpOption::Message(d) => d@,
        DhcpOption::BootfileName(d) => d@,
        DhcpOption::ClientIdentifier(d) => d@,
        DhcpOption::ParameterRequestList(cs) => cs@.map_values(|c: OptionCode| code_num(c)),
        DhcpOption::Unknown(u) => u.spec_data(),
    }
}

/// What the store holds for an option.
pub open spec fn opt_value(o: DhcpOption) -> OptionValue {
    OptionValue { data: opt_data(o), typed: !(o is Unknown) }
}

/// Whether a payload under a code is read as a typed option.
pub open spec fn typed_code(c: u8, data: Seq<u8>) -> bool {
    ||| (c == 52 || c == 53) && data.len() == 1
    ||| c == 12 || c == 15 || c == 55 || c == 56 || c == 61 || c == 67
}

/// What a payload read from the wire under a code becomes in the store.
pub open spec fn value_of(c: u8, data: Seq<u8>) -> OptionValue {
    OptionValue { data, typed: typed_code(c, data) }
}

/// The named variants hold the values that their numbers stand for: a
/// message type or a requested code that has a name is held under that name,
/// not as `Unknown` of its number.
pub open spec fn normal(o: DhcpOption) -> bool {
    match o {
        DhcpOption::MessageType(t) => msg_type_from(msg_type_num(t)) == t,
        DhcpOption::ParameterRequestList(cs) => forall|i: int|
            0 <= i < cs@.len() ==> code_from(code_num(#[trigger] cs@[i])) == cs@[i],
        _ => true,
    }
}

/// An option is canonical when it is the one that reading its own payload
/// from the wire gives back.
pub open spec fn canonical(o: DhcpOption) -> bool {
    &&& opt_value(o) == value_of(opt_code(o), opt_data(o))
    &&& normal(o)
}

impl DhcpOption {
    /// The option's code.
    pub fn code(&self) -> (c: OptionCode)
        ensures
            c == code_from(opt_code(*self)),
            code_num(c) == opt_code(*self),
    {
        match self {
            DhcpOption::MessageType(_) => OptionCode::MessageType,
            DhcpOption::OptionOverload(_) => OptionCode::OptionOverload,
            DhcpOption::Hostname(_) => OptionCode::Hostname,
            DhcpOption::DomainName(_) => OptionCode::DomainName,
            DhcpOption::Message(_) => OptionCode::Message,
            DhcpOption::BootfileName(_) => OptionCode::BootfileName,
            DhcpOption::ClientIdentifier(_) => OptionCode::ClientIdentifier,
            DhcpOption::ParameterRequestList(_) => OptionCode::ParameterRequestList,
            DhcpOption::Unknown(u) => u.code(),
        }
    }

    /// The option that a payload read under code `c` becomes.
    pub fn from_raw(c: u8, data: Vec<u8>) -> (o: DhcpOption)
        ensures
            opt_code(o) == c,
            opt_value(o) == value_of(c, data@),
            normal(o),
    {
        if (c == 52 || c == 53) && data.len() == 1 {
            assert(data@ =~= seq![data@[0]]);
            if c == 53 {
                DhcpOption::MessageType(MessageType::from_u8(data[0]))
            } else {
                DhcpOption::OptionOverload(data[0])
            }
        } else if c == 12 {
            DhcpOption::Hostname(data)
        } else if c == 15 {
            DhcpOption::DomainName(data)
        } else if c == 56 {
            DhcpOption::Message(data)
        } else if c == 67 {
            DhcpOption::BootfileName(data)
        } else if c == 61 {
            DhcpOption::ClientIdentifier(data)
        } else if c == 55 {
            let mut codes: Vec<OptionCode> = Vec::new();
            let mut i: usize = 0;
            while i < data.len()
                invariant
                    0 <= i <= data@.len(),
                    codes@.len() == i,
                    codes@.map_values(|k: OptionCode| code_num(k)) =~= data@.subrange(0, i as int),
                    forall|j: int| 0 <= j < i ==> code_from(code_num(#[trigger] codes@[j])) == codes@[j],
                decreases data@.len() - i,
            {
                let k = OptionCode::from_u8(data[i]);
                let ghost before = codes@;
                codes.push(k);
                assert(codes@ == before.push(k));
                assert(codes@.map_values(|k: OptionCode| code_num(k))[i as int] == data@[i as int]);
                i = i + 1;
                assert(codes@.map_values(|k: OptionCode| code_num(k)) =~= data@.subrange(0, i as int));
            }
            assert(data@.subrange(0, i as int) =~= data@);
            DhcpOption::ParameterRequestList(codes)
        } else {
            DhcpOption::Unknown(UnknownOption { code: c, data })
        }
    }

    /// The option's payload as it stands on the wire.
    pub fn payload(&self) -> (d: Vec<u8>)
        ensures
            d@ == opt_data(*self),
    {
        let mut out: Vec<u8> = Vec::new();
        match self {
            DhcpOption::MessageType(t) => {
                out.push(t.to_u8());
                assert(out@ =~= seq![msg_type_num(*t)]);
            },
            DhcpOption::OptionOverload(v) => {
                out.push(*v);
                assert(out@ =~= seq![*v]);
            },
            DhcpOption::Hostname(d) => extend_bytes(&mut out, d.as_slice()),
            DhcpOption::DomainName(d) => extend_bytes(&mut out, d.as_slice()),
            DhcpOption::Message(d) => extend_bytes(&mut out, d.as_slice()),
            DhcpOption::BootfileName(d) => extend_bytes(&mut out, d.as_slice()),
            DhcpOption::ClientIdentifier(d) => extend_bytes(&mut out, d.as_slice()),
            DhcpOption::ParameterRequestList(cs) => {
                let mut i: usize = 0;
                while i < cs.len()
                    invariant
                        0 <= i <= cs@.len(),
                        out@ =~= cs@.subrange(0, i as int).map_values(|k: OptionCode| code_num(k)),
                    decreases cs@.len() - i,
                {
                    out.push(cs[i].to_u8());
                    i = i + 1;
                    assert(out@ =~= cs@.subrange(0, i as int).map_values(|k: OptionCode| code_num(k)));
                }
                assert(cs@.subrange(0, i as int) =~= cs@);
            },
            DhcpOption::Unknown(u) => extend_bytes(&mut out, u.data.as_slice()),
        }
        out
    }

    /// Appends this option as it stands on the wire.
    pub fn encode(&self, buf: &mut Vec<u8>)
        ensures
            final(buf)@ == old(buf)@ + encode_frags(opt_code(*self), opt_data(*self)),
    {
        let d = self.payload();
        push_frags(buf, self.code_u8(), d.as_slice());
    }

    fn code_u8(&self) -> (c: u8)
        ensures
            c == opt_code(*self),
    {
        match self {
            DhcpOption::MessageType(_) => 53,
            DhcpOption::OptionOverload(_) => 52,
            DhcpOption::Hostname(_) => 12,
            DhcpOption::DomainName(_) => 15,
            DhcpOption::Message(_) => 56,
            DhcpOption::BootfileName(_) => 67,
            DhcpOption::ClientIdentifier(_) => 61,
            DhcpOption::ParameterRequestList(_) => 55,
            DhcpOption::Unknown(u) => u.code,
        }
    }
}

// ---------------------------------------------------------------------------
// The store: a sequence of options ordered by code, seen as a map.

/// The map that a sequence of options stands for; a later entry wins.
pub open spec fn map_of(s: Seq<DhcpOption>) -> Map<u8, OptionValue>
    decreases s.len(),
{
    if s.len() == 0 {
        Map::empty()
    } else {
        map_of(s.drop_last()).insert(opt_code(s.last()), opt_value(s.last()))
    }
}

/// Codes strictly increase along the sequence, and none is Pad (0) or End (255).
pub open spec fn ordered_codes(s: Seq<DhcpOption>) -> bool {
    &&& forall|i: int, j: int| 0 <= i < j < s.len() ==> opt_code(s[i]) < opt_code(s[j])
    &&& forall|i: int| 0 <= i < s.len() ==> 0 < #[trigger] opt_code(s[i]) < 255
}

/// Dropping the last option of an ordered sequence leaves it ordered.
pub proof fn lemma_ordered_prefix(s: Seq<DhcpOption>)
    requires
        ordered_codes(s),
        s.len() > 0,
    ensures
        ordered_codes(s.drop_last()),
{
    let t = s.drop_last();
    assert forall|a: int, b: int| 0 <= a < b < t.len() implies opt_code(t[a]) < opt_code(t[b]) by {
        assert(t[a] == s[a] && t[b] == s[b]);
    }
    assert forall|a: int| 0 <= a < t.len() implies 0 < #[trigger] opt_code(t[a]) < 255 by {
        assert(t[a] == s[a]);
    }
}

pub proof fn lemma_map_of_contains(s: Seq<DhcpOption>, c: u8)
    ensures
        map_of(s).contains_key(c) <==> exists|i: int| 0 <= i < s.len() && opt_code(s[i]) == c,
    decreases s.len(),
{
    if s.len() > 0 {
        lemma_map_of_contains(s.drop_last(), c);
        if map_of(s.drop_last()).contains_key(c) {
            let i = choose|i: int| 0 <= i < s.drop_last().len() && opt_code(s.drop_last()[i]) == c;
            assert(opt_code(s[i]) == c);
        }
        if exists|i: int| 0 <= i < s.len() && opt_code(s[i]) == c {
            let i = choose|i: int| 0 <= i < s.len() && opt_code(s[i]) == c;
            if i < s.len() - 1 {
                assert(opt_code(s.drop_last()[i]) == c);
            }
        }
    }
}

/// In an ordered sequence, the map holds at each entry's code that entry's value.
pub proof fn lemma_map_of_at(s: Seq<DhcpOption>, i: int)
    requires
        ordered_codes(s),
        0 <= i < s.len(),
    ensures
        map_of(s).contains_key(opt_code(s[i])),
        map_of(s)[opt_code(s[i])] == opt_value(s[i]),
    decreases s.len(),
{
    if i < s.len() - 1 {
        let t = s.drop_last();
        lemma_ordered_prefix(s);
        lemma_map_of_at(t, i);
        assert(t[i] == s[i]);
        assert(opt_code(s[i]) < opt_code(s.last()));
    }
}

/// In an ordered sequence, every key of the map is the code of some entry,
/// whose value it holds.
pub proof fn lemma_map_of_key(s: Seq<DhcpOption>, c: u8)
    requires
        ordered_codes(s),
        map_of(s).contains_key(c),
    ensures
        exists|i: int| 0 <= i < s.len() && opt_code(s[i]) == c && map_of(s)[c] == opt_value(s[i]),
{
    lemma_map_of_contains(s, c);
    let i = choose|i: int| 0 <= i < s.len() && opt_code(s[i]) == c;
    lemma_map_of_at(s, i);
}

/// The map of an ordered sequence is any map whose keys are exactly the
/// entries' codes and which holds each entry's value at its code.
pub proof fn lemma_map_of_ext_to(t: Seq<DhcpOption>, m: Map<u8, OptionValue>)
    requires
        ordered_codes(t),
        forall|i: int| 0 <= i < t.len() ==> m.contains_key(opt_code(#[trigger] t[i]))
            && m[opt_code(t[i])] == opt_value(t[i]),
        forall|k: u8| m.contains_key(k) ==> exists|i: int| 0 <= i < t.len() && opt_code(#[trigger] t[i]) == k,
    ensures
        map_of(t) == m,
{
    assert forall|k: u8| map_of(t).contains_key(k) <==> m.contains_key(k) by {
        lemma_map_of_contains(t, k);
    }
    assert forall|k: u8| #[trigger] map_of(t).contains_key(k) implies map_of(t)[k] == m[k] by {
        lemma_map_of_key(t, k);
    }
    assert(map_of(t) =~= m);
}

/// The options of a sequence by code; a later entry wins.
pub open spec fn entry_map(s: Seq<DhcpOption>) -> Map<u8, DhcpOption>
    decreases s.len(),
{
    if s.len() == 0 {
        Map::empty()
    } else {
        entry_map(s.drop_last()).insert(opt_code(s.last()), s.last())
    }
}

pub proof fn lemma_entry_map_contains(s: Seq<DhcpOption>, c: u8)
    ensures
        entry_map(s).contains_key(c) <==> exists|i: int| 0 <= i < s.len() && opt_code(s[i]) == c,
    decreases s.len(),
{
    if s.len() > 0 {
        lemma_entry_map_contains(s.drop_last(), c);
        if entry_map(s.drop_last()).contains_key(c) {
            let i = choose|i: int| 0 <= i < s.drop_last().len() && opt_code(s.drop_last()[i]) == c;
            assert(opt_code(s[i]) == c);
        }
        if exists|i: int| 0 <= i < s.len() && opt_code(s[i]) == c {
            let i = choose|i: int| 0 <= i < s.len() && opt_code(s[i]) == c;
            if i < s.len() - 1 {
                assert(opt_code(s.drop_last()[i]) == c);
            }
        }
    }
}

/// In an ordered sequence, each entry is the option held at its code.
pub proof fn lemma_entry_map_at(s: Seq<DhcpOption>, i: int)
    requires
        ordered_codes(s),
        0 <= i < s.len(),
    ensures
        entry_map(s).contains_key(opt_code(s[i])),
        entry_map(s)[opt_code(s[i])] == s[i],
    decreases s.len(),
{
    if i < s.len() - 1 {
        let t = s.drop_last();
        lemma_ordered_prefix(s);
        lemma_entry_map_at(t, i);
        assert(t[i] == s[i]);
        assert(opt_code(s[i]) < opt_code(s.last()));
    }
}

/// The option map of an ordered sequence is any map whose keys are exactly
/// the entries' codes and which holds each entry at its code.
pub proof fn lemma_entry_map_ext_to(t: Seq<DhcpOption>, m: Map<u8, DhcpOption>)
    requires
        ordered_codes(t),
        forall|i: int| 0 <= i < t.len() ==> m.contains_key(opt_code(#[trigger] t[i])) && m[opt_code(t[i])] == t[i],
        forall|k: u8| m.contains_key(k) ==> exists|i: int| 0 <= i < t.len() && opt_code(#[trigger] t[i]) == k,
    ensures
        entry_map(t) == m,
{
    assert forall|k: u8| entry_map(t).contains_key(k) <==> m.contains_key(k) by {
        lemma_entry_map_contains(t, k);
    }
    assert forall|k: u8| #[trigger] entry_map(t).contains_key(k) implies entry_map(t)[k] == m[k] by {
        lemma_entry_map_contains(t, k);
        let i = choose|i: int| 0 <= i < t.len() && opt_code(t[i]) == k;
        lemma_entry_map_at(t, i);
    }
    assert(entry_map(t) =~= m);
}

// ---------------------------------------------------------------------------
// The options field on the wire.

/// Adds a fragment of payload under code `c`: fragments of the same code are
/// joined in the order in which they come (RFC 3396).
pub open spec fn append_frag(acc: Map<u8, Seq<u8>>, c: u8, d: Seq<u8>) -> Map<u8, Seq<u8>> {
    if acc.contains_key(c) {
        acc.insert(c, acc[c] + d)
    } else {
        acc.insert(c, d)
    }
}

/// Reads a stream of options into `acc`. Pad bytes are skipped; reading stops
/// at End, at the end of the stream, or at an option whose length runs past
/// the end of the stream.
pub open spec fn parse_raw(s: Seq<u8>, acc: Map<u8, Seq<u8>>) -> Map<u8, Seq<u8>>
    decreases s.len(),
{
    if s.len() == 0 || s[0] == 255 {
        acc
    } else if s[0] == 0 {
        parse_raw(s.drop_first(), acc)
    } else if s.len() < 2 || s.len() < 2 + s[1] {
        acc
    } else {
        parse_raw(
            s.subrange(2 + s[1], s.len() as int),
            append_frag(acc, s[0], s.subrange(2, 2 + s[1])),
        )
    }
}

/// The store that a map of joined payloads becomes.
pub open spec fn typed_map(raw: Map<u8, Seq<u8>>) -> Map<u8, OptionValue> {
    Map::new(|c: u8| raw.contains_key(c), |c: u8| value_of(c, raw[c]))
}

/// The options that a stream of option bytes holds.
pub open spec fn parse_options(s: Seq<u8>) -> Map<u8, OptionValue> {
    typed_map(parse_raw(s, Map::empty()))
}

/// An option on the wire: code, length, payload; a payload longer than 255
/// bytes is written as consecutive fragments of the same code (RFC 3396).
pub open spec fn encode_frags(c: u8, d: Seq<u8>) -> Seq<u8>
    decreases d.len(),
{
    if d.len() <= 255 {
        seq![c, d.len() as u8] + d
    } else {
        seq![c, 255u8] + d.subrange(0, 255) + encode_frags(c, d.subrange(255, d.len() as int))
    }
}

/// An option takes at least its code and length bytes.
pub proof fn lemma_frags_len(c: u8, d: Seq<u8>)
    ensures
        encode_frags(c, d).len() >= 2,
    decreases d.len(),
{
    if d.len() > 255 {
        lemma_frags_len(c, d.subrange(255, d.len() as int));
    }
}

/// The options of a sequence, one after the other.
pub open spec fn concat_frags(s: Seq<DhcpOption>) -> Seq<u8>
    decreases s.len(),
{
    if s.len() == 0 {
        Seq::empty()
    } else {
        concat_frags(s.drop_last()) + encode_frags(opt_code(s.last()), opt_data(s.last()))
    }
}

/// The options field written for a sequence of options: the options, then
/// End; nothing at all when there is no option.
pub open spec fn encode_options(s: Seq<DhcpOption>) -> Seq<u8> {
    if s.len() == 0 {
        Seq::empty()
    } else {
        concat_frags(s).push(255)
    }
}

/// Reading one option's fragments adds its whole payload under its code.
pub proof fn lemma_parse_frags(c: u8, d: Seq<u8>, t: Seq<u8>, acc: Map<u8, Seq<u8>>)
    requires
        c != 0,
        c != 255,
    ensures
        parse_raw(encode_frags(c, d) + t, acc) == parse_raw(t, append_frag(acc, c, d)),
    decreases d.len(),
{
    let s = encode_frags(c, d) + t;
    if d.len() <= 255 {
        assert(s[0] == c);
        assert(s[1] == d.len());
        assert(s.subrange(2, 2 + s[1]) =~= d);
        assert(s.subrange(2 + s[1], s.len() as int) =~= t);
    } else {
        let d1 = d.subrange(0, 255);
        let d2 = d.subrange(255, d.len() as int);
        assert(s[0] == c);
        assert(s[1] == 255);
        assert(s.subrange(2, 2 + s[1]) =~= d1);
        assert(s.subrange(2 + s[1], s.len() as int) =~= encode_frags(c, d2) + t);
        lemma_parse_frags(c, d2, t, append_frag(acc, c, d1));
        assert(d1 + d2 =~= d);
        if acc.contains_key(c) {
            assert((acc[c] + d1) + d2 =~= acc[c] + d);
        }
        assert(append_frag(append_frag(acc, c, d1), c, d2) =~= append_frag(acc, c, d));
    }
}

/// Adds the payloads of a sequence of options, first to last.
pub open spec fn fold_frags(acc: Map<u8, Seq<u8>>, s: Seq<DhcpOption>) -> Map<u8, Seq<u8>>
    decreases s.len(),
{
    if s.len() == 0 {
        acc
    } else {
        append_frag(fold_frags(acc, s.drop_last()), opt_code(s.last()), opt_data(s.last()))
    }
}

/// Reading the written options of a sequence adds their payloads in order.
pub proof fn lemma_parse_concat(s: Seq<DhcpOption>, t: Seq<u8>, acc: Map<u8, Seq<u8>>)
    requires
        forall|i: int| 0 <= i < s.len() ==> 0 < #[trigger] opt_code(s[i]) < 255,
    ensures
        parse_raw(concat_frags(s) + t, acc) == parse_raw(t, fold_frags(acc, s)),
    decreases s.len(),
{
    if s.len() > 0 {
        let p = s.drop_last();
        let l = s.last();
        assert forall|i: int| 0 <= i < p.len() implies 0 < #[trigger] opt_code(p[i]) < 255 by {
            assert(p[i] == s[i]);
        }
        assert(opt_code(s[s.len() - 1]) < 255);
        let e = encode_frags(opt_code(l), opt_data(l));
        assert(concat_frags(s) + t =~= concat_frags(p) + (e + t));
        lemma_parse_concat(p, e + t, acc);
        lemma_parse_frags(opt_code(l), opt_data(l), t, fold_frags(acc, p));
    }
}

/// For codes that are all different, adding the payloads one by one to a map
/// that holds none of them gives the map of the sequence, each payload read
/// under its code.
pub proof fn lemma_fold_distinct(acc: Map<u8, Seq<u8>>, s: Seq<DhcpOption>)
    requires
        forall|i: int, j: int| 0 <= i < j < s.len() ==> opt_code(s[i]) != opt_code(s[j]),
        forall|i: int| 0 <= i < s.len() ==> !acc.contains_key(opt_code(#[trigger] s[i])),
    ensures
        forall|k: u8| #[trigger] fold_frags(acc, s).contains_key(k) <==> (acc.contains_key(k)
            || exists|i: int| 0 <= i < s.len() && opt_code(s[i]) == k),
        forall|k: u8| acc.contains_key(k) ==> #[trigger] fold_frags(acc, s)[k] == acc[k],
        forall|i: int| 0 <= i < s.len() ==> #[trigger] fold_frags(acc, s)[opt_code(s[i])] == opt_data(s[i]),
    decreases s.len(),
{
    if s.len() > 0 {
        let p = s.drop_last();
        assert forall|i: int, j: int| 0 <= i < j < p.len() implies opt_code(p[i]) != opt_code(p[j]) by {
            assert(p[i] == s[i] && p[j] == s[j]);
        }
        assert forall|i: int| 0 <= i < p.len() implies !acc.contains_key(opt_code(#[trigger] p[i])) by {
            assert(p[i] == s[i]);
        }
        lemma_fold_distinct(acc, p);
        let l = s.last();
        let f = fold_frags(acc, p);
        assert(!f.contains_key(opt_code(l))) by {
            if f.contains_key(opt_code(l)) {
                if !acc.contains_key(opt_code(l)) {
                    let i = choose|i: int| 0 <= i < p.len() && opt_code(p[i]) == opt_code(l);
                    assert(p[i] == s[i]);
                    assert(opt_code(s[i]) != opt_code(s[s.len() - 1]));
                }
            }
        }
        assert forall|k: u8| #[trigger] fold_frags(acc, s).contains_key(k) <==> (acc.contains_key(k)
            || exists|i: int| 0 <= i < s.len() && opt_code(s[i]) == k) by {
            if exists|i: int| 0 <= i < s.len() && opt_code(s[i]) == k {
                let i = choose|i: int| 0 <= i < s.len() && opt_code(s[i]) == k;
                if i < s.len() - 1 {
                    assert(p[i] == s[i]);
                }
            }
            if exists|i: int| 0 <= i < p.len() && opt_code(p[i]) == k {
                let i = choose|i: int| 0 <= i < p.len() && opt_code(p[i]) == k;
                assert(p[i] == s[i]);
            }
        }
        assert forall|i: int| 0 <= i < s.len() implies #[trigger] fold_frags(acc, s)[opt_code(s[i])] == opt_data(s[i]) by {
            if i < s.len() - 1 {
                assert(p[i] == s[i]);
                assert(opt_code(s[i]) != opt_code(s[s.len() - 1]));
            }
        }
    }
}

/// Reading back the written options of an ordered sequence of canonical
/// options gives the map of the sequence.
pub proof fn lemma_options_roundtrip(s: Seq<DhcpOption>)
    requires
        ordered_codes(s),
        forall|i: int| 0 <= i < s.len() ==> canonical(#[trigger] s[i]),
    ensures
        parse_options(encode_options(s)) == map_of(s),
{
    let e = encode_options(s);
    if s.len() == 0 {
        assert(parse_options(e) =~= map_of(s));
    } else {
        assert(e =~= concat_frags(s) + seq![255u8]);
        lemma_parse_concat(s, seq![255u8], Map::empty());
        let raw = fold_frags(Map::empty(), s);
        assert(parse_raw(seq![255u8], raw) == raw);
        lemma_fold_distinct(Map::empty(), s);
        let m = typed_map(raw);
        assert forall|i: int| 0 <= i < s.len() implies m.contains_key(opt_code(#[trigger] s[i]))
            && m[opt_code(s[i])] == opt_value(s[i]) by {
            assert(canonical(s[i]));
        }
        assert forall|k: u8| m.contains_key(k) implies exists|i: int| 0 <= i < s.len() && opt_code(#[trigger] s[i]) == k by {
        }
        lemma_map_of_ext_to(s, m);
    }
}

/// Appends the fragments of a payload under code `c`.
fn push_frags(buf: &mut Vec<u8>, c: u8, d: &[u8])
    ensures
        final(buf)@ == old(buf)@ + encode_frags(c, d@),
{
    let mut pos: usize = 0;
    assert(d@.subrange(0, d@.len() as int) =~= d@);
    while d.len() - pos > 255
        invariant
            pos <= d@.len(),
            old(buf)@ + encode_frags(c, d@) == buf@ + encode_frags(c, d@.subrange(pos as int, d@.len() as int)),
        decreases d@.len() - pos,
    {
        let ghost rest = d@.subrange(pos as int, d@.len() as int);
        buf.push(c);
        buf.push(255);
        extend_range(buf, d, pos, pos + 255);
        proof {
            assert(rest.subrange(0, 255) =~= d@.subrange(pos as int, pos + 255));
            assert(rest.subrange(255, rest.len() as int) =~= d@.subrange(pos + 255, d@.len() as int));
        }
        pos = pos + 255;
    }
    let ghost rest = d@.subrange(pos as int, d@.len() as int);
    buf.push(c);
    buf.push((d.len() - pos) as u8);
    extend_range(buf, d, pos, d.len());
    assert(buf@ =~= old(buf)@ + encode_frags(c, d@));
}

/// Putting `opt` in place of the entry with its code changes the maps at
/// that code only.
proof fn lemma_replace_at(s: Seq<DhcpOption>, i: int, opt: DhcpOption)
    requires
        ordered_codes(s),
        0 <= i < s.len(),
        opt_code(s[i]) == opt_code(opt),
    ensures
        ordered_codes(s.update(i, opt)),
        map_of(s).contains_key(opt_code(opt)),
        map_of(s)[opt_code(opt)] == opt_value(s[i]),
        entry_map(s).contains_key(opt_code(opt)),
        entry_map(s)[opt_code(opt)] == s[i],
        map_of(s.update(i, opt)) == map_of(s).insert(opt_code(opt), opt_value(opt)),
        entry_map(s.update(i, opt)) == entry_map(s).insert(opt_code(opt), opt),
{
    let c = opt_code(opt);
    let v = opt_value(opt);
    let m = map_of(s);
    let t = s.update(i, opt);
    lemma_map_of_at(s, i);
    assert(ordered_codes(t));
    assert forall|j: int| 0 <= j < t.len() implies m.insert(c, v).contains_key(opt_code(#[trigger] t[j]))
        && m.insert(c, v)[opt_code(t[j])] == opt_value(t[j]) by {
        if j != i {
            lemma_map_of_at(s, j);
        }
    }
    assert forall|k: u8| m.insert(c, v).contains_key(k) implies exists|j: int| 0 <= j < t.len() && opt_code(#[trigger] t[j]) == k by {
        if k != c {
            lemma_map_of_key(s, k);
            let j = choose|j: int| 0 <= j < s.len() && opt_code(s[j]) == k && m[k] == opt_value(s[j]);
            assert(opt_code(t[j]) == k);
        } else {
            assert(opt_code(t[i]) == k);
        }
    }
    lemma_map_of_ext_to(t, m.insert(c, v));
    let em = entry_map(s);
    lemma_entry_map_at(s, i);
    assert forall|j: int| 0 <= j < t.len() implies em.insert(c, opt).contains_key(opt_code(#[trigger] t[j]))
        && em.insert(c, opt)[opt_code(t[j])] == t[j] by {
        if j != i {
            lemma_entry_map_at(s, j);
        }
    }
    assert forall|k: u8| em.insert(c, opt).contains_key(k) implies exists|j: int| 0 <= j < t.len() && opt_code(#[trigger] t[j]) == k by {
        if k != c {
            lemma_entry_map_contains(s, k);
            let j = choose|j: int| 0 <= j < s.len() && opt_code(s[j]) == k;
            assert(opt_code(t[j]) == k);
        } else {
            assert(opt_code(t[i]) == k);
        }
    }
    lemma_entry_map_ext_to(t, em.insert(c, opt));
}

/// Putting `opt` at the position where its code belongs, when no entry has
/// that code, adds it to the maps.
proof fn lemma_insert_at(s: Seq<DhcpOption>, i: int, opt: DhcpOption)
    requires
        ordered_codes(s),
        0 <= i <= s.len(),
        0 < opt_code(opt) < 255,
        forall|j: int| 0 <= j < i ==> opt_code(#[trigger] s[j]) < opt_code(opt),
        i < s.len() ==> opt_code(s[i]) > opt_code(opt),
    ensures
        ordered_codes(s.insert(i, opt)),
        !map_of(s).contains_key(opt_code(opt)),
        map_of(s.insert(i, opt)) == map_of(s).insert(opt_code(opt), opt_value(opt)),
        entry_map(s.insert(i, opt)) == entry_map(s).insert(opt_code(opt), opt),
{
    let c = opt_code(opt);
    let v = opt_value(opt);
    let m = map_of(s);
    let t = s.insert(i, opt);
    assert(ordered_codes(t)) by {
        assert forall|a: int, b: int| 0 <= a < b < t.len() implies opt_code(t[a]) < opt_code(t[b]) by {
            if i < s.len() {
                assert(opt_code(s[i]) > c);
            }
        }
    }
    assert(!m.contains_key(c)) by {
        lemma_map_of_contains(s, c);
        if m.contains_key(c) {
            let j = choose|j: int| 0 <= j < s.len() && opt_code(s[j]) == c;
            if j >= i {
                assert(opt_code(s[j]) >= opt_code(s[i]));
            }
        }
    }
    assert forall|j: int| 0 <= j < t.len() implies m.insert(c, v).contains_key(opt_code(#[trigger] t[j]))
        && m.insert(c, v)[opt_code(t[j])] == opt_value(t[j]) by {
        if j < i {
            lemma_map_of_at(s, j);
        } else if j > i {
            lemma_map_of_at(s, j - 1);
        }
    }
    assert forall|k: u8| m.insert(c, v).contains_key(k) implies exists|j: int| 0 <= j < t.len() && opt_code(#[trigger] t[j]) == k by {
        if k != c {
            lemma_map_of_key(s, k);
            let j = choose|j: int| 0 <= j < s.len() && opt_code(s[j]) == k && m[k] == opt_value(s[j]);
            if j < i {
                assert(opt_code(t[j]) == k);
            } else {
                assert(opt_code(t[j + 1]) == k);
            }
        } else {
            assert(opt_code(t[i]) == k);
        }
    }
    lemma_map_of_ext_to(t, m.insert(c, v));
    let em = entry_map(s);
    assert forall|j: int| 0 <= j < t.len() implies em.insert(c, opt).contains_key(opt_code(#[trigger] t[j]))
        && em.insert(c, opt)[opt_code(t[j])] == t[j] by {
        if j < i {
            lemma_entry_map_at(s, j);
        } else if j > i {
            lemma_entry_map_at(s, j - 1);
        }
    }
    assert forall|k: u8| em.insert(c, opt).contains_key(k) implies exists|j: int| 0 <= j < t.len() && opt_code(#[trigger] t[j]) == k by {
        if k != c {
            lemma_entry_map_contains(s, k);
            let j = choose|j: int| 0 <= j < s.len() && opt_code(s[j]) == k;
            if j < i {
                assert(opt_code(t[j]) == k);
            } else {
                assert(opt_code(t[j + 1]) == k);
            }
        } else {
            assert(opt_code(t[i]) == k);
        }
    }
    lemma_entry_map_ext_to(t, em.insert(c, opt));
}

/// Taking out the entry at `i` takes its code out of the maps.
proof fn lemma_remove_at(s: Seq<DhcpOption>, i: int)
    requires
        ordered_codes(s),
        0 <= i < s.len(),
    ensures
        ordered_codes(s.remove(i)),
        map_of(s).contains_key(opt_code(s[i])),
        map_of(s)[opt_code(s[i])] == opt_value(s[i]),
        entry_map(s).contains_key(opt_code(s[i])),
        entry_map(s)[opt_code(s[i])] == s[i],
        map_of(s.remove(i)) == map_of(s).remove(opt_code(s[i])),
        entry_map(s.remove(i)) == entry_map(s).remove(opt_code(s[i])),
{
    let c = opt_code(s[i]);
    let m = map_of(s);
    lemma_map_of_at(s, i);
    let t = s.remove(i);
    assert(ordered_codes(t)) by {
        assert forall|a: int, b: int| 0 <= a < b < t.len() implies opt_code(t[a]) < opt_code(t[b]) by {
            let a2 = if a < i { a } else { a + 1 };
            let b2 = if b < i { b } else { b + 1 };
            assert(t[a] == s[a2] && t[b] == s[b2]);
        }
        assert forall|a: int| 0 <= a < t.len() implies 0 < #[trigger] opt_code(t[a]) < 255 by {
            let a2 = if a < i { a } else { a + 1 };
            assert(t[a] == s[a2]);
        }
    }
    assert forall|j: int| 0 <= j < t.len() implies m.remove(c).contains_key(opt_code(#[trigger] t[j]))
        && m.remove(c)[opt_code(t[j])] == opt_value(t[j]) by {
        let j2 = if j < i { j } else { j + 1 };
        assert(t[j] == s[j2]);
        lemma_map_of_at(s, j2);
        assert(opt_code(s[j2]) != c);
    }
    assert forall|k: u8| m.remove(c).contains_key(k) implies exists|j: int| 0 <= j < t.len() && opt_code(#[trigger] t[j]) == k by {
        lemma_map_of_key(s, k);
        let j = choose|j: int| 0 <= j < s.len() && opt_code(s[j]) == k && m[k] == opt_value(s[j]);
        if j < i {
            assert(opt_code(t[j]) == k);
        } else {
            assert(j != i);
            assert(opt_code(t[j - 1]) == k);
        }
    }
    lemma_map_of_ext_to(t, m.remove(c));
    let em = entry_map(s);
    lemma_entry_map_at(s, i);
    assert forall|j: int| 0 <= j < t.len() implies em.remove(c).contains_key(opt_code(#[trigger] t[j]))
        && em.remove(c)[opt_code(t[j])] == t[j] by {
        let j2 = if j < i { j } else { j + 1 };
        assert(t[j] == s[j2]);
        lemma_entry_map_at(s, j2);
        assert(opt_code(s[j2]) != c);
    }
    assert forall|k: u8| em.remove(c).contains_key(k) implies exists|j: int| 0 <= j < t.len() && opt_code(#[trigger] t[j]) == k by {
        lemma_entry_map_contains(s, k);
        let j = choose|j: int| 0 <= j < s.len() && opt_code(s[j]) == k;
        if j < i {
            assert(opt_code(t[j]) == k);
        } else {
            assert(j != i);
            assert(opt_code(t[j - 1]) == k);
        }
    }
    lemma_entry_map_ext_to(t, em.remove(c));
}

/// A DHCP options store. Options are unique by code and kept in ascending
/// order of code.
#[derive(Debug, Clone, PartialEq, Eq)]
pub struct DhcpOptions {
    opts: Vec<DhcpOption>,
}

impl View for DhcpOptions {
    type V = Map<u8, OptionValue>;

    closed spec fn view(&self) -> Map<u8, OptionValue> {
        map_of(self.opts@)
    }
}

impl DhcpOptions {
    /// The store's invariant.
    pub closed spec fn wf(&self) -> bool {
        ordered_codes(self.opts@)
    }

    /// The options in the order in which they are kept.
    pub closed spec fn entries(&self) -> Seq<DhcpOption> {
        self.opts@
    }

    pub proof fn lemma_entries(&self)
        requires
            self.wf(),
        ensures
            ordered_codes(self.entries()),
            map_of(self.entries()) == self@,
    {
    }

    /// An empty store.
    pub fn new() -> (r: DhcpOptions)
        ensures
            r.wf(),
            r@ == Map::<u8, OptionValue>::empty(),
            r.entries() == Seq::<DhcpOption>::empty(),
    {
        DhcpOptions { opts: Vec::new() }
    }

    /// The number of options held.
    pub fn len(&self) -> (n: usize)
        requires
            self.wf(),
        ensures
            n == self.entries().len(),
    {
        self.opts.len()
    }

    /// Whether no option is held.
    pub fn is_empty(&self) -> (b: bool)
        requires
            self.wf(),
        ensures
            b <==> self@ == Map::<u8, OptionValue>::empty(),
    {
        proof {
            if self.opts@.len() > 0 {
                lemma_map_of_at(self.opts@, 0);
                assert(self@.contains_key(opt_code(self.opts@[0])));
            } else {
                assert(self@ =~= Map::<u8, OptionValue>::empty());
            }
        }
        self.opts.len() == 0
    }

    /// The options held, in ascending order of code.
    pub fn options(&self) -> (s: &[DhcpOption])
        ensures
            s@ == self.entries(),
    {
        self.opts.as_slice()
    }

    /// The position at which the option with code `c` stands, if it is held.
    fn find(&self, c: u8) -> (r: Option<usize>)
        requires
            self.wf(),
        ensures
            match r {
                Some(i) => i < self.opts@.len() && opt_code(self.opts@[i as int]) == c,
                None => !self@.contains_key(c),
            },
    {
        let mut i: usize = 0;
        while i < self.opts.len()
            invariant
                0 <= i <= self.opts@.len(),
                forall|j: int| 0 <= j < i ==> opt_code(#[trigger] self.opts@[j]) != c,
            decreases self.opts@.len() - i,
        {
            if self.opts[i].code_u8() == c {
                return Some(i);
            }
            i = i + 1;
        }
        proof {
            lemma_map_of_contains(self.opts@, c);
        }
        None
    }

    /// The option held under `code`, if any.
    pub fn get(&self, code: OptionCode) -> (r: Option<&DhcpOption>)
        requires
            self.wf(),
        ensures
            match r {
                Some(o) => self@.contains_key(code_num(code)) && opt_code(*o) == code_num(code)
                    && opt_value(*o) == self@[code_num(code)]
                    && entry_map(self.entries()).contains_key(code_num(code))
                    && entry_map(self.entries())[code_num(code)] == *o
                    && self.entries().contains(*o),
                None => !self@.contains_key(code_num(code)) && !entry_map(self.entries()).contains_key(code_num(code)),
            },
    {
        match self.find(code.to_u8()) {
            Some(i) => {
                proof {
                    lemma_map_of_at(self.opts@, i as int);
                    lemma_entry_map_at(self.opts@, i as int);
                    assert(self.opts@.contains(self.opts@[i as int]));
                }
                Some(&self.opts[i])
            },
            None => {
                proof {
                    lemma_map_of_contains(self.opts@, code_num(code));
                    lemma_entry_map_contains(self.opts@, code_num(code));
                }
                None
            },
        }
    }

    /// Whether an option is held under `code`.
    pub fn contains(&self, code: OptionCode) -> (b: bool)
        requires
            self.wf(),
        ensures
            b == self@.contains_key(code_num(code)),
    {
        match self.find(code.to_u8()) {
            Some(i) => {
                proof {
                    lemma_map_of_at(self.opts@, i as int);
                }
                true
            },
            None => false,
        }
    }

    /// Holds `opt` under its code, replacing and handing back the option held
    /// there before. An option with the Pad (0) or End (255) code is not held:
    /// the store is left as it was.
    pub fn insert(&mut self, opt: DhcpOption) -> (r: Option<DhcpOption>)
        requires
            old(self).wf(),
        ensures
            final(self).wf(),
            (opt_code(opt) == 0 || opt_code(opt) == 255) ==> final(self)@ == old(self)@ && final(self).entries() == old(self).entries()
                && r is None,
            (opt_code(opt) != 0 && opt_code(opt) != 255) ==> {
                &&& final(self)@ == old(self)@.insert(opt_code(opt), opt_value(opt))
                &&& entry_map(final(self).entries()) == entry_map(old(self).entries()).insert(opt_code(opt), opt)
                &&& match r {
                    Some(o) => old(self)@.contains_key(opt_code(opt)) && opt_code(o) == opt_code(opt)
                        && opt_value(o) == old(self)@[opt_code(opt)]
                        && entry_map(old(self).entries()).contains_key(opt_code(opt))
                        && entry_map(old(self).entries())[opt_code(opt)] == o,
                    None => !old(self)@.contains_key(opt_code(opt)),
                }
            },
    {
        let c = opt.code_u8();
        if c == 0 || c == 255 {
            return None;
        }
        let ghost s = self.opts@;
        let mut i: usize = 0;
        while i < self.opts.len() && self.opts[i].code_u8() < c
            invariant
                self.opts@ == s,
                ordered_codes(s),
                0 <= i <= s.len(),
                forall|j: int| 0 <= j < i ==> opt_code(#[trigger] s[j]) < c,
            decreases s.len() - i,
        {
            i = i + 1;
        }
        if i < self.opts.len() && self.opts[i].code_u8() == c {
            proof {
                lemma_replace_at(s, i as int, opt);
            }
            let old_opt = self.opts.remove(i);
            self.opts.insert(i, opt);
            assert(self.opts@ =~= s.update(i as int, opt));
            Some(old_opt)
        } else {
            proof {
                lemma_insert_at(s, i as int, opt);
            }
            self.opts.insert(i, opt);
            None
        }
    }

    /// Removes and hands back the option held under `code`, if any.
    pub fn remove(&mut self, code: OptionCode) -> (r: Option<DhcpOption>)
        requires
            old(self).wf(),
        ensures
            final(self).wf(),
            final(self)@ == old(self)@.remove(code_num(code)),
            entry_map(final(self).entries()) == entry_map(old(self).entries()).remove(code_num(code)),
            match r {
                Some(o) => old(self)@.contains_key(code_num(code)) && opt_code(o) == code_num(code)
                    && opt_value(o) == old(self)@[code_num(code)]
                    && entry_map(old(self).entries()).contains_key(code_num(code))
                    && entry_map(old(self).entries())[code_num(code)] == o,
                None => !old(self)@.contains_key(code_num(code)),
            },
    {
        let c = code.to_u8();
        match self.find(c) {
            None => {
                assert(self@ =~= self@.remove(c));
                proof {
                    lemma_map_of_contains(self.opts@, c);
                    lemma_entry_map_contains(self.opts@, c);
                }
                assert(entry_map(self.opts@) =~= entry_map(self.opts@).remove(c));
                None
            },
            Some(i) => {
                let ghost s = self.opts@;
                proof {
                    lemma_remove_at(s, i as int);
                }
                let o = self.opts.remove(i);
                assert(self.opts@ =~= s.remove(i as int));
                Some(o)
            },
        }
    }

    /// Reads the options of an options field: Pad bytes are skipped, reading
    /// stops at End, at the end of the bytes, or at an option that runs past
    /// the end; fragments of one code are joined in order (RFC 3396).
    pub fn decode(bytes: &[u8]) -> (r: DhcpOptions)
        ensures
            r.wf(),
            r@ == parse_options(bytes@),
            forall|i: int| 0 <= i < r.entries().len() ==> canonical(#[trigger] r.entries()[i]),
    {
        let ghost s = bytes@;
        let mut table: Vec<Vec<u8>> = Vec::new();
        let mut present: Vec<bool> = Vec::new();
        let mut c: usize = 0;
        while c < 256
            invariant
                0 <= c <= 256,
                table@.len() == c,
                present@.len() == c,
                forall|k: int| 0 <= k < c ==> !present@[k],
                forall|k: int| 0 <= k < c ==> table@[k]@ == Seq::<u8>::empty(),
            decreases 256 - c,
        {
            let ghost t0 = table@;
            table.push(Vec::new());
            assert(table@[c as int]@ == Seq::<u8>::empty());
            assert(forall|k: int| 0 <= k < c ==> table@[k] == t0[k]);
            present.push(false);
            c = c + 1;
        }
        let ghost empty_acc = Map::<u8, Seq<u8>>::empty();
        assert(Map::new(|k: u8| present@[k as int], |k: u8| table@[k as int]@) =~= empty_acc);
        assert(s.subrange(0, s.len() as int) =~= s);
        let mut i: usize = 0;
        let mut done = false;
        while i < bytes.len() && !done
            invariant
                0 <= i <= s.len(),
                s == bytes@,
                table@.len() == 256,
                present@.len() == 256,
                !present@[0],
                !present@[255],
                forall|k: int| 0 <= k < 256 && !present@[k] ==> table@[k]@ == Seq::<u8>::empty(),
                !done ==> parse_raw(s, empty_acc) == parse_raw(
                    s.subrange(i as int, s.len() as int),
                    Map::new(|k: u8| present@[k as int], |k: u8| table@[k as int]@),
                ),
                done ==> parse_raw(s, empty_acc) == Map::new(|k: u8| present@[k as int], |k: u8| table@[k as int]@),
            decreases s.len() - i + (if done { 0int } else { 1int }),
        {
            let ghost cur = Map::new(|k: u8| present@[k as int], |k: u8| table@[k as int]@);
            let ghost rest = s.subrange(i as int, s.len() as int);
            let b = bytes[i];
            if b == 255 {
                done = true;
            } else if b == 0 {
                assert(rest.drop_first() =~= s.subrange(i + 1, s.len() as int));
                i = i + 1;
            } else if i + 1 >= bytes.len() {
                done = true;
            } else if (bytes[i + 1] as usize) > bytes.len() - (i + 2) {
                done = true;
            } else {
                let len = bytes[i + 1] as usize;
                let end = i + 2 + len;
                let ghost t0 = table@;
                let ghost p0 = present@;
                let mut frag = table.remove(b as usize);
                extend_range(&mut frag, bytes, i + 2, end);
                let ghost fv = frag@;
                table.insert(b as usize, frag);
                present.set(b as usize, true);
                proof {
                    assert(table@ =~= t0.update(b as int, table@[b as int]));
                    assert(table@[b as int]@ == fv);
                    assert(present@ =~= p0.update(b as int, true));
                    assert(rest[0] == b && rest[1] == len);
                    let d = s.subrange(i + 2, end as int);
                    assert(rest.subrange(2, 2 + rest[1]) =~= d);
                    assert(rest.subrange(2 + rest[1], rest.len() as int) =~= s.subrange(end as int, s.len() as int));
                    let next = Map::new(|k: u8| present@[k as int], |k: u8| table@[k as int]@);
                    if !p0[b as int] {
                        assert(t0[b as int]@ + d =~= d);
                    }
                    assert(next =~= append_frag(cur, b, d));
                }
                i = end;
            }
        }
        assert(done || s.subrange(i as int, s.len() as int).len() == 0);
        let ghost raw = Map::new(|k: u8| present@[k as int], |k: u8| table@[k as int]@);
        assert(parse_raw(s, empty_acc) == raw);
        let ghost m = typed_map(raw);
        let mut opts: Vec<DhcpOption> = Vec::new();
        let mut c: usize = 1;
        while c < 255
            invariant
                1 <= c <= 255,
                table@.len() == 256,
                present@.len() == 256,
                raw == Map::new(|k: u8| present@[k as int], |k: u8| table@[k as int]@),
                m == typed_map(raw),
                !present@[0],
                !present@[255],
                ordered_codes(opts@),
                forall|j: int| 0 <= j < opts@.len() ==> opt_code(#[trigger] opts@[j]) < c,
                forall|j: int| 0 <= j < opts@.len() ==> m.contains_key(opt_code(#[trigger] opts@[j]))
                    && m[opt_code(opts@[j])] == opt_value(opts@[j]),
                forall|k: u8| k < c && #[trigger] m.contains_key(k) ==> exists|j: int| 0 <= j < opts@.len() && opt_code(opts@[j]) == k,
                forall|j: int| 0 <= j < opts@.len() ==> normal(#[trigger] opts@[j]),
            decreases 255 - c,
        {
            if present[c] {
                let mut data: Vec<u8> = Vec::new();
                extend_bytes(&mut data, table[c].as_slice());
                let o = DhcpOption::from_raw(c as u8, data);
                let ghost before = opts@;
                opts.push(o);
                proof {
                    assert(opts@ == before.push(o));
                    assert(opts@[before.len() as int] == o);
                    assert forall|k: u8| k < c + 1 && #[trigger] m.contains_key(k) implies exists|j: int| 0 <= j < opts@.len() && opt_code(opts@[j]) == k by {
                        if k < c {
                            let j = choose|j: int| 0 <= j < before.len() && opt_code(before[j]) == k;
                            assert(opts@[j] == before[j]);
                        } else {
                            assert(opt_code(opts@[before.len() as int]) == k);
                        }
                    }
                    assert forall|j: int| 0 <= j < opts@.len() implies m.contains_key(opt_code(#[trigger] opts@[j]))
                        && m[opt_code(opts@[j])] == opt_value(opts@[j]) by {
                        if j < before.len() {
                            assert(opts@[j] == before[j]);
                        }
                    }
                    assert forall|j: int| 0 <= j < opts@.len() implies normal(#[trigger] opts@[j]) by {
                        if j < before.len() {
                            assert(opts@[j] == before[j]);
                        }
                    }
                }
            } else {
                proof {
                    assert forall|k: u8| k < c + 1 && #[trigger] m.contains_key(k) implies exists|j: int| 0 <= j < opts@.len() && opt_code(opts@[j]) == k by {
                        if k == c {
                            assert(!m.contains_key(k));
                        }
                    }
                }
            }
            c = c + 1;
        }
        proof {
            assert forall|k: u8| m.contains_key(k) implies exists|j: int| 0 <= j < opts@.len() && opt_code(#[trigger] opts@[j]) == k by {
                if k == 255 {
                    assert(!m.contains_key(k));
                }
                assert(k < c);
            }
            lemma_map_of_ext_to(opts@, m);
            assert forall|i: int| 0 <= i < opts@.len() implies canonical(#[trigger] opts@[i]) by {
                lemma_map_of_at(opts@, i);
            }
        }
        DhcpOptions { opts }
    }

    /// Appends the options field: each option in ascending order of code,
    /// then End; nothing at all when no option is held.
    pub fn encode(&self, buf: &mut Vec<u8>)
        requires
            self.wf(),
        ensures
            final(buf)@ == old(buf)@ + encode_options(self.entries()),
    {
        let ghost start = buf@;
        let mut i: usize = 0;
        while i < self.opts.len()
            invariant
                0 <= i <= self.opts@.len(),
                buf@ == start + concat_frags(self.opts@.subrange(0, i as int)),
            decreases self.opts@.len() - i,
        {
            self.opts[i].encode(buf);
            proof {
                let p = self.opts@.subrange(0, i + 1);
                assert(p.drop_last() =~= self.opts@.subrange(0, i as int));
                assert(p.last() == self.opts@[i as int]);
            }
            i = i + 1;
        }
        assert(self.opts@.subrange(0, i as int) =~= self.opts@);
        if self.opts.len() > 0 {
            buf.push(255);
        }
    }

    /// The message type held in option 53, if that option is held as a
    /// typed `MessageType`.
    pub fn msg_type(&self) -> (r: Option<MessageType>)
        requires
            self.wf(),
        ensures
            match r {
                Some(t) => self@.contains_key(53) && self@[53].typed
                    && self@[53].data == seq![msg_type_num(t)]
                    && entry_map(self.entries()).contains_key(53)
                    && entry_map(self.entries())[53] == DhcpOption::MessageType(t)
                    && self.entries().contains(DhcpOption::MessageType(t)),
                None => !(self@.contains_key(53) && self@[53].typed)
                    && !(entry_map(self.entries()).contains_key(53)
                        && entry_map(self.entries())[53] is MessageType),
            },
    {
        match self.get(OptionCode::MessageType) {
            Some(DhcpOption::MessageType(t)) => Some(*t),
            _ => None,
        }
    }
}

} // verus!
