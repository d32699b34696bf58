//! The DHCPv4 message: the BOOTP header fields and the options, with their
//! getters and setters.
use vstd::prelude::*;
use crate::header::{htype_from, htype_num, opcode_from, opcode_num, Flags, HType, Opcode};
use crate::error::{DecodeError, EncodeError};
use crate::options::{canonical, concat_frags, encode_frags, encode_options, lemma_frags_len, opt_code, opt_data, parse_options, DhcpOption, DhcpOptions, OptionCode, OptionValue};
use crate::options::{lemma_map_of_at, lemma_ordered_prefix, ordered_codes, parse_raw};
use crate::overload::{append_region_options, lemma_parse_region, lemma_region_fold_no_marker, region_fold, region_options};
use crate::wire::{
    be_u16, be_u32, extend_bytes, extend_range, fill, lemma_trim_fill, lemma_trim_len, push_fill, push_u16, push_u32, push_zeros,
    read_u16, read_u32, trim_nul, trim_nul_spec, u16_bytes, u32_bytes, zeros,
};
use core::str::Utf8Error;
use vstd::utf8::valid_utf8;
use vstd::string::StringSliceAdditionalSpecFns;

verus! {

/// The magic cookie that opens the options field (RFC 2131).
pub const MAGIC: [u8; 4] = [99, 130, 83, 99];

/// The description that `DecodeError::InvalidData` carries for a wrong magic
/// cookie.
pub const BAD_MAGIC: &'static str = "invalid DHCP magic cookie";

/// The smallest packet size a DHCP relay or server must accept.
pub const MIN_PACKET_SIZE: usize = 300;

/// The default DHCPv4 server port.
pub const SERVER_PORT: u16 = 67;

/// The default DHCPv4 client port.
pub const CLIENT_PORT: u16 = 68;

/// The magic cookie as a sequence.
pub open spec fn magic_seq() -> Seq<u8> {
    seq![99u8, 130u8, 83u8, 99u8]
}

/// The contents of an optional byte string.
pub open spec fn opt_bytes(v: Option<Vec<u8>>) -> Option<Seq<u8>> {
    match v {
        Some(b) => Some(b@),
        None => None,
    }
}

/// The mathematical model of a message: every field as a plain value (the op
/// code and hardware type as their enum values), the
/// IPv4 addresses as the `u32` that their four octets form (most significant
/// first), and the options as a map from code to payload.
pub struct MessageModel {
    pub opcode: Opcode,
    pub htype: HType,
    pub hlen: u8,
    pub hops: u8,
    pub xid: u32,
    pub secs: u16,
    pub flags: u16,
    pub ciaddr: u32,
    pub yiaddr: u32,
    pub siaddr: u32,
    pub giaddr: u32,
    pub chaddr: Seq<u8>,
    pub sname: Option<Seq<u8>>,
    pub fname: Option<Seq<u8>>,
    pub opts: Map<u8, OptionValue>,
}

#[verifier::external_type_specification]
#[verifier::external_body]
pub struct ExUtf8Error(Utf8Error);

/// What reading bytes as UTF-8 gave: a string whose encoding is the bytes
/// when they are valid UTF-8, an error when they are not.
pub open spec fn utf8_outcome(bytes: Seq<u8>, r: Result<&str, Utf8Error>) -> bool {
    match r {
        Ok(s) => valid_utf8(bytes) && s.spec_bytes() == bytes,
        Err(_) => !valid_utf8(bytes),
    }
}

/// `core::str::from_utf8`: the bytes as a `str` when they are valid UTF-8,
/// an error when they are not.
#[verifier::external_body]
fn utf8_str(bytes: &[u8]) -> (r: Result<&str, Utf8Error>)
    ensures
        utf8_outcome(bytes@, r),
{
    core::str::from_utf8(bytes)
}

/// The value of an option-overload option (52) held as typed, or 0.
pub open spec fn overload_value(opts: Map<u8, OptionValue>) -> u8 {
    if opts.contains_key(52) && opts[52].typed && opts[52].data.len() == 1 {
        opts[52].data[0]
    } else {
        0
    }
}

/// Whether the overload value says the `file` field holds options.
pub open spec fn file_overloaded(v: u8) -> bool {
    v % 2 == 1
}

/// Whether the overload value says the `sname` field holds options.
pub open spec fn sname_overloaded(v: u8) -> bool {
    (v / 2) % 2 == 1
}

/// The option stream that is read when the header fields are overloaded: the
/// options of the main field, then those of `file`, then those of `sname`,
/// each as its region contributes them, and End.
pub open spec fn spliced_options(raw: Seq<u8>, file: Seq<u8>, sname: Seq<u8>, v: u8) -> Seq<u8> {
    region_options(raw) + (if file_overloaded(v) {
        region_options(file)
    } else {
        Seq::empty()
    }) + (if sname_overloaded(v) {
        region_options(sname)
    } else {
        Seq::empty()
    }) + seq![255u8]
}

/// The options a message holds, from its options field and, when option 52
/// says so, its `file` and `sname` fields.
pub open spec fn decoded_options(raw: Seq<u8>, file: Seq<u8>, sname: Seq<u8>) -> Map<u8, OptionValue> {
    let v = overload_value(parse_options(raw));
    if v == 0 {
        parse_options(raw)
    } else {
        parse_options(spliced_options(raw, file, sname, v))
    }
}

/// The message that a byte string holds (RFC 2131, RFC 2132 §9.3, RFC 3396).
pub open spec fn decode_spec(s: Seq<u8>) -> Result<MessageModel, DecodeError> {
    if s.len() < 240 {
        Err(DecodeError::NotEnoughBytes)
    } else if s.subrange(236, 240) != magic_seq() {
        Err(DecodeError::InvalidData(be_u32(s[236], s[237], s[238], s[239]), BAD_MAGIC))
    } else {
        let raw = s.subrange(240, s.len() as int);
        let file = s.subrange(108, 236);
        let sname = s.subrange(44, 108);
        let v = overload_value(parse_options(raw));
        Ok(MessageModel {
            opcode: opcode_from(s[0]),
            htype: htype_from(s[1]),
            hlen: s[2],
            hops: s[3],
            xid: be_u32(s[4], s[5], s[6], s[7]),
            secs: be_u16(s[8], s[9]),
            flags: be_u16(s[10], s[11]),
            ciaddr: be_u32(s[12], s[13], s[14], s[15]),
            yiaddr: be_u32(s[16], s[17], s[18], s[19]),
            siaddr: be_u32(s[20], s[21], s[22], s[23]),
            giaddr: be_u32(s[24], s[25], s[26], s[27]),
            chaddr: s.subrange(28, 44),
            sname: if sname_overloaded(v) { None } else { trim_nul_spec(sname) },
            fname: if file_overloaded(v) { None } else { trim_nul_spec(file) },
            opts: decoded_options(raw, file, sname),
        })
    }
}

/// The fixed header up to and including `chaddr`: 44 bytes. The integers
/// are written most significant byte first.
pub open spec fn header_bytes(m: MessageModel) -> Seq<u8> {
    seq![
        opcode_num(m.opcode), htype_num(m.htype), m.hlen, m.hops,
        u32_bytes(m.xid)[0], u32_bytes(m.xid)[1], u32_bytes(m.xid)[2], u32_bytes(m.xid)[3],
        u16_bytes(m.secs)[0], u16_bytes(m.secs)[1], u16_bytes(m.flags)[0], u16_bytes(m.flags)[1],
        u32_bytes(m.ciaddr)[0], u32_bytes(m.ciaddr)[1], u32_bytes(m.ciaddr)[2], u32_bytes(m.ciaddr)[3],
        u32_bytes(m.yiaddr)[0], u32_bytes(m.yiaddr)[1], u32_bytes(m.yiaddr)[2], u32_bytes(m.yiaddr)[3],
        u32_bytes(m.siaddr)[0], u32_bytes(m.siaddr)[1], u32_bytes(m.siaddr)[2], u32_bytes(m.siaddr)[3],
        u32_bytes(m.giaddr)[0], u32_bytes(m.giaddr)[1], u32_bytes(m.giaddr)[2], u32_bytes(m.giaddr)[3],
    ] + m.chaddr
}

/// A name field's value is canonical when reading back its zero-filled field
/// gives it again.
pub open spec fn name_canonical(v: Option<Seq<u8>>, n: nat) -> bool {
    trim_nul_spec(fill(v, n)) == v
}

/// The spliced stream holds no option 52: every region leaves the marker out.
pub proof fn lemma_spliced_no_marker(raw: Seq<u8>, file: Seq<u8>, sname: Seq<u8>, v: u8)
    ensures
        !parse_options(spliced_options(raw, file, sname, v)).contains_key(52),
{
    let e = Map::<u8, Seq<u8>>::empty();
    let x = if file_overloaded(v) { region_options(file) } else { Seq::<u8>::empty() };
    let y = if sname_overloaded(v) { region_options(sname) } else { Seq::<u8>::empty() };
    let end = seq![255u8];
    assert(spliced_options(raw, file, sname, v) =~= region_options(raw) + (x + (y + end)));
    lemma_parse_region(raw, x + (y + end), e);
    let r1 = region_fold(raw, e);
    lemma_region_fold_no_marker(raw, e);
    let r2 = if file_overloaded(v) { region_fold(file, r1) } else { r1 };
    if file_overloaded(v) {
        lemma_parse_region(file, y + end, r1);
        lemma_region_fold_no_marker(file, r1);
    } else {
        assert(x + (y + end) =~= y + end);
    }
    let r3 = if sname_overloaded(v) { region_fold(sname, r2) } else { r2 };
    if sname_overloaded(v) {
        lemma_parse_region(sname, end, r2);
        lemma_region_fold_no_marker(sname, r2);
    } else {
        assert(y + end =~= end);
    }
    assert(parse_raw(end, r3) == r3);
}

/// How the options are placed by `encode_overloaded`: those that go into the
/// main options field, into `file`, and into `sname`.
pub struct Spill {
    pub main: Seq<DhcpOption>,
    pub file: Seq<DhcpOption>,
    pub sname: Seq<DhcpOption>,
}

/// The room for options in the main field when the whole message may take
/// `max_len` bytes: what is left after the 240 bytes of header and cookie,
/// the 3-byte overload marker and the End byte (none when that is negative).
pub open spec fn main_cap(max_len: usize) -> int {
    if max_len >= 244 {
        max_len - 244
    } else {
        0
    }
}

/// Places the options one by one, in order, each whole into the first of the
/// main field, `file` (127 bytes of room) and `sname` (63 bytes of room) that
/// still has room for it; an option 52 already held is left out. `None` when
/// an option fits in none of them.
pub open spec fn spill(s: Seq<DhcpOption>, cap: int) -> Option<Spill>
    decreases s.len(),
{
    if s.len() == 0 {
        Some(Spill { main: Seq::empty(), file: Seq::empty(), sname: Seq::empty() })
    } else {
        match spill(s.drop_last(), cap) {
            None => None,
            Some(p) => {
                let o = s.last();
                let n = encode_frags(opt_code(o), opt_data(o)).len();
                if opt_code(o) == 52 {
                    Some(p)
                } else if concat_frags(p.main).len() + n <= cap {
                    Some(Spill { main: p.main.push(o), ..p })
                } else if concat_frags(p.file).len() + n <= 127 {
                    Some(Spill { file: p.file.push(o), ..p })
                } else if concat_frags(p.sname).len() + n <= 63 {
                    Some(Spill { sname: p.sname.push(o), ..p })
                } else {
                    None
                }
            },
        }
    }
}

/// The overload value for a placement: bit 0 when `file` holds options, bit 1
/// when `sname` does.
pub open spec fn spill_overload(p: Spill) -> u8 {
    ((if p.file.len() > 0 { 1int } else { 0int }) + (if p.sname.len() > 0 { 2int } else { 0int })) as u8
}

/// Once an option fits nowhere, placing more options does not help.
pub proof fn lemma_spill_none(s: Seq<DhcpOption>, cap: int, k: int)
    requires
        0 <= k <= s.len(),
        spill(s.subrange(0, k), cap) is None,
    ensures
        spill(s, cap) is None,
    decreases s.len() - k,
{
    if k < s.len() {
        assert(s.subrange(0, k + 1).drop_last() =~= s.subrange(0, k));
        lemma_spill_none(s, cap, k + 1);
    } else {
        assert(s.subrange(0, k) =~= s);
    }
}

/// The fields of a placement stay within their room.
pub proof fn lemma_spill_bounds(s: Seq<DhcpOption>, cap: int)
    requires
        spill(s, cap) is Some,
        cap >= 0,
    ensures
        concat_frags(spill(s, cap).unwrap().main).len() <= cap,
        concat_frags(spill(s, cap).unwrap().file).len() <= 127,
        concat_frags(spill(s, cap).unwrap().sname).len() <= 63,
    decreases s.len(),
{
    if s.len() > 0 {
        lemma_spill_bounds(s.drop_last(), cap);
        let q = spill(s.drop_last(), cap).unwrap();
        let p = spill(s, cap).unwrap();
        if p.main.len() > q.main.len() {
            assert(p.main.drop_last() =~= q.main);
        }
        if p.file.len() > q.file.len() {
            assert(p.file.drop_last() =~= q.file);
        }
        if p.sname.len() > q.sname.len() {
            assert(p.sname.drop_last() =~= q.sname);
        }
    }
}

/// The bytes that the options with code 52 of a sequence take when written.
pub open spec fn marker_len(s: Seq<DhcpOption>) -> int
    decreases s.len(),
{
    if s.len() == 0 {
        0
    } else {
        marker_len(s.drop_last()) + if opt_code(s.last()) == 52 {
            encode_frags(52, opt_data(s.last())).len() as int
        } else {
            0
        }
    }
}

/// The three fields of a placement take the bytes of the placed options,
/// but for those of option 52, which are left out.
pub proof fn lemma_spill_len(s: Seq<DhcpOption>, cap: int)
    requires
        spill(s, cap) is Some,
    ensures
        ({
            let p = spill(s, cap).unwrap();
            concat_frags(s).len() == concat_frags(p.main).len() + concat_frags(p.file).len()
                + concat_frags(p.sname).len() + marker_len(s)
        }),
    decreases s.len(),
{
    if s.len() > 0 {
        lemma_spill_len(s.drop_last(), cap);
        let q = spill(s.drop_last(), cap).unwrap();
        let p = spill(s, cap).unwrap();
        if p.main.len() > q.main.len() {
            assert(p.main.drop_last() =~= q.main);
        }
        if p.file.len() > q.file.len() {
            assert(p.file.drop_last() =~= q.file);
        }
        if p.sname.len() > q.sname.len() {
            assert(p.sname.drop_last() =~= q.sname);
        }
    }
}

/// With no option 52 in a sequence, none of its bytes are those of option 52.
proof fn lemma_marker_none(s: Seq<DhcpOption>)
    requires
        forall|j: int| 0 <= j < s.len() ==> opt_code(#[trigger] s[j]) != 52,
    ensures
        marker_len(s) == 0,
    decreases s.len(),
{
    if s.len() > 0 {
        let t = s.drop_last();
        assert forall|j: int| 0 <= j < t.len() implies opt_code(#[trigger] t[j]) != 52 by {
            assert(t[j] == s[j]);
        }
        lemma_marker_none(t);
        assert(opt_code(s[s.len() - 1]) != 52);
    }
}

/// In an ordered sequence whose option 52, if any, has at most one payload
/// byte, option 52 takes at most 3 bytes.
pub proof fn lemma_marker_bound(s: Seq<DhcpOption>)
    requires
        ordered_codes(s),
        forall|j: int| 0 <= j < s.len() && opt_code(#[trigger] s[j]) == 52 ==> opt_data(s[j]).len() <= 1,
    ensures
        marker_len(s) <= 3,
    decreases s.len(),
{
    if s.len() > 0 {
        let t = s.drop_last();
        let n = s.len() - 1;
        if opt_code(s[n]) == 52 {
            assert forall|j: int| 0 <= j < t.len() implies opt_code(#[trigger] t[j]) != 52 by {
                assert(t[j] == s[j]);
                assert(opt_code(s[j]) < opt_code(s[n]));
            }
            lemma_marker_none(t);
            assert(opt_data(s[n]).len() <= 1);
        } else {
            lemma_ordered_prefix(s);
            assert forall|j: int| 0 <= j < t.len() && opt_code(#[trigger] t[j]) == 52 implies opt_data(t[j]).len() <= 1 by {
                assert(t[j] == s[j]);
            }
            lemma_marker_bound(t);
        }
    }
}

/// An option is never written as an empty byte string.
pub proof fn lemma_concat_empty(s: Seq<DhcpOption>)
    ensures
        (concat_frags(s).len() == 0) == (s.len() == 0),
    decreases s.len(),
{
    if s.len() > 0 {
        lemma_concat_empty(s.drop_last());
        let o = s.last();
        lemma_frags_len(opt_code(o), opt_data(o));
    }
}

/// Appends an `n`-byte header field holding either its name (when no option
/// spilled into it) or the options spilled into it and End, zero-filled.
fn push_name_or_options(buf: &mut Vec<u8>, name: &Option<Vec<u8>>, opts: Vec<u8>, n: usize)
    requires
        name matches Some(b) ==> b@.len() <= n,
        opts@.len() < n,
    ensures
        final(buf)@ == old(buf)@ + (if opts@.len() == 0 {
            fill(opt_bytes(*name), n as nat)
        } else {
            fill(Some(opts@.push(255)), n as nat)
        }),
{
    if opts.len() == 0 {
        push_fill(buf, name, n);
    } else {
        let mut opts = opts;
        opts.push(255);
        let field = Some(opts);
        push_fill(buf, &field, n);
    }
}

/// A DHCPv4 message (RFC 2131 §2).
///
/// ```text
/// op (1) | htype (1) | hlen (1) | hops (1) | xid (4) | secs (2) | flags (2)
/// ciaddr (4) | yiaddr (4) | siaddr (4) | giaddr (4) | chaddr (16)
/// sname (64) | file (128) | magic cookie (4) | options (variable)
/// ```
#[derive(Debug, Clone, PartialEq, Eq)]
pub struct Message {
    opcode: Opcode,
    htype: HType,
    hlen: u8,
    hops: u8,
    xid: u32,
    secs: u16,
    flags: Flags,
    ciaddr: u32,
    yiaddr: u32,
    siaddr: u32,
    giaddr: u32,
    chaddr: Vec<u8>,
    sname: Option<Vec<u8>>,
    fname: Option<Vec<u8>>,
    opts: DhcpOptions,
}

impl View for Message {
    type V = MessageModel;

    closed spec fn view(&self) -> MessageModel {
        MessageModel {
            opcode: self.opcode,
            htype: self.htype,
            hlen: self.hlen,
            hops: self.hops,
            xid: self.xid,
            secs: self.secs,
            flags: self.flags@,
            ciaddr: self.ciaddr,
            yiaddr: self.yiaddr,
            siaddr: self.siaddr,
            giaddr: self.giaddr,
            chaddr: self.chaddr@,
            sname: opt_bytes(self.sname),
            fname: opt_bytes(self.fname),
            opts: self.opts@,
        }
    }
}

/// The model of a fresh boot request: BootRequest, Ethernet, no hops, no
/// elapsed time, no flags, no names, no options, and the given transaction id,
/// addresses and hardware address (of at most 16 bytes, zero-filled to 16).
pub open spec fn fresh_model(xid: u32, ciaddr: u32, yiaddr: u32, siaddr: u32, giaddr: u32, chaddr: Seq<u8>) -> MessageModel {
    MessageModel {
        opcode: Opcode::BootRequest,
        htype: HType::Eth,
        hlen: chaddr.len() as u8,
        hops: 0,
        xid,
        secs: 0,
        flags: 0,
        ciaddr,
        yiaddr,
        siaddr,
        giaddr,
        chaddr: chaddr + zeros((16 - chaddr.len()) as nat),
        sname: None,
        fname: None,
        opts: Map::empty(),
    }
}

/// The model after `set_chaddr`: the first 16 bytes of the address,
/// zero-filled to 16, and their count as the hardware address length.
pub open spec fn with_chaddr(v: MessageModel, c: Seq<u8>) -> MessageModel {
    let n = if c.len() >= 16 { 16 } else { c.len() };
    MessageModel { hlen: n as u8, chaddr: c.subrange(0, n as int) + zeros((16 - n) as nat), ..v }
}

/// One call of a setter of `Message`, as the value it is given.
pub enum SetterStep {
    Opcode(Opcode),
    Htype(HType),
    Hops(u8),
    Chaddr(Seq<u8>),
    Giaddr(u32),
    Siaddr(u32),
    Yiaddr(u32),
    Ciaddr(u32),
    ClearAddrs,
    Flags(u16),
    Secs(u16),
    Xid(u32),
    Fname(Option<Seq<u8>>),
    Sname(Option<Seq<u8>>),
    Opts(Map<u8, OptionValue>),
}

/// The model after a setter call: the field it sets takes the value given
/// (`set_chaddr` as `with_chaddr` says; `clear_addrs` zeroes all four
/// addresses), and every other field is kept.
pub open spec fn apply_setter(v: MessageModel, st: SetterStep) -> MessageModel {
    match st {
        SetterStep::Opcode(o) => MessageModel { opcode: o, ..v },
        SetterStep::Htype(h) => MessageModel { htype: h, ..v },
        SetterStep::Hops(n) => MessageModel { hops: n, ..v },
        SetterStep::Chaddr(c) => with_chaddr(v, c),
        SetterStep::Giaddr(a) => MessageModel { giaddr: a, ..v },
        SetterStep::Siaddr(a) => MessageModel { siaddr: a, ..v },
        SetterStep::Yiaddr(a) => MessageModel { yiaddr: a, ..v },
        SetterStep::Ciaddr(a) => MessageModel { ciaddr: a, ..v },
        SetterStep::ClearAddrs => MessageModel { ciaddr: 0, yiaddr: 0, siaddr: 0, giaddr: 0, ..v },
        SetterStep::Flags(f) => MessageModel { flags: f, ..v },
        SetterStep::Secs(n) => MessageModel { secs: n, ..v },
        SetterStep::Xid(x) => MessageModel { xid: x, ..v },
        SetterStep::Fname(f) => MessageModel { fname: f, ..v },
        SetterStep::Sname(n) => MessageModel { sname: n, ..v },
        SetterStep::Opts(m) => MessageModel { opts: m, ..v },
    }
}

/// The model after a sequence of setter calls, in order.
pub open spec fn apply_setters(v: MessageModel, steps: Seq<SetterStep>) -> MessageModel
    decreases steps.len(),
{
    if steps.len() == 0 {
        v
    } else {
        apply_setter(apply_setters(v, steps.drop_last()), steps.last())
    }
}

/// A message built by `new`, `new_with_id` or `default` and then changed by
/// any setters other than `set_hlen` has a hardware address length of at
/// most 16, so `chaddr` can be called and gives back the address that was
/// set. The constructors set the length to that of the given address, at
/// most 16; `set_chaddr` sets it to at most 16; every other setter keeps it
/// (its `ensures` keeps every other field of the model).
pub proof fn law_built_hlen(xid: u32, ciaddr: u32, yiaddr: u32, siaddr: u32, giaddr: u32, c: Seq<u8>, v: MessageModel, d: Seq<u8>)
    requires
        c.len() <= 16,
    ensures
        fresh_model(xid, ciaddr, yiaddr, siaddr, giaddr, c).hlen == c.len(),
        fresh_model(xid, ciaddr, yiaddr, siaddr, giaddr, c).chaddr.subrange(0, c.len() as int) == c,
        with_chaddr(v, d).hlen <= 16,
        with_chaddr(v, d).chaddr.len() == 16,
        with_chaddr(v, d).chaddr.subrange(0, with_chaddr(v, d).hlen as int) == d.subrange(0, with_chaddr(v, d).hlen as int),
{
    let f = fresh_model(xid, ciaddr, yiaddr, siaddr, giaddr, c);
    assert(f.chaddr.subrange(0, c.len() as int) =~= c);
    let w = with_chaddr(v, d);
    assert(w.chaddr.subrange(0, w.hlen as int) =~= d.subrange(0, w.hlen as int));
}

/// `rand::random::<u32>()`: a value drawn from the thread-local generator.
/// Nothing is stated of the value. The generator panics when the operating
/// system's random source cannot seed it; no `requires` can rule that out.
#[verifier::external_body]
fn random_xid() -> u32 {
    rand::random::<u32>()
}

impl Default for Message {
    /// A boot request with a random transaction id, all addresses zero and an
    /// empty hardware address.
    fn default() -> (m: Message)
        ensures
            m.wf(),
            m@ == fresh_model(m@.xid, 0, 0, 0, 0, Seq::empty()),
    {
        let mut chaddr: Vec<u8> = Vec::new();
        push_zeros(&mut chaddr, 16);
        assert(Seq::<u8>::empty() + zeros(16) =~= zeros(16));
        Message {
            opcode: Opcode::BootRequest,
            htype: HType::Eth,
            hlen: 0,
            hops: 0,
            xid: random_xid(),
            secs: 0,
            flags: Flags::default(),
            ciaddr: 0,
            yiaddr: 0,
            siaddr: 0,
            giaddr: 0,
            chaddr,
            sname: None,
            fname: None,
            opts: DhcpOptions::new(),
        }
    }
}

impl Message {
    /// A boot request with a random transaction id.
    pub fn new(ciaddr: u32, yiaddr: u32, siaddr: u32, giaddr: u32, chaddr: &[u8]) -> (m: Message)
        requires
            chaddr@.len() <= 16,
        ensures
            m.wf(),
            m@ == fresh_model(m@.xid, ciaddr, yiaddr, siaddr, giaddr, chaddr@),
    {
        Self::new_with_id(random_xid(), ciaddr, yiaddr, siaddr, giaddr, chaddr)
    }

    /// A boot request with the given transaction id.
    pub fn new_with_id(xid: u32, ciaddr: u32, yiaddr: u32, siaddr: u32, giaddr: u32, chaddr: &[u8]) -> (m: Message)
        requires
            chaddr@.len() <= 16,
        ensures
            m.wf(),
            m@ == fresh_model(xid, ciaddr, yiaddr, siaddr, giaddr, chaddr@),
    {
        let mut new_chaddr: Vec<u8> = Vec::new();
        extend_bytes(&mut new_chaddr, chaddr);
        push_zeros(&mut new_chaddr, 16 - chaddr.len());
        Message {
            opcode: Opcode::BootRequest,
            htype: HType::Eth,
            hlen: chaddr.len() as u8,
            hops: 0,
            xid,
            secs: 0,
            flags: Flags::default(),
            ciaddr,
            yiaddr,
            siaddr,
            giaddr,
            chaddr: new_chaddr,
            sname: None,
            fname: None,
            opts: DhcpOptions::new(),
        }
    }

    /// The message's invariant: a 16-byte `chaddr`, an `sname` of at most 64
    /// bytes, a `file` name of at most 128 bytes and a well-formed store.
    pub closed spec fn wf(&self) -> bool {
        &&& self.chaddr@.len() == 16
        &&& (self.sname matches Some(b) ==> b@.len() <= 64)
        &&& (self.fname matches Some(b) ==> b@.len() <= 128)
        &&& self.opts.wf()
    }

    /// The option store itself.
    pub closed spec fn spec_opts(&self) -> DhcpOptions {
        self.opts
    }

    pub proof fn lemma_wf(&self)
        requires
            self.wf(),
        ensures
            self@.chaddr.len() == 16,
            self@.sname matches Some(b) ==> b.len() <= 64,
            self@.fname matches Some(b) ==> b.len() <= 128,
            self.spec_opts().wf(),
            self.spec_opts()@ == self@.opts,
    {
    }

    /// Get the message's opcode.
    pub fn opcode(&self) -> (r: Opcode)
        ensures
            r == self@.opcode,
    {
        self.opcode
    }

    /// Set the message's opcode.
    pub fn set_opcode(&mut self, opcode: Opcode) -> (r: &mut Self)
        ensures
            r@ == apply_setter(old(self)@, SetterStep::Opcode(opcode)),
            r.spec_opts() == old(self).spec_opts(),
            old(self).wf() ==> r.wf(),
            *final(self) == *final(r),
    {
        self.opcode = opcode;
        self
    }

    /// Get the message's hardware type.
    pub fn htype(&self) -> (r: HType)
        ensures
            r == self@.htype,
    {
        self.htype
    }

    /// Set the message's hardware type.
    pub fn set_htype(&mut self, htype: HType) -> (r: &mut Self)
        ensures
            r@ == apply_setter(old(self)@, SetterStep::Htype(htype)),
            r.spec_opts() == old(self).spec_opts(),
            old(self).wf() ==> r.wf(),
            *final(self) == *final(r),
    {
        self.htype = htype;
        self
    }

    /// Get the message's hardware address length (the length of chaddr).
    pub fn hlen(&self) -> (r: u8)
        ensures
            r == self@.hlen,
    {
        self.hlen
    }

    /// Get the message's hops. Clients set it to zero; relay agents may use
    /// it when booting through a relay.
    pub fn hops(&self) -> (r: u8)
        ensures
            r == self@.hops,
    {
        self.hops
    }

    /// Set the message's hops.
    pub fn set_hops(&mut self, hops: u8) -> (r: &mut Self)
        ensures
            r@ == apply_setter(old(self)@, SetterStep::Hops(hops)),
            r.spec_opts() == old(self).spec_opts(),
            old(self).wf() ==> r.wf(),
            *final(self) == *final(r),
    {
        self.hops = hops;
        self
    }

    /// Set the hardware address length field alone, leaving the address
    /// field as it is.
    pub fn set_hlen(&mut self, hlen: u8) -> (r: &mut Self)
        ensures
            r@ == (MessageModel { hlen, ..old(self)@ }),
            r.spec_opts() == old(self).spec_opts(),
            old(self).wf() ==> r.wf(),
            *final(self) == *final(r),
    {
        self.hlen = hlen;
        self
    }

    /// The whole 16-byte client hardware address field, whatever `hlen` says.
    pub fn chaddr_field(&self) -> (r: &[u8])
        ensures
            r@ == self@.chaddr,
    {
        self.chaddr.as_slice()
    }

    /// Get the message's client hardware address: the first `hlen` bytes
    /// of the field.
    pub fn chaddr(&self) -> (r: &[u8])
        requires
            self.wf(),
            self@.hlen <= 16,
        ensures
            r@ == self@.chaddr.subrange(0, self@.hlen as int),
    {
        &self.chaddr.as_slice()[0..self.hlen as usize]
    }

    /// Set the message's client hardware address; only its first 16 bytes
    /// are kept.
    pub fn set_chaddr(&mut self, chaddr: &[u8]) -> (r: &mut Self)
        ensures
            r@ == apply_setter(old(self)@, SetterStep::Chaddr(chaddr@)),
            r.spec_opts() == old(self).spec_opts(),
            old(self).wf() ==> r.wf(),
            *final(self) == *final(r),
    {
        let n: usize = if chaddr.len() >= 16 { 16 } else { chaddr.len() };
        let mut new_chaddr: Vec<u8> = Vec::new();
        extend_range(&mut new_chaddr, chaddr, 0, n);
        let mut i: usize = n;
        while i < 16
            invariant
                n <= i <= 16,
                new_chaddr@ == chaddr@.subrange(0, n as int) + zeros((i - n) as nat),
            decreases 16 - i,
        {
            new_chaddr.push(0);
            i = i + 1;
            assert(new_chaddr@ =~= chaddr@.subrange(0, n as int) + zeros((i - n) as nat));
        }
        self.hlen = n as u8;
        self.chaddr = new_chaddr;
        self
    }
    /// Get the message's gateway IP address (giaddr), as the u32 of its octets.
    pub fn giaddr(&self) -> (r: u32)
        ensures
            r == self@.giaddr,
    {
        self.giaddr
    }

    /// Set the message's gateway IP address (giaddr).
    pub fn set_giaddr(&mut self, giaddr: u32) -> (r: &mut Self)
        ensures
            r@ == apply_setter(old(self)@, SetterStep::Giaddr(giaddr)),
            r.spec_opts() == old(self).spec_opts(),
            old(self).wf() ==> r.wf(),
            *final(self) == *final(r),
    {
        self.giaddr = giaddr;
        self
    }

    /// Get the message's server IP address (siaddr), as the u32 of its octets.
    pub fn siaddr(&self) -> (r: u32)
        ensures
            r == self@.siaddr,
    {
        self.siaddr
    }

    /// Set the message's server IP address (siaddr).
    pub fn set_siaddr(&mut self, siaddr: u32) -> (r: &mut Self)
        ensures
            r@ == apply_setter(old(self)@, SetterStep::Siaddr(siaddr)),
            r.spec_opts() == old(self).spec_opts(),
            old(self).wf() ==> r.wf(),
            *final(self) == *final(r),
    {
        self.siaddr = siaddr;
        self
    }

    /// Get the message's "your" IP address (yiaddr), as the u32 of its octets; in an OFFER this is the address the server offers.
    pub fn yiaddr(&self) -> (r: u32)
        ensures
            r == self@.yiaddr,
    {
        self.yiaddr
    }

    /// Set the message's "your" IP address (yiaddr).
    pub fn set_yiaddr(&mut self, yiaddr: u32) -> (r: &mut Self)
        ensures
            r@ == apply_setter(old(self)@, SetterStep::Yiaddr(yiaddr)),
            r.spec_opts() == old(self).spec_opts(),
            old(self).wf() ==> r.wf(),
            *final(self) == *final(r),
    {
        self.yiaddr = yiaddr;
        self
    }

    /// Get the message's client IP address (ciaddr), as the u32 of its octets.
    pub fn ciaddr(&self) -> (r: u32)
        ensures
            r == self@.ciaddr,
    {
        self.ciaddr
    }

    /// Set the message's client IP address (ciaddr).
    pub fn set_ciaddr(&mut self, ciaddr: u32) -> (r: &mut Self)
        ensures
            r@ == apply_setter(old(self)@, SetterStep::Ciaddr(ciaddr)),
            r.spec_opts() == old(self).spec_opts(),
            old(self).wf() ==> r.wf(),
            *final(self) == *final(r),
    {
        self.ciaddr = ciaddr;
        self
    }

    /// Get the message's seconds elapsed since the client began acquisition or renewal.
    pub fn secs(&self) -> (r: u16)
        ensures
            r == self@.secs,
    {
        self.secs
    }

    /// Set the message's seconds elapsed.
    pub fn set_secs(&mut self, secs: u16) -> (r: &mut Self)
        ensures
            r@ == apply_setter(old(self)@, SetterStep::Secs(secs)),
            r.spec_opts() == old(self).spec_opts(),
            old(self).wf() ==> r.wf(),
            *final(self) == *final(r),
    {
        self.secs = secs;
        self
    }

    /// Get the message's transaction id, a random number chosen by the client.
    pub fn xid(&self) -> (r: u32)
        ensures
            r == self@.xid,
    {
        self.xid
    }

    /// Set the message's transaction id.
    pub fn set_xid(&mut self, xid: u32) -> (r: &mut Self)
        ensures
            r@ == apply_setter(old(self)@, SetterStep::Xid(xid)),
            r.spec_opts() == old(self).spec_opts(),
            old(self).wf() ==> r.wf(),
            *final(self) == *final(r),
    {
        self.xid = xid;
        self
    }

    /// Clear the four address fields.
    pub fn clear_addrs(&mut self) -> (r: &mut Self)
        ensures
            r@ == apply_setter(old(self)@, SetterStep::ClearAddrs),
            r.spec_opts() == old(self).spec_opts(),
            old(self).wf() ==> r.wf(),
            *final(self) == *final(r),
    {
        self.ciaddr = 0;
        self.yiaddr = 0;
        self.siaddr = 0;
        self.giaddr = 0;
        self
    }

    /// Get the message's flags.
    pub fn flags(&self) -> (r: Flags)
        ensures
            r@ == self@.flags,
    {
        self.flags
    }

    /// Set the message's flags.
    pub fn set_flags(&mut self, flags: Flags) -> (r: &mut Self)
        ensures
            r@ == apply_setter(old(self)@, SetterStep::Flags(flags@)),
            r.spec_opts() == old(self).spec_opts(),
            old(self).wf() ==> r.wf(),
            *final(self) == *final(r),
    {
        self.flags = flags;
        self
    }

    /// Get the message's boot file name. No particular encoding is enforced.
    pub fn fname(&self) -> (r: Option<&[u8]>)
        ensures
            match r {
                Some(b) => self@.fname == Some(b@),
                None => self@.fname is None,
            },
    {
        match &self.fname {
            Some(b) => Some(b.as_slice()),
            None => None,
        }
    }

    /// Clear the `file` header field.
    pub fn clear_fname(&mut self)
        ensures
            final(self)@ == apply_setter(old(self)@, SetterStep::Fname(None)),
            final(self).spec_opts() == old(self).spec_opts(),
            old(self).wf() ==> final(self).wf(),
    {
        self.fname = None;
    }

    /// Get the message's boot file name, read as UTF-8.
    pub fn fname_str(&self) -> (r: Option<Result<&str, Utf8Error>>)
        ensures
            match r {
                None => self@.fname is None,
                Some(res) => self@.fname is Some && utf8_outcome(self@.fname.unwrap(), res),
            },
    {
        match &self.fname {
            Some(b) => Some(utf8_str(b.as_slice())),
            None => None,
        }
    }

    /// Set the message's boot file name from a UTF-8 string of at most 128
    /// bytes.
    pub fn set_fname_str(&mut self, file: &str) -> (r: &mut Self)
        requires
            file.spec_bytes().len() <= 128,
        ensures
            r@ == apply_setter(old(self)@, SetterStep::Fname(Some(file.spec_bytes()))),
            r.spec_opts() == old(self).spec_opts(),
            old(self).wf() ==> r.wf(),
            *final(self) == *final(r),
    {
        let bytes = file.as_bytes();
        self.set_fname(bytes)
    }

    /// Set the message's boot file name, at most 128 bytes. No particular
    /// encoding is enforced.
    pub fn set_fname(&mut self, file: &[u8]) -> (r: &mut Self)
        requires
            file@.len() <= 128,
        ensures
            r@ == apply_setter(old(self)@, SetterStep::Fname(Some(file@))),
            r.spec_opts() == old(self).spec_opts(),
            old(self).wf() ==> r.wf(),
            *final(self) == *final(r),
    {
        let mut v: Vec<u8> = Vec::new();
        extend_bytes(&mut v, file);
        self.fname = Some(v);
        self
    }

    /// Get the message's server host name. No particular encoding is enforced.
    pub fn sname(&self) -> (r: Option<&[u8]>)
        ensures
            match r {
                Some(b) => self@.sname == Some(b@),
                None => self@.sname is None,
            },
    {
        match &self.sname {
            Some(b) => Some(b.as_slice()),
            None => None,
        }
    }

    /// Clear the `sname` header field.
    pub fn clear_sname(&mut self)
        ensures
            final(self)@ == apply_setter(old(self)@, SetterStep::Sname(None)),
            final(self).spec_opts() == old(self).spec_opts(),
            old(self).wf() ==> final(self).wf(),
    {
        self.sname = None;
    }

    /// Get the message's server host name, read as UTF-8.
    pub fn sname_str(&self) -> (r: Option<Result<&str, Utf8Error>>)
        ensures
            match r {
                None => self@.sname is None,
                Some(res) => self@.sname is Some && utf8_outcome(self@.sname.unwrap(), res),
            },
    {
        match &self.sname {
            Some(b) => Some(utf8_str(b.as_slice())),
            None => None,
        }
    }

    /// Set the message's server host name, at most 64 bytes. No particular
    /// encoding is enforced.
    pub fn set_sname(&mut self, sname: &[u8]) -> (r: &mut Self)
        requires
            sname@.len() <= 64,
        ensures
            r@ == apply_setter(old(self)@, SetterStep::Sname(Some(sname@))),
            r.spec_opts() == old(self).spec_opts(),
            old(self).wf() ==> r.wf(),
            *final(self) == *final(r),
    {
        let mut v: Vec<u8> = Vec::new();
        extend_bytes(&mut v, sname);
        self.sname = Some(v);
        self
    }

    /// Set the message's server host name from a UTF-8 string of at most 64
    /// bytes.
    pub fn set_sname_str(&mut self, sname: &str) -> (r: &mut Self)
        requires
            sname.spec_bytes().len() <= 64,
        ensures
            r@ == apply_setter(old(self)@, SetterStep::Sname(Some(sname.spec_bytes()))),
            r.spec_opts() == old(self).spec_opts(),
            old(self).wf() ==> r.wf(),
            *final(self) == *final(r),
    {
        let bytes = sname.as_bytes();
        self.set_sname(bytes)
    }

    /// Get the message's options.
    pub fn opts(&self) -> (r: &DhcpOptions)
        ensures
            *r == self.spec_opts(),
    {
        &self.opts
    }

    /// Set the message's options.
    pub fn set_opts(&mut self, opts: DhcpOptions) -> (r: &mut Self)
        ensures
            r@ == apply_setter(old(self)@, SetterStep::Opts(opts@)),
            r.spec_opts() == opts,
            old(self).wf() && opts.wf() ==> r.wf(),
            *final(self) == *final(r),
    {
        self.opts = opts;
        self
    }

    /// Get a mutable reference to the message's options.
    pub fn opts_mut(&mut self) -> (r: &mut DhcpOptions)
        ensures
            *r == old(self).spec_opts(),
            final(self)@ == apply_setter(old(self)@, SetterStep::Opts(final(r)@)),
            final(self).spec_opts() == *final(r),
            old(self).wf() && final(r).wf() ==> final(self).wf(),
    {
        &mut self.opts
    }
    /// The bytes that `encode` writes: the header, `sname` and `file`
    /// zero-filled to 64 and 128 bytes, the magic cookie, and the options.
    pub open spec fn encoding(&self) -> Seq<u8> {
        header_bytes(self@) + fill(self@.sname, 64) + fill(self@.fname, 128) + magic_seq()
            + encode_options(self.spec_opts().entries())
    }

    /// A message is canonical when decoding its encoding gives it back field
    /// for field: the op code and hardware type are the values their numbers
    /// read as, each option is the one its payload reads as, no typed option
    /// 52 asks for overload, and each name reads back from its field.
    pub open spec fn canonical(&self) -> bool {
        &&& forall|i: int| 0 <= i < self.spec_opts().entries().len()
            ==> canonical(#[trigger] self.spec_opts().entries()[i])
        &&& overload_value(self@.opts) == 0
        &&& opcode_from(opcode_num(self@.opcode)) == self@.opcode
        &&& htype_from(htype_num(self@.htype)) == self@.htype
        &&& name_canonical(self@.sname, 64)
        &&& name_canonical(self@.fname, 128)
    }

    /// Decodes a message.
    ///
    /// Errors with `NotEnoughBytes` when the bytes end before the 240 bytes of
    /// the fixed header and magic cookie, and with `InvalidData` when the
    /// magic cookie is not 99.130.83.99. Option 52 (overload), when held with
    /// a nonzero value, makes the `file` (bit 0) and `sname` (bit 1) fields
    /// hold options instead of names; their options are spliced after the main
    /// options field's and read in one pass, so that an option split across
    /// fields is joined (RFC 3396).
    pub fn decode(bytes: &[u8]) -> (r: Result<Message, DecodeError>)
        ensures
            match r {
                Ok(m) => m.wf() && m.canonical() && decode_spec(bytes@) == Ok::<MessageModel, DecodeError>(m@),
                Err(e) => decode_spec(bytes@) == Err::<MessageModel, DecodeError>(e),
            },
    {
        let ghost s = bytes@;
        if bytes.len() < 240 {
            return Err(DecodeError::NotEnoughBytes);
        }
        if bytes[236] != 99 || bytes[237] != 130 || bytes[238] != 83 || bytes[239] != 99 {
            assert(s.subrange(236, 240) != magic_seq()) by {
                if s.subrange(236, 240) == magic_seq() {
                    assert(s.subrange(236, 240)[0] == s[236]);
                    assert(s.subrange(236, 240)[1] == s[237]);
                    assert(s.subrange(236, 240)[2] == s[238]);
                    assert(s.subrange(236, 240)[3] == s[239]);
                }
            }
            return Err(DecodeError::InvalidData(read_u32(bytes, 236), BAD_MAGIC));
        }
        assert(s.subrange(236, 240) =~= magic_seq());
        let opts_raw = &bytes[240..bytes.len()];
        let file_raw = &bytes[108..236];
        let sname_raw = &bytes[44..108];
        let mut opts = DhcpOptions::decode(opts_raw);
        let overload: u8 = match opts.get(OptionCode::OptionOverload) {
            Some(DhcpOption::OptionOverload(v)) => *v,
            _ => 0,
        };
        assert(overload == overload_value(parse_options(opts_raw@)));
        assert((overload & 1 != 0) == file_overloaded(overload)) by (bit_vector);
        assert((overload & 2 != 0) == sname_overloaded(overload)) by (bit_vector);
        if overload != 0 {
            let mut combined: Vec<u8> = Vec::new();
            append_region_options(&mut combined, opts_raw);
            let ghost c1 = combined@;
            if overload & 1 != 0 {
                append_region_options(&mut combined, file_raw);
            } else {
                assert(combined@ =~= c1 + Seq::<u8>::empty());
            }
            let ghost c2 = combined@;
            if overload & 2 != 0 {
                append_region_options(&mut combined, sname_raw);
            } else {
                assert(combined@ =~= c2 + Seq::<u8>::empty());
            }
            combined.push(255);
            assert(combined@ =~= spliced_options(opts_raw@, file_raw@, sname_raw@, overload));
            opts = DhcpOptions::decode(combined.as_slice());
        }
        let sname = if overload & 2 != 0 {
            None
        } else {
            trim_nul(sname_raw)
        };
        let fname = if overload & 1 != 0 {
            None
        } else {
            trim_nul(file_raw)
        };
        let mut chaddr: Vec<u8> = Vec::new();
        extend_range(&mut chaddr, bytes, 28, 44);
        let m = Message {
            opcode: Opcode::from_u8(bytes[0]),
            htype: HType::from_u8(bytes[1]),
            hlen: bytes[2],
            hops: bytes[3],
            xid: read_u32(bytes, 4),
            secs: read_u16(bytes, 8),
            flags: Flags::new(read_u16(bytes, 10)),
            ciaddr: read_u32(bytes, 12),
            yiaddr: read_u32(bytes, 16),
            siaddr: read_u32(bytes, 20),
            giaddr: read_u32(bytes, 24),
            chaddr,
            sname,
            fname,
            opts,
        };
        proof {
            lemma_trim_len(sname_raw@);
            lemma_trim_len(file_raw@);
            assert(m@ == decode_spec(s).unwrap());
            lemma_trim_fill(sname_raw@, 64);
            lemma_trim_fill(file_raw@, 128);
            if overload != 0 {
                lemma_spliced_no_marker(opts_raw@, file_raw@, sname_raw@, overload);
            }
        }
        Ok(m)
    }

    /// Appends the encoded message: the header, `sname` and `file`
    /// zero-filled to 64 and 128 bytes, the magic cookie, and the options
    /// field.
    pub fn encode(&self, buf: &mut Vec<u8>)
        requires
            self.wf(),
        ensures
            final(buf)@ == old(buf)@ + self.encoding(),
    {
        let ghost start = buf@;
        self.encode_header(buf);
        push_fill(buf, &self.sname, 64);
        push_fill(buf, &self.fname, 128);
        buf.push(99);
        buf.push(130);
        buf.push(83);
        buf.push(99);
        self.opts.encode(buf);
        assert(buf@ =~= start + self.encoding());
    }

    /// Appends the 44 header bytes up to and including `chaddr`.
    fn encode_header(&self, buf: &mut Vec<u8>)
        requires
            self.wf(),
        ensures
            final(buf)@ == old(buf)@ + header_bytes(self@),
    {
        let ghost start = buf@;
        buf.push(self.opcode.to_u8());
        buf.push(self.htype.to_u8());
        buf.push(self.hlen);
        buf.push(self.hops);
        push_u32(buf, self.xid);
        push_u16(buf, self.secs);
        push_u16(buf, self.flags.bits());
        push_u32(buf, self.ciaddr);
        push_u32(buf, self.yiaddr);
        push_u32(buf, self.siaddr);
        push_u32(buf, self.giaddr);
        extend_bytes(buf, self.chaddr.as_slice());
        assert(buf@ =~= start + header_bytes(self@));
    }
    /// The bytes that `encode_overloaded` writes when options spill into the
    /// header fields: the header; `sname` and `file` each holding either their
    /// name or their options and End; the cookie; the overload marker, the main
    /// options and End.
    pub open spec fn overloaded_encoding(&self, p: Spill) -> Seq<u8> {
        header_bytes(self@) + (if p.sname.len() == 0 {
            fill(self@.sname, 64)
        } else {
            fill(Some(concat_frags(p.sname).push(255)), 64)
        }) + (if p.file.len() == 0 {
            fill(self@.fname, 128)
        } else {
            fill(Some(concat_frags(p.file).push(255)), 128)
        }) + magic_seq() + seq![52u8, 1u8, spill_overload(p)] + concat_frags(p.main) + seq![255u8]
    }

    /// Places the options as `spill` does, handing back the bytes of the
    /// options placed in the main field, in `file` and in `sname`.
    fn place_options(&self, max_len: usize) -> (r: Option<(Vec<u8>, Vec<u8>, Vec<u8>, Ghost<Spill>)>)
        requires
            self.wf(),
        ensures
            match spill(self.spec_opts().entries(), main_cap(max_len)) {
                None => r is None,
                Some(p) => r matches Some((main, file, sname, g)) && g@ == p && main@ == concat_frags(p.main)
                    && file@ == concat_frags(p.file) && sname@ == concat_frags(p.sname)
                    && main@.len() <= main_cap(max_len) && file@.len() <= 127 && sname@.len() <= 63,
            },
    {
        let ghost entries = self.opts.entries();
        let opts = self.opts.options();
        let cap: usize = if max_len >= 244 { max_len - 244 } else { 0 };
        let mut main: Vec<u8> = Vec::new();
        let mut file: Vec<u8> = Vec::new();
        let mut sname: Vec<u8> = Vec::new();
        let ghost mut p = Spill { main: Seq::empty(), file: Seq::empty(), sname: Seq::empty() };
        assert(entries.subrange(0, 0) =~= Seq::<DhcpOption>::empty());
        let mut i: usize = 0;
        while i < opts.len()
            invariant
                0 <= i <= entries.len(),
                opts@ == entries,
                entries == self.spec_opts().entries(),
                cap == main_cap(max_len),
                spill(entries.subrange(0, i as int), cap as int) == Some(p),
                main@ == concat_frags(p.main),
                file@ == concat_frags(p.file),
                sname@ == concat_frags(p.sname),
                main@.len() <= cap,
                file@.len() <= 127,
                sname@.len() <= 63,
            decreases entries.len() - i,
        {
            let o = &opts[i];
            let ghost pre = entries.subrange(0, i + 1);
            assert(pre.drop_last() =~= entries.subrange(0, i as int));
            assert(pre.last() == *o);
            if o.code().to_u8() != 52 {
                let mut block: Vec<u8> = Vec::new();
                o.encode(&mut block);
                assert(block@ =~= encode_frags(opt_code(*o), opt_data(*o)));
                if block.len() <= cap - main.len() {
                    extend_bytes(&mut main, block.as_slice());
                    proof {
                        assert(p.main.push(*o).drop_last() =~= p.main);
                        p = Spill { main: p.main.push(*o), ..p };
                    }
                } else if block.len() <= 127 - file.len() {
                    extend_bytes(&mut file, block.as_slice());
                    proof {
                        assert(p.file.push(*o).drop_last() =~= p.file);
                        p = Spill { file: p.file.push(*o), ..p };
                    }
                } else if block.len() <= 63 - sname.len() {
                    extend_bytes(&mut sname, block.as_slice());
                    proof {
                        assert(p.sname.push(*o).drop_last() =~= p.sname);
                        p = Spill { sname: p.sname.push(*o), ..p };
                    }
                } else {
                    proof {
                        assert(spill(pre, cap as int) is None);
                        lemma_spill_none(entries, cap as int, i + 1);
                        assert(spill(entries, main_cap(max_len)) is None);
                        assert(entries == self.spec_opts().entries());
                    }
                    return None;
                }
            }
            i = i + 1;
        }
        assert(entries.subrange(0, i as int) =~= entries);
        Some((main, file, sname, Ghost(p)))
    }

    /// What `encode_overloaded` writes for `max_len`, or `None` when it
    /// fails: the plain encoding when it fits; else, when the options placed
    /// by `spill` spill into the header fields, those fields behind the
    /// overload marker, and when none spill, the plain encoding again.
    pub open spec fn overloaded_output(&self, max_len: usize) -> Option<Seq<u8>> {
        if self.encoding().len() <= max_len {
            Some(self.encoding())
        } else {
            match spill(self.spec_opts().entries(), main_cap(max_len)) {
                None => None,
                Some(p) => Some(
                    if p.file.len() == 0 && p.sname.len() == 0 {
                        self.encoding()
                    } else {
                        self.overloaded_encoding(p)
                    },
                ),
            }
        }
    }

    /// Encodes the message within `max_len` bytes. When the plain encoding
    /// fits, this writes what `encode` writes. Otherwise options that do not
    /// fit are spilled into the `file` then `sname` header fields (RFC 2131
    /// §4.1, RFC 2132 §9.3), each option whole into one field, behind an
    /// overload marker written by this function; an option 52 held is not
    /// written then. Errors with `MessageTooLarge`, writing nothing, when an
    /// option fits in none of the fields. When nothing spills this writes
    /// what `encode` writes, even if that is longer than `max_len`, which
    /// only a held option 52 of more than one payload byte can cause. With
    /// `max_len` at least 244 (room for the header, the marker and End) and
    /// no such option 52, whatever is written fits in `max_len` bytes.
    pub fn encode_overloaded(&self, buf: &mut Vec<u8>, max_len: usize) -> (r: Result<(), EncodeError>)
        requires
            self.wf(),
        ensures
            match self.overloaded_output(max_len) {
                None => r == Err::<(), EncodeError>(EncodeError::MessageTooLarge { max_len })
                    && final(buf)@ == old(buf)@,
                Some(e) => r is Ok && final(buf)@ == old(buf)@ + e,
            },
            self.encoding().len() <= max_len ==> r is Ok && final(buf)@ == old(buf)@ + self.encoding(),
            max_len >= 244 && r is Ok && (self@.opts.contains_key(52) ==> self@.opts[52].data.len() <= 1)
                ==> final(buf)@.len() - old(buf)@.len() <= max_len,
    {
        let mut plain: Vec<u8> = Vec::new();
        self.encode(&mut plain);
        assert(plain@ =~= self.encoding());
        if plain.len() <= max_len {
            extend_bytes(buf, plain.as_slice());
            return Ok(());
        }
        let placed = self.place_options(max_len);
        match placed {
            None => Err(EncodeError::MessageTooLarge { max_len }),
            Some((main, file, sname, g)) => {
                let ghost p = g@;
                proof {
                    lemma_concat_empty(p.main);
                    lemma_concat_empty(p.file);
                    lemma_concat_empty(p.sname);
                }
                if file.is_empty() && sname.is_empty() {
                    extend_bytes(buf, plain.as_slice());
                    proof {
                        if max_len >= 244 && (self@.opts.contains_key(52) ==> self@.opts[52].data.len() <= 1) {
                            self.lemma_plain_len(max_len, p);
                        }
                    }
                } else {
                    self.write_overloaded(buf, main, file, sname, Ghost(p));
                    proof {
                        self.lemma_overloaded_len(p);
                    }
                }
                Ok(())
            },
        }
    }

    /// When no option spills, the plain encoding fits in `max_len` bytes,
    /// provided an option 52 held has at most one payload byte (it takes the
    /// room kept for the overload marker).
    proof fn lemma_plain_len(&self, max_len: usize, p: Spill)
        requires
            self.wf(),
            max_len >= 244,
            self@.opts.contains_key(52) ==> self@.opts[52].data.len() <= 1,
            spill(self.spec_opts().entries(), main_cap(max_len)) == Some(p),
            p.file.len() == 0,
            p.sname.len() == 0,
        ensures
            self.encoding().len() <= max_len,
    {
        self.lemma_wf();
        self.spec_opts().lemma_entries();
        let s = self.spec_opts().entries();
        lemma_spill_bounds(s, main_cap(max_len));
        lemma_spill_len(s, main_cap(max_len));
        assert forall|j: int| 0 <= j < s.len() && opt_code(#[trigger] s[j]) == 52 implies opt_data(s[j]).len() <= 1 by {
            lemma_map_of_at(s, j);
        }
        lemma_marker_bound(s);
    }

    /// The lengths of the parts of an overloaded encoding.
    pub proof fn lemma_overloaded_fields(&self, p: Spill)
        requires
            self.wf(),
            concat_frags(p.file).len() <= 127,
            concat_frags(p.sname).len() <= 63,
        ensures
            header_bytes(self@).len() == 44,
            (if p.sname.len() == 0 {
                fill(self@.sname, 64)
            } else {
                fill(Some(concat_frags(p.sname).push(255)), 64)
            }).len() == 64,
            (if p.file.len() == 0 {
                fill(self@.fname, 128)
            } else {
                fill(Some(concat_frags(p.file).push(255)), 128)
            }).len() == 128,
    {
    }

    proof fn lemma_overloaded_len(&self, p: Spill)
        requires
            self.wf(),
            concat_frags(p.file).len() <= 127,
            concat_frags(p.sname).len() <= 63,
        ensures
            self.overloaded_encoding(p).len() == 244 + concat_frags(p.main).len(),
    {
    }

    /// Writes the message with options spilled into the header fields.
    fn write_overloaded(&self, buf: &mut Vec<u8>, main: Vec<u8>, file: Vec<u8>, sname: Vec<u8>, p: Ghost<Spill>)
        requires
            self.wf(),
            main@ == concat_frags(p@.main),
            file@ == concat_frags(p@.file),
            sname@ == concat_frags(p@.sname),
            file@.len() <= 127,
            sname@.len() <= 63,
            p@.file.len() > 0 || p@.sname.len() > 0,
        ensures
            final(buf)@ == old(buf)@ + self.overloaded_encoding(p@),
    {
        proof {
            lemma_concat_empty(p@.file);
            lemma_concat_empty(p@.sname);
        }
        let overload: u8 = (if file.is_empty() { 0u8 } else { 1u8 }) + (if sname.is_empty() { 0u8 } else { 2u8 });
        assert(overload == spill_overload(p@));
        let ghost start = buf@;
        self.encode_header(buf);
        let ghost b1 = buf@;
        push_name_or_options(buf, &self.sname, sname, 64);
        let ghost b2 = buf@;
        push_name_or_options(buf, &self.fname, file, 128);
        let ghost b3 = buf@;
        buf.push(99);
        buf.push(130);
        buf.push(83);
        buf.push(99);
        buf.push(52);
        buf.push(1);
        buf.push(overload);
        extend_bytes(buf, main.as_slice());
        buf.push(255);
        let ghost tail = magic_seq() + seq![52u8, 1u8, spill_overload(p@)] + concat_frags(p@.main) + seq![255u8];
        assert(buf@ =~= b3 + tail);
        let ghost f1 = if p@.sname.len() == 0 {
            fill(self@.sname, 64)
        } else {
            fill(Some(concat_frags(p@.sname).push(255)), 64)
        };
        let ghost f2 = if p@.file.len() == 0 {
            fill(self@.fname, 128)
        } else {
            fill(Some(concat_frags(p@.file).push(255)), 128)
        };
        assert(b1 == start + header_bytes(self@));
        assert(b2 == b1 + f1);
        assert(b3 == b2 + f2);
        assert(self.overloaded_encoding(p@) == header_bytes(self@) + f1 + f2 + tail);
        assert(buf@ =~= start + (header_bytes(self@) + f1 + f2 + tail));
    }
}

} // verus!
