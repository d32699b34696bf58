//! What holds of the library as a whole.
use vstd::prelude::*;
use crate::message::{
    apply_setters, fresh_model, law_built_hlen, SetterStep, BAD_MAGIC,
    decode_spec, decoded_options, file_overloaded, header_bytes, lemma_concat_empty, lemma_spill_bounds, magic_seq, main_cap, overload_value,
    sname_overloaded, spill, spill_overload, spliced_options, Message, MessageModel, Spill,
};
use crate::overload::{lemma_region_concat, lemma_region_end, lemma_region_marker, region_options};
use crate::options::{
    append_frag, canonical, concat_frags, encode_options, fold_frags, lemma_parse_concat, parse_raw, lemma_options_roundtrip, map_of, opt_code, opt_data, ordered_codes,
    opt_value, parse_options, typed_map, value_of, entry_map, lemma_entry_map_at, lemma_ordered_prefix, lemma_entry_map_contains, DhcpOption,
    DhcpOptions, OptionValue, encode_frags,
};
use crate::error::DecodeError;
use crate::header::{HType, Opcode};
use crate::header::{htype_from, htype_num, opcode_from, opcode_num};
use crate::wire::{be_u16, be_u32, fill, zeros, lemma_u16_roundtrip, lemma_u32_roundtrip, trim_nul_spec, u16_bytes, u32_bytes};

verus! {

/// The header bytes read back as the header fields.
proof fn lemma_header_fields(v: MessageModel, e: Seq<u8>)
    requires
        v.chaddr.len() == 16,
        e.len() >= 44,
        e.subrange(0, 44) == header_bytes(v),
    ensures
        e[0] == opcode_num(v.opcode),
        e[1] == htype_num(v.htype),
        e[2] == v.hlen,
        e[3] == v.hops,
        be_u32(e[4], e[5], e[6], e[7]) == v.xid,
        be_u16(e[8], e[9]) == v.secs,
        be_u16(e[10], e[11]) == v.flags,
        be_u32(e[12], e[13], e[14], e[15]) == v.ciaddr,
        be_u32(e[16], e[17], e[18], e[19]) == v.yiaddr,
        be_u32(e[20], e[21], e[22], e[23]) == v.siaddr,
        be_u32(e[24], e[25], e[26], e[27]) == v.giaddr,
        e.subrange(28, 44) == v.chaddr,
{
    let h = header_bytes(v);
    assert forall|i: int| 0 <= i < 44 implies e[i] == #[trigger] h[i] by {
        assert(e.subrange(0, 44)[i] == e[i]);
    }
    assert(e[0] == h[0] && e[1] == h[1] && e[2] == h[2] && e[3] == h[3]);
    assert(e[4] == h[4] && e[5] == h[5] && e[6] == h[6] && e[7] == h[7]);
    assert(e[8] == h[8] && e[9] == h[9] && e[10] == h[10] && e[11] == h[11]);
    assert(e[12] == h[12] && e[13] == h[13] && e[14] == h[14] && e[15] == h[15]);
    assert(e[16] == h[16] && e[17] == h[17] && e[18] == h[18] && e[19] == h[19]);
    assert(e[20] == h[20] && e[21] == h[21] && e[22] == h[22] && e[23] == h[23]);
    assert(e[24] == h[24] && e[25] == h[25] && e[26] == h[26] && e[27] == h[27]);
    lemma_u32_roundtrip(v.xid);
    lemma_u16_roundtrip(v.secs);
    lemma_u16_roundtrip(v.flags);
    lemma_u32_roundtrip(v.ciaddr);
    lemma_u32_roundtrip(v.yiaddr);
    lemma_u32_roundtrip(v.siaddr);
    lemma_u32_roundtrip(v.giaddr);
    assert(e.subrange(28, 44) =~= v.chaddr) by {
        assert forall|i: int| 0 <= i < 16 implies e.subrange(28, 44)[i] == v.chaddr[i] by {
            assert(h[28 + i] == v.chaddr[i]);
        }
    }
}

/// Decoding the encoding of a message gives back every header field (the op
/// code and hardware type as their numbers read), every option, and each
/// name as it reads back from its zero-filled field, whatever the names are,
/// for every message whose options are each the one their payload reads as
/// and which holds no typed option 52 asking for overload.
pub proof fn law_encode_then_decode_fields(m: Message)
    requires
        m.wf(),
        forall|i: int| 0 <= i < m.spec_opts().entries().len() ==> canonical(#[trigger] m.spec_opts().entries()[i]),
        overload_value(m@.opts) == 0,
    ensures
        decode_spec(m.encoding()) == Ok::<MessageModel, DecodeError>(MessageModel {
            opcode: opcode_from(opcode_num(m@.opcode)),
            htype: htype_from(htype_num(m@.htype)),
            sname: trim_nul_spec(fill(m@.sname, 64)),
            fname: trim_nul_spec(fill(m@.fname, 128)),
            ..m@
        }),
{
    m.lemma_wf();
    m.spec_opts().lemma_entries();
    let v = m@;
    let e = m.encoding();
    let h = header_bytes(v);
    let ob = encode_options(m.spec_opts().entries());
    assert(h.len() == 44);
    assert(e.subrange(0, 44) =~= h);
    assert(e.subrange(44, 108) =~= fill(v.sname, 64));
    assert(e.subrange(108, 236) =~= fill(v.fname, 128));
    assert(e.subrange(236, 240) =~= magic_seq());
    assert(e.subrange(240, e.len() as int) =~= ob);
    lemma_header_fields(v, e);
    lemma_options_roundtrip(m.spec_opts().entries());
    let d = decode_spec(e).unwrap();
    assert(d =~= (MessageModel {
        opcode: opcode_from(opcode_num(v.opcode)),
        htype: htype_from(htype_num(v.htype)),
        sname: trim_nul_spec(fill(v.sname, 64)),
        fname: trim_nul_spec(fill(v.fname, 128)),
        ..v
    }));
}

/// Decoding the encoding of a canonical message gives the message back,
/// field for field; every message that `decode` gives is canonical, so
/// decoding, encoding and decoding again gives what the first decode gave.
pub proof fn law_encode_then_decode(m: Message)
    requires
        m.wf(),
        m.canonical(),
    ensures
        decode_spec(m.encoding()) == Ok::<MessageModel, DecodeError>(m@),
{
    law_encode_then_decode_fields(m);
    assert(decode_spec(m.encoding()).unwrap() =~= m@);
}

/// The payloads of a sequence of options without option 52; a later entry
/// wins.
spec fn raw_without_marker(s: Seq<DhcpOption>) -> Map<u8, Seq<u8>>
    decreases s.len(),
{
    if s.len() == 0 {
        Map::empty()
    } else {
        let r = raw_without_marker(s.drop_last());
        if opt_code(s.last()) == 52 {
            r
        } else {
            r.insert(opt_code(s.last()), opt_data(s.last()))
        }
    }
}

proof fn lemma_raw_without_marker_keys(s: Seq<DhcpOption>, k: u8)
    requires
        raw_without_marker(s).contains_key(k),
    ensures
        k != 52,
        exists|i: int| 0 <= i < s.len() && opt_code(s[i]) == k,
    decreases s.len(),
{
    let p = s.drop_last();
    if !(opt_code(s.last()) != 52 && opt_code(s.last()) == k) {
        lemma_raw_without_marker_keys(p, k);
        let i = choose|i: int| 0 <= i < p.len() && opt_code(p[i]) == k;
        assert(s[i] == p[i]);
    } else {
        assert(opt_code(s[s.len() - 1]) == k);
    }
}

/// With canonical options, the payloads without option 52 read as the store
/// without option 52.
proof fn lemma_raw_without_marker_typed(s: Seq<DhcpOption>)
    requires
        forall|i: int| 0 <= i < s.len() ==> canonical(#[trigger] s[i]),
    ensures
        typed_map(raw_without_marker(s)) == map_of(s).remove(52),
    decreases s.len(),
{
    if s.len() > 0 {
        let p = s.drop_last();
        assert forall|i: int| 0 <= i < p.len() implies canonical(#[trigger] p[i]) by {
            assert(p[i] == s[i]);
        }
        lemma_raw_without_marker_typed(p);
        let o = s.last();
        let c = opt_code(o);
        assert(canonical(s[s.len() - 1]));
        let r = raw_without_marker(p);
        if c == 52 {
            assert(map_of(s).remove(52) =~= map_of(p).remove(52));
        } else {
            assert(typed_map(r.insert(c, opt_data(o))) =~= typed_map(r).insert(c, value_of(c, opt_data(o))));
            assert(map_of(s).remove(52) =~= map_of(p).remove(52).insert(c, opt_value(o)));
        }
    }
}

/// Fragments of two different codes can be added in either order.
proof fn lemma_append_swap(acc: Map<u8, Seq<u8>>, c1: u8, d1: Seq<u8>, c2: u8, d2: Seq<u8>)
    requires
        c1 != c2,
    ensures
        append_frag(append_frag(acc, c1, d1), c2, d2) == append_frag(append_frag(acc, c2, d2), c1, d1),
{
    assert(append_frag(append_frag(acc, c1, d1), c2, d2) =~= append_frag(append_frag(acc, c2, d2), c1, d1));
}

/// A fragment whose code no option of `t` has can be added before or after
/// the options of `t`.
proof fn lemma_fold_commute(acc: Map<u8, Seq<u8>>, c: u8, d: Seq<u8>, t: Seq<DhcpOption>)
    requires
        forall|j: int| 0 <= j < t.len() ==> opt_code(#[trigger] t[j]) != c,
    ensures
        fold_frags(append_frag(acc, c, d), t) == append_frag(fold_frags(acc, t), c, d),
    decreases t.len(),
{
    if t.len() > 0 {
        let p = t.drop_last();
        assert forall|j: int| 0 <= j < p.len() implies opt_code(#[trigger] p[j]) != c by {
            assert(p[j] == t[j]);
        }
        lemma_fold_commute(acc, c, d, p);
        assert(opt_code(t[t.len() - 1]) != c);
        lemma_append_swap(fold_frags(acc, p), c, d, opt_code(t.last()), opt_data(t.last()));
    }
}

/// The keys that adding a sequence's options gives are those there were and
/// the options' codes.
proof fn lemma_fold_keys(acc: Map<u8, Seq<u8>>, t: Seq<DhcpOption>, k: u8)
    ensures
        fold_frags(acc, t).contains_key(k) ==> acc.contains_key(k) || exists|j: int| 0 <= j < t.len() && opt_code(t[j]) == k,
        (forall|j: int| 0 <= j < t.len() ==> opt_code(#[trigger] t[j]) != k) ==> (fold_frags(acc, t).contains_key(k)
            == acc.contains_key(k) && (acc.contains_key(k) ==> fold_frags(acc, t)[k] == acc[k])),
    decreases t.len(),
{
    if t.len() > 0 {
        let p = t.drop_last();
        lemma_fold_keys(acc, p, k);
        if fold_frags(acc, p).contains_key(k) && !acc.contains_key(k) {
            let j = choose|j: int| 0 <= j < p.len() && opt_code(p[j]) == k;
            assert(t[j] == p[j]);
        }
        if forall|j: int| 0 <= j < t.len() ==> opt_code(#[trigger] t[j]) != k {
            assert forall|j: int| 0 <= j < p.len() implies opt_code(#[trigger] p[j]) != k by {
                assert(p[j] == t[j]);
            }
            assert(opt_code(t[t.len() - 1]) != k);
        }
        if opt_code(t.last()) == k {
            assert(opt_code(t[t.len() - 1]) == k);
        }
    }
}

/// What the three fields of a placement add, in the order main, `file`,
/// `sname`.
spec fn spill_fold(p: Spill) -> Map<u8, Seq<u8>> {
    fold_frags(fold_frags(fold_frags(Map::empty(), p.main), p.file), p.sname)
}

/// Every option of a placement is one of the placed sequence's options, none
/// is option 52, and the three fields together hold the payloads of the
/// sequence without option 52.
proof fn lemma_spill_facts(s: Seq<DhcpOption>, cap: int)
    requires
        ordered_codes(s),
        spill(s, cap) is Some,
    ensures
        ({
            let p = spill(s, cap).unwrap();
            &&& forall|j: int| 0 <= j < p.main.len() ==> s.contains(#[trigger] p.main[j]) && opt_code(p.main[j]) != 52
            &&& forall|j: int| 0 <= j < p.file.len() ==> s.contains(#[trigger] p.file[j]) && opt_code(p.file[j]) != 52
            &&& forall|j: int| 0 <= j < p.sname.len() ==> s.contains(#[trigger] p.sname[j]) && opt_code(p.sname[j]) != 52
            &&& spill_fold(p) == raw_without_marker(s)
        }),
    decreases s.len(),
{
    if s.len() == 0 {
        assert(spill_fold(spill(s, cap).unwrap()) =~= raw_without_marker(s));
    } else {
        let sp = s.drop_last();
        lemma_ordered_prefix(s);
        lemma_spill_facts(sp, cap);
        let q = spill(sp, cap).unwrap();
        let p = spill(s, cap).unwrap();
        let o = s.last();
        let c = opt_code(o);
        let d = opt_data(o);
        // every option already placed comes before `o` and has a smaller code
        assert forall|x: DhcpOption| sp.contains(x) implies s.contains(x) && opt_code(x) < c by {
            let i = choose|i: int| 0 <= i < sp.len() && sp[i] == x;
            assert(s[i] == x);
            assert(opt_code(s[i]) < opt_code(s[s.len() - 1]));
        }
        assert(s.contains(o)) by {
            assert(s[s.len() - 1] == o);
        }
        assert forall|j: int| 0 <= j < q.main.len() implies opt_code(#[trigger] q.main[j]) != c by {
            assert(sp.contains(q.main[j]));
        }
        assert forall|j: int| 0 <= j < q.file.len() implies opt_code(#[trigger] q.file[j]) != c by {
            assert(sp.contains(q.file[j]));
        }
        assert forall|j: int| 0 <= j < q.sname.len() implies opt_code(#[trigger] q.sname[j]) != c by {
            assert(sp.contains(q.sname[j]));
        }
        if c == 52 {
            assert(p == q);
        } else {
            assert(!raw_without_marker(sp).contains_key(c)) by {
                if raw_without_marker(sp).contains_key(c) {
                    lemma_raw_without_marker_keys(sp, c);
                    let i = choose|i: int| 0 <= i < sp.len() && opt_code(sp[i]) == c;
                    assert(sp.contains(sp[i]));
                }
            }
            assert(raw_without_marker(s) == append_frag(raw_without_marker(sp), c, d));
            let e = Map::<u8, Seq<u8>>::empty();
            if p.main.len() > q.main.len() {
                assert(p.main.drop_last() =~= q.main);
                lemma_fold_commute(fold_frags(e, q.main), c, d, q.file);
                lemma_fold_commute(fold_frags(fold_frags(e, q.main), q.file), c, d, q.sname);
            } else if p.file.len() > q.file.len() {
                assert(p.file.drop_last() =~= q.file);
                lemma_fold_commute(fold_frags(fold_frags(e, q.main), q.file), c, d, q.sname);
            } else {
                assert(p.sname.drop_last() =~= q.sname);
            }
            assert(spill_fold(p) == append_frag(spill_fold(q), c, d));
        }
    }
}

/// Options placed by `spill` have codes other than Pad, End and 52.
proof fn lemma_placed_codes(s: Seq<DhcpOption>, t: Seq<DhcpOption>)
    requires
        ordered_codes(s),
        forall|j: int| 0 <= j < t.len() ==> s.contains(#[trigger] t[j]) && opt_code(t[j]) != 52,
    ensures
        forall|j: int| 0 <= j < t.len() ==> 0 < #[trigger] opt_code(t[j]) < 255,
        forall|j: int| 0 <= j < t.len() ==> #[trigger] opt_code(t[j]) != 0 && opt_code(t[j]) != 52 && opt_code(t[j]) != 255,
{
    assert forall|j: int| 0 <= j < t.len() implies 0 < #[trigger] opt_code(t[j]) < 255 by {
        assert(s.contains(t[j]));
        let i = choose|i: int| 0 <= i < s.len() && s[i] == t[j];
        assert(0 < opt_code(s[i]) < 255);
    }
}

/// The main options field written by `encode_overloaded` reads as option 52
/// with the overload value, added to the main options.
proof fn lemma_main_stream(main: Seq<DhcpOption>, v: u8)
    requires
        forall|j: int| 0 <= j < main.len() ==> 0 < #[trigger] opt_code(main[j]) < 255,
        forall|j: int| 0 <= j < main.len() ==> #[trigger] opt_code(main[j]) != 52,
    ensures
        overload_value(parse_options(seq![52u8, 1u8, v] + concat_frags(main) + seq![255u8])) == v,
{
    let e = Map::<u8, Seq<u8>>::empty();
    let s = seq![52u8, 1u8, v] + concat_frags(main) + seq![255u8];
    let acc = append_frag(e, 52, seq![v]);
    assert(s.subrange(2, 2 + s[1]) =~= seq![v]);
    assert(s.subrange(2 + s[1], s.len() as int) =~= concat_frags(main) + seq![255u8]);
    assert(parse_raw(s, e) == parse_raw(concat_frags(main) + seq![255u8], acc));
    lemma_parse_concat(main, seq![255u8], acc);
    assert(parse_raw(seq![255u8], fold_frags(acc, main)) == fold_frags(acc, main));
    lemma_fold_commute(e, 52, seq![v], main);
    lemma_fold_keys(e, main, 52);
    let f = fold_frags(e, main);
    assert(!f.contains_key(52));
    assert(parse_raw(s, e) == f.insert(52, seq![v]));
}

/// A field written by `encode_overloaded` contributes the options placed in
/// it, when it is overloaded.
proof fn lemma_field_region(t: Seq<DhcpOption>, n: nat)
    requires
        forall|j: int| 0 <= j < t.len() ==> #[trigger] opt_code(t[j]) != 0 && opt_code(t[j]) != 52 && opt_code(t[j]) != 255,
        concat_frags(t).len() < n,
    ensures
        region_options(fill(Some(concat_frags(t).push(255)), n)) == concat_frags(t),
{
    let z = zeros((n - concat_frags(t).len() - 1) as nat);
    assert(fill(Some(concat_frags(t).push(255)), n) =~= concat_frags(t) + (seq![255u8] + z));
    lemma_region_concat(t, seq![255u8] + z);
    lemma_region_end(z);
    assert(concat_frags(t) + Seq::<u8>::empty() =~= concat_frags(t));
}

/// The options read back from an overloaded encoding: the main field asks for
/// overload, and the spliced stream holds every option but option 52.
proof fn lemma_overloaded_options(m: Message, max_len: usize, p: Spill)
    requires
        m.wf(),
        forall|i: int| 0 <= i < m.spec_opts().entries().len() ==> canonical(#[trigger] m.spec_opts().entries()[i]),
        spill(m.spec_opts().entries(), main_cap(max_len)) == Some(p),
        p.file.len() > 0 || p.sname.len() > 0,
    ensures
        ({
            let ov = spill_overload(p);
            let f1 = if p.sname.len() == 0 { fill(m@.sname, 64) } else { fill(Some(concat_frags(p.sname).push(255)), 64) };
            let f2 = if p.file.len() == 0 { fill(m@.fname, 128) } else { fill(Some(concat_frags(p.file).push(255)), 128) };
            let tail = seq![52u8, 1u8, ov] + concat_frags(p.main) + seq![255u8];
            &&& overload_value(parse_options(tail)) == ov
            &&& ov != 0
            &&& file_overloaded(ov) == (p.file.len() > 0)
            &&& sname_overloaded(ov) == (p.sname.len() > 0)
            &&& decoded_options(tail, f2, f1) == m@.opts.remove(52)
        }),
{
    m.lemma_wf();
    m.spec_opts().lemma_entries();
    let s = m.spec_opts().entries();
    lemma_spill_facts(s, main_cap(max_len));
    lemma_spill_bounds(s, main_cap(max_len));
    lemma_placed_codes(s, p.main);
    lemma_placed_codes(s, p.file);
    lemma_placed_codes(s, p.sname);
    let ov = spill_overload(p);
    let f1 = if p.sname.len() == 0 { fill(m@.sname, 64) } else { fill(Some(concat_frags(p.sname).push(255)), 64) };
    let f2 = if p.file.len() == 0 { fill(m@.fname, 128) } else { fill(Some(concat_frags(p.file).push(255)), 128) };
    let tail = seq![52u8, 1u8, ov] + concat_frags(p.main) + seq![255u8];
    lemma_main_stream(p.main, ov);
    assert(ov != 0);
    assert(file_overloaded(ov) == (p.file.len() > 0));
    assert(sname_overloaded(ov) == (p.sname.len() > 0));
    lemma_region_marker(ov, concat_frags(p.main) + seq![255u8]);
    assert(tail =~= seq![52u8, 1u8, ov] + (concat_frags(p.main) + seq![255u8]));
    lemma_region_concat(p.main, seq![255u8]);
    assert(region_options(tail) =~= concat_frags(p.main));
    let x = if file_overloaded(ov) { region_options(f2) } else { Seq::<u8>::empty() };
    let y = if sname_overloaded(ov) { region_options(f1) } else { Seq::<u8>::empty() };
    if p.file.len() > 0 {
        lemma_field_region(p.file, 128);
    } else {
        lemma_concat_empty(p.file);
    }
    if p.sname.len() > 0 {
        lemma_field_region(p.sname, 64);
    } else {
        lemma_concat_empty(p.sname);
    }
    assert(x == concat_frags(p.file));
    assert(y == concat_frags(p.sname));
    let sp = spliced_options(tail, f2, f1, ov);
    assert(sp =~= concat_frags(p.main) + (concat_frags(p.file) + (concat_frags(p.sname) + seq![255u8])));
    let em = Map::<u8, Seq<u8>>::empty();
    lemma_parse_concat(p.main, concat_frags(p.file) + (concat_frags(p.sname) + seq![255u8]), em);
    lemma_parse_concat(p.file, concat_frags(p.sname) + seq![255u8], fold_frags(em, p.main));
    lemma_parse_concat(p.sname, seq![255u8], fold_frags(fold_frags(em, p.main), p.file));
    assert(parse_raw(sp, em) == spill_fold(p));
    lemma_raw_without_marker_typed(s);
}

/// Decoding what `encode_overloaded` writes when options spill into the
/// header fields gives back the header fields (the op code and hardware type
/// as their numbers read) and every option but option 52;
/// a field that holds options reads as no name, the other reads as its name
/// read back from its zero-filled field.
#[verifier::spinoff_prover]
pub proof fn law_overloaded_then_decode(m: Message, max_len: usize, p: Spill)
    requires
        m.wf(),
        forall|i: int| 0 <= i < m.spec_opts().entries().len() ==> canonical(#[trigger] m.spec_opts().entries()[i]),
        spill(m.spec_opts().entries(), main_cap(max_len)) == Some(p),
        p.file.len() > 0 || p.sname.len() > 0,
    ensures
        decode_spec(m.overloaded_encoding(p)) == Ok::<MessageModel, DecodeError>(MessageModel {
            opcode: opcode_from(opcode_num(m@.opcode)),
            htype: htype_from(htype_num(m@.htype)),
            sname: if p.sname.len() > 0 { None } else { trim_nul_spec(fill(m@.sname, 64)) },
            fname: if p.file.len() > 0 { None } else { trim_nul_spec(fill(m@.fname, 128)) },
            opts: m@.opts.remove(52),
            ..m@
        }),
{
    m.lemma_wf();
    let s = m.spec_opts().entries();
    lemma_spill_bounds(s, main_cap(max_len));
    let v = m@;
    let ov = spill_overload(p);
    let h = header_bytes(v);
    let f1 = if p.sname.len() == 0 { fill(v.sname, 64) } else { fill(Some(concat_frags(p.sname).push(255)), 64) };
    let f2 = if p.file.len() == 0 { fill(v.fname, 128) } else { fill(Some(concat_frags(p.file).push(255)), 128) };
    let tail = seq![52u8, 1u8, ov] + concat_frags(p.main) + seq![255u8];
    let e = m.overloaded_encoding(p);
    m.lemma_overloaded_fields(p);
    assert(e =~= h + f1 + f2 + magic_seq() + tail);
    assert(e.subrange(0, 44) =~= h);
    assert(e.subrange(44, 108) =~= f1);
    assert(e.subrange(108, 236) =~= f2);
    assert(e.subrange(236, 240) =~= magic_seq());
    assert(e.subrange(240, e.len() as int) =~= tail);
    lemma_header_fields(v, e);
    lemma_overloaded_options(m, max_len, p);
    let d = decode_spec(e).unwrap();
    assert(d =~= (MessageModel {
        opcode: opcode_from(opcode_num(v.opcode)),
        htype: htype_from(htype_num(v.htype)),
        sname: if p.sname.len() > 0 { None } else { trim_nul_spec(fill(v.sname, 64)) },
        fname: if p.file.len() > 0 { None } else { trim_nul_spec(fill(v.fname, 128)) },
        opts: v.opts.remove(52),
        ..v
    }));
}

/// A store holds one option per code: the number of its entries is the
/// number of codes it holds.
proof fn lemma_store_size(s: Seq<DhcpOption>)
    requires
        ordered_codes(s),
    ensures
        map_of(s).dom().finite(),
        map_of(s).dom().len() == s.len(),
    decreases s.len(),
{
    if s.len() > 0 {
        let t = s.drop_last();
        lemma_ordered_prefix(s);
        lemma_store_size(t);
        let c = opt_code(s.last());
        assert(!map_of(t).contains_key(c)) by {
            crate::options::lemma_map_of_contains(t, c);
            if map_of(t).contains_key(c) {
                let j = choose|j: int| 0 <= j < t.len() && opt_code(t[j]) == c;
                assert(t[j] == s[j]);
                assert(opt_code(s[j]) < opt_code(s[s.len() - 1]));
            }
        }
        assert(map_of(s).dom() == map_of(t).dom().insert(c));
    }
}

/// The option store reads back what was written. When `b` is what `insert`
/// of `opt` (with a code other than Pad and End) leaves of `a`, as its
/// `ensures` states, `b` holds `opt` itself among its entries, `get` under
/// `opt`'s code gives `opt`, every other code gives what it gave in `a`, and
/// the store grew by one entry exactly when the code was new.
pub proof fn law_insert_then_get(a: DhcpOptions, b: DhcpOptions, opt: DhcpOption, k: u8)
    requires
        a.wf(),
        b.wf(),
        opt_code(opt) != 0,
        opt_code(opt) != 255,
        b@ == a@.insert(opt_code(opt), opt_value(opt)),
        entry_map(b.entries()) == entry_map(a.entries()).insert(opt_code(opt), opt),
    ensures
        b.entries().contains(opt),
        entry_map(b.entries()).contains_key(opt_code(opt)),
        entry_map(b.entries())[opt_code(opt)] == opt,
        k != opt_code(opt) ==> entry_map(b.entries()).contains_key(k) == entry_map(a.entries()).contains_key(k),
        k != opt_code(opt) && entry_map(a.entries()).contains_key(k) ==> entry_map(b.entries())[k] == entry_map(a.entries())[k],
        b.entries().len() == a.entries().len() + (if a@.contains_key(opt_code(opt)) { 0int } else { 1int }),
{
    a.lemma_entries();
    b.lemma_entries();
    let c = opt_code(opt);
    let t = b.entries();
    lemma_entry_map_contains(t, c);
    let i = choose|i: int| 0 <= i < t.len() && opt_code(t[i]) == c;
    lemma_entry_map_at(t, i);
    assert(t[i] == opt);
    lemma_store_size(a.entries());
    lemma_store_size(t);
    assert(b@.dom() == a@.dom().insert(c));
}

/// After `remove` of a code, as its `ensures` states, no entry of the store
/// has that code, every other code gives what it gave before, and the store
/// shrank by one entry exactly when the code was held.
pub proof fn law_remove_then_get(a: DhcpOptions, b: DhcpOptions, c: u8, k: u8)
    requires
        a.wf(),
        b.wf(),
        b@ == a@.remove(c),
        entry_map(b.entries()) == entry_map(a.entries()).remove(c),
    ensures
        forall|i: int| 0 <= i < b.entries().len() ==> opt_code(#[trigger] b.entries()[i]) != c,
        !entry_map(b.entries()).contains_key(c),
        k != c ==> entry_map(b.entries()).contains_key(k) == entry_map(a.entries()).contains_key(k),
        k != c && entry_map(a.entries()).contains_key(k) ==> entry_map(b.entries())[k] == entry_map(a.entries())[k],
        b.entries().len() == a.entries().len() - (if a@.contains_key(c) { 1int } else { 0int }),
{
    a.lemma_entries();
    b.lemma_entries();
    let t = b.entries();
    assert forall|i: int| 0 <= i < t.len() implies opt_code(#[trigger] t[i]) != c by {
        lemma_entry_map_at(t, i);
    }
    lemma_store_size(a.entries());
    lemma_store_size(t);
    assert(b@.dom() == a@.dom().remove(c));
}

/// Reading back what `DhcpOptions::encode` writes gives the store back, for
/// a store whose options are each the one their payload reads as (every
/// store that `DhcpOptions::decode` gives is such a store).
pub proof fn law_options_encode_then_decode(o: DhcpOptions)
    requires
        o.wf(),
        forall|i: int| 0 <= i < o.entries().len() ==> canonical(#[trigger] o.entries()[i]),
    ensures
        parse_options(encode_options(o.entries())) == o@,
{
    o.lemma_entries();
    lemma_options_roundtrip(o.entries());
}


/// Whatever `encode_overloaded` writes reads back with every option of the
/// message, none lost or altered by spilling into the header fields, and
/// with every header field but the names (the op code and hardware type as
/// their numbers read), for a message holding no option 52 whose options are
/// each the one their payload reads as.
pub proof fn law_encode_overloaded_then_decode(m: Message, max_len: usize)
    requires
        m.wf(),
        forall|i: int| 0 <= i < m.spec_opts().entries().len() ==> canonical(#[trigger] m.spec_opts().entries()[i]),
        !m@.opts.contains_key(52),
        m.overloaded_output(max_len) is Some,
    ensures
        decode_spec(m.overloaded_output(max_len).unwrap()) matches Ok(d) && d == (MessageModel {
            opcode: opcode_from(opcode_num(m@.opcode)),
            htype: htype_from(htype_num(m@.htype)),
            sname: d.sname,
            fname: d.fname,
            ..m@
        }),
{
    m.lemma_wf();
    m.spec_opts().lemma_entries();
    let s = m.spec_opts().entries();
    assert(overload_value(m@.opts) == 0);
    if m.encoding().len() <= max_len {
        law_encode_then_decode_fields(m);
    } else {
        let p = spill(s, main_cap(max_len)).unwrap();
        if p.file.len() == 0 && p.sname.len() == 0 {
            law_encode_then_decode_fields(m);
        } else {
            law_overloaded_then_decode(m, max_len, p);
            assert(m@.opts.remove(52) =~= m@.opts);
        }
    }
}

/// Setter calls keep the hardware address length at most 16 and the address
/// field 16 bytes long.
proof fn lemma_setters_keep_hlen(v: MessageModel, steps: Seq<SetterStep>)
    requires
        v.hlen <= 16,
        v.chaddr.len() == 16,
    ensures
        apply_setters(v, steps).hlen <= 16,
        apply_setters(v, steps).chaddr.len() == 16,
    decreases steps.len(),
{
    if steps.len() > 0 {
        lemma_setters_keep_hlen(v, steps.drop_last());
        let w = apply_setters(v, steps.drop_last());
        if let SetterStep::Chaddr(c) = steps.last() {
            law_built_hlen(0, 0, 0, 0, 0, Seq::empty(), w, c);
        }
    }
}

/// A message built by `new`, `new_with_id` or `default` (whose models are
/// `fresh_model` of an address of at most 16 bytes) and then changed by any
/// sequence of the setters (each of whose `ensures` is `apply_setter` of the
/// value it is given) keeps a hardware address length of at most 16 and a
/// 16-byte address field, so `chaddr` can be called and gives `hlen` bytes.
pub proof fn law_hlen_after_setters(
    xid: u32,
    ciaddr: u32,
    yiaddr: u32,
    siaddr: u32,
    giaddr: u32,
    c: Seq<u8>,
    steps: Seq<SetterStep>,
)
    requires
        c.len() <= 16,
    ensures
        ({
            let v = apply_setters(fresh_model(xid, ciaddr, yiaddr, siaddr, giaddr, c), steps);
            &&& v.hlen <= 16
            &&& v.chaddr.len() == 16
            &&& v.chaddr.subrange(0, v.hlen as int).len() == v.hlen
        }),
{
    let f = fresh_model(xid, ciaddr, yiaddr, siaddr, giaddr, c);
    law_built_hlen(xid, ciaddr, yiaddr, siaddr, giaddr, c, f, c);
    lemma_setters_keep_hlen(f, steps);
}

/// The bytes an option takes when written.
pub open spec fn written_len(o: DhcpOption) -> int {
    encode_frags(opt_code(o), opt_data(o)).len() as int
}

/// Option `o` fits in none of the three fields once the options of `q` are
/// placed: not in the main field's room `cap`, not in the 127 bytes of room
/// of `file`, not in the 63 bytes of room of `sname`.
pub open spec fn fits_nowhere(q: Spill, o: DhcpOption, cap: int) -> bool {
    &&& concat_frags(q.main).len() + written_len(o) > cap
    &&& concat_frags(q.file).len() + written_len(o) > 127
    &&& concat_frags(q.sname).len() + written_len(o) > 63
}

/// Placement is first fit, option by option, in order: given where the
/// options before it went, an option 52 is left out; any other option goes
/// into the main field whenever the main field still has room for it
/// (whether or not earlier options spilled), else into `file` when `file`
/// has room, else into `sname` when `sname` has room, and placement fails
/// only when it fits in none of them.
pub proof fn law_spill_first_fit(s: Seq<DhcpOption>, cap: int, k: int)
    requires
        0 <= k < s.len(),
        spill(s.take(k), cap) is Some,
    ensures
        ({
            let q = spill(s.take(k), cap).unwrap();
            let o = s[k];
            let r = spill(s.take(k + 1), cap);
            &&& opt_code(o) == 52 ==> r == Some(q)
            &&& opt_code(o) != 52 && concat_frags(q.main).len() + written_len(o) <= cap
                ==> r == Some(Spill { main: q.main.push(o), ..q })
            &&& opt_code(o) != 52 && concat_frags(q.main).len() + written_len(o) > cap
                && concat_frags(q.file).len() + written_len(o) <= 127
                ==> r == Some(Spill { file: q.file.push(o), ..q })
            &&& opt_code(o) != 52 && concat_frags(q.main).len() + written_len(o) > cap
                && concat_frags(q.file).len() + written_len(o) > 127
                && concat_frags(q.sname).len() + written_len(o) <= 63
                ==> r == Some(Spill { sname: q.sname.push(o), ..q })
            &&& r is None <==> opt_code(o) != 52 && fits_nowhere(q, o, cap)
        }),
{
    assert(s.take(k + 1).drop_last() =~= s.take(k));
    assert(s.take(k + 1).last() == s[k]);
}

/// Placement fails exactly when some option other than 52 fits in none of
/// the three fields left by the options before it: an option that still fits
/// in the main field, `file` or `sname` never makes it fail.
pub proof fn law_spill_fails_only_when_stuck(s: Seq<DhcpOption>, cap: int)
    ensures
        spill(s, cap) is None <==> exists|k: int|
            0 <= k < s.len() && #[trigger] spill(s.take(k), cap) is Some && opt_code(s[k]) != 52
                && fits_nowhere(spill(s.take(k), cap).unwrap(), s[k], cap),
    decreases s.len(),
{
    if s.len() > 0 {
        let t = s.drop_last();
        let n = s.len() - 1;
        law_spill_fails_only_when_stuck(t, cap);
        assert forall|k: int| 0 <= k <= n implies #[trigger] s.take(k) == t.take(k) by {
            assert(s.take(k) =~= t.take(k));
        }
        assert(s.take(n) =~= t);
        if spill(t, cap) is None {
            let k = choose|k: int|
                0 <= k < t.len() && #[trigger] spill(t.take(k), cap) is Some && opt_code(t[k]) != 52
                    && fits_nowhere(spill(t.take(k), cap).unwrap(), t[k], cap);
            assert(s.take(k) == t.take(k));
            assert(s[k] == t[k]);
        } else {
            law_spill_first_fit(s, cap, n);
            assert(s.take(n + 1) =~= s);
            if exists|k: int|
                0 <= k < s.len() && #[trigger] spill(s.take(k), cap) is Some && opt_code(s[k]) != 52
                    && fits_nowhere(spill(s.take(k), cap).unwrap(), s[k], cap) {
                let k = choose|k: int|
                    0 <= k < s.len() && #[trigger] spill(s.take(k), cap) is Some && opt_code(s[k]) != 52
                        && fits_nowhere(spill(s.take(k), cap).unwrap(), s[k], cap);
                if k < n {
                    assert(s.take(k) == t.take(k));
                    assert(s[k] == t[k]);
                    assert(spill(t.take(k), cap) is Some);
                }
            }
        }
    }
}

/// `encode_overloaded` fails only when the plain encoding does not fit and
/// some option, in order, fits in none of the main field (the room left
/// after the 240-byte header and cookie, the 3-byte marker and End), `file`
/// and `sname`; in particular an option that fits in neither the main field
/// nor `file` but fits in what `sname` has left is placed in `sname`.
pub proof fn law_encode_overloaded_fails_only_when_stuck(m: Message, max_len: usize)
    ensures
        max_len >= 244 ==> main_cap(max_len) == max_len - 244,
        max_len < 244 ==> main_cap(max_len) == 0,
        m.overloaded_output(max_len) is None <==> m.encoding().len() > max_len && exists|k: int|
            0 <= k < m.spec_opts().entries().len()
                && #[trigger] spill(m.spec_opts().entries().take(k), main_cap(max_len)) is Some
                && opt_code(m.spec_opts().entries()[k]) != 52
                && fits_nowhere(
                    spill(m.spec_opts().entries().take(k), main_cap(max_len)).unwrap(),
                    m.spec_opts().entries()[k],
                    main_cap(max_len),
                ),
{
    law_spill_fails_only_when_stuck(m.spec_opts().entries(), main_cap(max_len));
}

/// `decode` succeeds only on at least 240 bytes whose bytes 236 to 239 are
/// the magic cookie 99, 130, 83, 99; on at least 240 bytes with any other
/// cookie it fails with `InvalidData` carrying the four cookie bytes read
/// most significant first, and on fewer bytes with `NotEnoughBytes`.
pub proof fn law_decode_checks_cookie(s: Seq<u8>)
    ensures
        decode_spec(s) is Ok <==> s.len() >= 240 && s[236] == 99 && s[237] == 130 && s[238] == 83 && s[239] == 99,
        s.len() < 240 ==> decode_spec(s) == Err::<MessageModel, DecodeError>(DecodeError::NotEnoughBytes),
        s.len() >= 240 && !(s[236] == 99 && s[237] == 130 && s[238] == 83 && s[239] == 99)
            ==> (decode_spec(s) matches Err(DecodeError::InvalidData(v, text))
            && v as int == s[236] as int * 0x100_0000 + s[237] as int * 0x1_0000 + s[238] as int * 0x100 + s[239] as int
            && text == BAD_MAGIC),
{
    if s.len() >= 240 {
        let c = s.subrange(236, 240);
        if s[236] == 99 && s[237] == 130 && s[238] == 83 && s[239] == 99 {
            assert(c =~= magic_seq());
        } else {
            assert(c != magic_seq()) by {
                if c == magic_seq() {
                    assert(c[0] == s[236] && c[1] == s[237] && c[2] == s[238] && c[3] == s[239]);
                }
            }
            let x = s[236] as int * 0x100_0000 + s[237] as int * 0x1_0000 + s[238] as int * 0x100 + s[239] as int;
            assert(0 <= x < 0x1_0000_0000);
            assert(be_u32(s[236], s[237], s[238], s[239]) as int == x);
        }
    }
}

/// A freshly built message (`new`, `new_with_id`, `default`) is a boot
/// request over Ethernet with no hops, no elapsed time, all flag bits clear
/// (so the broadcast bit is clear, as `Flags::default()` has it), no names
/// and no options; its hardware address is the given one, of at most 16
/// bytes, followed by zeros to 16 bytes, and its length is the given one's.
pub proof fn law_fresh_message(xid: u32, ciaddr: u32, yiaddr: u32, siaddr: u32, giaddr: u32, c: Seq<u8>)
    requires
        c.len() <= 16,
    ensures
        ({
            let v = fresh_model(xid, ciaddr, yiaddr, siaddr, giaddr, c);
            &&& v.opcode == Opcode::BootRequest
            &&& v.htype == HType::Eth
            &&& v.hops == 0
            &&& v.secs == 0
            &&& v.flags == 0
            &&& v.xid == xid
            &&& v.ciaddr == ciaddr && v.yiaddr == yiaddr && v.siaddr == siaddr && v.giaddr == giaddr
            &&& v.hlen == c.len()
            &&& v.chaddr.len() == 16
            &&& forall|i: int| 0 <= i < 16 ==> v.chaddr[i] == if i < c.len() { c[i] } else { 0u8 }
            &&& v.sname is None && v.fname is None
            &&& v.opts == Map::<u8, OptionValue>::empty()
        }),
{
    let v = fresh_model(xid, ciaddr, yiaddr, siaddr, giaddr, c);
    assert forall|i: int| 0 <= i < 16 implies v.chaddr[i] == if i < c.len() { c[i] } else { 0u8 } by {
        if i >= c.len() {
            assert(zeros((16 - c.len()) as nat)[i - c.len()] == 0);
        }
    }
}

/// `set_chaddr(c)` leaves the whole 16-byte address field as the first
/// `min(|c|, 16)` bytes of `c` followed by zeros, whatever address was held
/// before: no byte of an earlier, longer address is kept.
pub proof fn law_set_chaddr_clears(v: MessageModel, w: MessageModel, c: Seq<u8>)
    ensures
        ({
            let a = apply_setters(v, seq![SetterStep::Chaddr(c)]);
            let n = if c.len() >= 16 { 16 } else { c.len() as int };
            &&& a.hlen == n
            &&& a.chaddr.len() == 16
            &&& forall|i: int| 0 <= i < 16 ==> a.chaddr[i] == if i < n { c[i] } else { 0u8 }
            &&& a.chaddr == apply_setters(w, seq![SetterStep::Chaddr(c)]).chaddr
        }),
{
    let a = apply_setters(v, seq![SetterStep::Chaddr(c)]);
    let b = apply_setters(w, seq![SetterStep::Chaddr(c)]);
    assert(seq![SetterStep::Chaddr(c)].drop_last() =~= Seq::<SetterStep>::empty());
    let n = if c.len() >= 16 { 16 } else { c.len() as int };
    assert forall|i: int| 0 <= i < 16 implies a.chaddr[i] == if i < n { c[i] } else { 0u8 } by {
        if i >= n {
            assert(zeros((16 - n) as nat)[i - n] == 0);
        }
    }
    assert(a.chaddr =~= b.chaddr);
}

} // verus!
