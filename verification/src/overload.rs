//! Option overload (RFC 2131 §4.1, RFC 2132 §9.3): the option streams of the
//! `sname` and `file` header fields, and how they are spliced together with
//! the main options field (RFC 3396).
use vstd::prelude::*;
use crate::options::{append_frag, concat_frags, encode_frags, opt_code, opt_data, parse_raw, DhcpOption};
use crate::wire::extend_range;

verus! {

/// The option bytes that a region contributes to the spliced stream: its
/// options up to the first End, with Pad bytes and the option-overload (52)
/// marker left out, stopping at an option whose length runs past the region.
pub open spec fn region_options(f: Seq<u8>) -> Seq<u8>
    decreases f.len(),
{
    if f.len() == 0 || f[0] == 255 {
        Seq::empty()
    } else if f[0] == 0 {
        region_options(f.drop_first())
    } else if f.len() < 2 || f.len() < 2 + f[1] {
        Seq::empty()
    } else if f[0] == 52 {
        region_options(f.subrange(2 + f[1], f.len() as int))
    } else {
        f.subrange(0, 2 + f[1]) + region_options(f.subrange(2 + f[1], f.len() as int))
    }
}

/// Copy the option TLVs at the start of `field` into `combined`, up to the
/// first `End` marker. `Pad` bytes and the `OptionOverload` (52) marker are
/// dropped so that the fragments of an option split across a region boundary
/// (RFC 3396) are left adjacent and get joined when decoded. Stops early on a
/// truncated option.
pub fn append_region_options(combined: &mut Vec<u8>, field: &[u8])
    ensures
        final(combined)@ == old(combined)@ + region_options(field@),
{
    let ghost f = field@;
    let mut i: usize = 0;
    let mut done = false;
    assert(f.subrange(0, f.len() as int) =~= f);
    while i < field.len() && !done
        invariant
            0 <= i <= f.len(),
            f == field@,
            !done ==> old(combined)@ + region_options(f) == combined@ + region_options(
                f.subrange(i as int, f.len() as int),
            ),
            done ==> old(combined)@ + region_options(f) == combined@,
        decreases f.len() - i + (if done { 0int } else { 1int }),
    {
        let ghost rest = f.subrange(i as int, f.len() as int);
        let code = field[i];
        if code == 255 {
            assert(combined@ + Seq::<u8>::empty() =~= combined@);
            done = true;
        } else if code == 0 {
            assert(rest.drop_first() =~= f.subrange(i + 1, f.len() as int));
            i = i + 1;
        } else if i + 1 >= field.len() {
            assert(combined@ + Seq::<u8>::empty() =~= combined@);
            done = true;
        } else if (field[i + 1] as usize) > field.len() - (i + 2) {
            assert(combined@ + Seq::<u8>::empty() =~= combined@);
            done = true;
        } else {
            let len = field[i + 1] as usize;
            let end = i + 2 + len;
            assert(rest[0] == code && rest[1] == len);
            assert(rest.subrange(2 + rest[1], rest.len() as int) =~= f.subrange(end as int, f.len() as int));
            if code != 52 {
                let ghost before = combined@;
                extend_range(combined, field, i, end);
                assert(rest.subrange(0, 2 + rest[1]) =~= f.subrange(i as int, end as int));
                assert(before + region_options(rest) =~= combined@ + region_options(
                    f.subrange(end as int, f.len() as int),
                ));
            }
            i = end;
        }
    }
    if !done {
        assert(combined@ + region_options(f.subrange(i as int, f.len() as int)) =~= combined@);
    }
}

/// An option other than Pad, End and the overload marker passes through a
/// region unchanged.
pub proof fn lemma_region_frags(c: u8, d: Seq<u8>, t: Seq<u8>)
    requires
        c != 0,
        c != 52,
        c != 255,
    ensures
        region_options(encode_frags(c, d) + t) == encode_frags(c, d) + region_options(t),
    decreases d.len(),
{
    let s = encode_frags(c, d) + t;
    if d.len() <= 255 {
        assert(s[0] == c);
        assert(s[1] == d.len());
        assert(s.subrange(0, 2 + s[1]) =~= encode_frags(c, d));
        assert(s.subrange(2 + s[1], s.len() as int) =~= t);
    } else {
        let d1 = d.subrange(0, 255);
        let d2 = d.subrange(255, d.len() as int);
        assert(s[0] == c);
        assert(s[1] == 255);
        assert(s.subrange(0, 2 + s[1]) =~= seq![c, 255u8] + d1);
        assert(s.subrange(2 + s[1], s.len() as int) =~= encode_frags(c, d2) + t);
        lemma_region_frags(c, d2, t);
        assert((seq![c, 255u8] + d1) + (encode_frags(c, d2) + region_options(t)) =~= encode_frags(c, d)
            + region_options(t));
    }
}

/// A sequence of options none of which is Pad, End or the overload marker
/// passes through a region unchanged.
pub proof fn lemma_region_concat(s: Seq<DhcpOption>, t: Seq<u8>)
    requires
        forall|i: int| 0 <= i < s.len() ==> #[trigger] opt_code(s[i]) != 0 && opt_code(s[i]) != 52
            && opt_code(s[i]) != 255,
    ensures
        region_options(concat_frags(s) + t) == concat_frags(s) + region_options(t),
    decreases s.len(),
{
    if s.len() > 0 {
        let p = s.drop_last();
        let l = s.last();
        assert forall|i: int| 0 <= i < p.len() implies #[trigger] opt_code(p[i]) != 0 && opt_code(p[i]) != 52
            && opt_code(p[i]) != 255 by {
            assert(p[i] == s[i]);
        }
        assert(opt_code(s[s.len() - 1]) != 0);
        let e = encode_frags(opt_code(l), opt_data(l));
        assert(concat_frags(s) + t =~= concat_frags(p) + (e + t));
        lemma_region_concat(p, e + t);
        lemma_region_frags(opt_code(l), opt_data(l), t);
        assert(concat_frags(p) + (e + region_options(t)) =~= concat_frags(s) + region_options(t));
    }
}

/// The overload marker at the start of a region is dropped.
pub proof fn lemma_region_marker(v: u8, t: Seq<u8>)
    ensures
        region_options(seq![52u8, 1u8, v] + t) == region_options(t),
{
    let s = seq![52u8, 1u8, v] + t;
    assert(s.subrange(2 + s[1], s.len() as int) =~= t);
}

/// A region that starts with End contributes nothing.
pub proof fn lemma_region_end(t: Seq<u8>)
    ensures
        region_options(seq![255u8] + t) == Seq::<u8>::empty(),
{
}


/// Adds the options that a region contributes, in the order in which they
/// stand.
pub open spec fn region_fold(f: Seq<u8>, acc: Map<u8, Seq<u8>>) -> Map<u8, Seq<u8>>
    decreases f.len(),
{
    if f.len() == 0 || f[0] == 255 {
        acc
    } else if f[0] == 0 {
        region_fold(f.drop_first(), acc)
    } else if f.len() < 2 || f.len() < 2 + f[1] {
        acc
    } else if f[0] == 52 {
        region_fold(f.subrange(2 + f[1], f.len() as int), acc)
    } else {
        region_fold(f.subrange(2 + f[1], f.len() as int), append_frag(acc, f[0], f.subrange(2, 2 + f[1])))
    }
}

/// Reading what a region contributes adds its options one by one.
pub proof fn lemma_parse_region(f: Seq<u8>, t: Seq<u8>, acc: Map<u8, Seq<u8>>)
    ensures
        parse_raw(region_options(f) + t, acc) == parse_raw(t, region_fold(f, acc)),
    decreases f.len(),
{
    if f.len() == 0 || f[0] == 255 {
        assert(region_options(f) + t =~= t);
    } else if f[0] == 0 {
        lemma_parse_region(f.drop_first(), t, acc);
    } else if f.len() < 2 || f.len() < 2 + f[1] {
        assert(region_options(f) + t =~= t);
    } else {
        let rest = f.subrange(2 + f[1], f.len() as int);
        if f[0] == 52 {
            lemma_parse_region(rest, t, acc);
        } else {
            let d = f.subrange(2, 2 + f[1]);
            let acc2 = append_frag(acc, f[0], d);
            lemma_parse_region(rest, t, acc2);
            let s = region_options(f) + t;
            assert(s =~= f.subrange(0, 2 + f[1]) + (region_options(rest) + t));
            assert(s[0] == f[0]);
            assert(s[1] == f[1]);
            assert(s.subrange(2, 2 + s[1]) =~= d);
            assert(s.subrange(2 + s[1], s.len() as int) =~= region_options(rest) + t);
        }
    }
}

/// A region adds no option 52.
pub proof fn lemma_region_fold_no_marker(f: Seq<u8>, acc: Map<u8, Seq<u8>>)
    requires
        !acc.contains_key(52),
    ensures
        !region_fold(f, acc).contains_key(52),
    decreases f.len(),
{
    if f.len() == 0 || f[0] == 255 {
    } else if f[0] == 0 {
        lemma_region_fold_no_marker(f.drop_first(), acc);
    } else if f.len() < 2 || f.len() < 2 + f[1] {
    } else {
        let rest = f.subrange(2 + f[1], f.len() as int);
        if f[0] == 52 {
            lemma_region_fold_no_marker(rest, acc);
        } else {
            lemma_region_fold_no_marker(rest, append_frag(acc, f[0], f.subrange(2, 2 + f[1])));
        }
    }
}

} // verus!
