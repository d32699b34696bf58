//! Lower-case hexadecimal rendering of byte strings.
use vstd::prelude::*;

verus! {

/// The lower-case hex digit for a value below sixteen.
pub open spec fn hex_digit(n: int) -> char {
    if n < 10 {
        (48 + n) as char
    } else {
        (87 + n) as char
    }
}

/// Two lower-case hex digits per byte, most significant nibble first.
pub open spec fn hex_of(bytes: Seq<u8>) -> Seq<char>
    decreases bytes.len(),
{
    if bytes.len() == 0 {
        Seq::empty()
    } else {
        let b = bytes.last();
        hex_of(bytes.drop_last()).push(hex_digit((b / 16) as int)).push(hex_digit((b % 16) as int))
    }
}

/// `String::push`: appends one char at the end of the string.
#[verifier::external_body]
fn push_char(s: &mut String, c: char)
    ensures
        final(s)@ == old(s)@.push(c),
{
    s.push(c);
}

fn nibble_char(n: u8) -> (c: char)
    requires
        n < 16,
    ensures
        c == hex_digit(n as int),
{
    if n < 10 {
        (48 + n) as char
    } else {
        (87 + n) as char
    }
}

/// Renders `bytes` as lower-case hex, two digits per byte.
pub fn bytes_to_hex(bytes: &[u8]) -> (ret: String)
    ensures
        ret@ == hex_of(bytes@),
{
    let mut ret = String::new();
    let mut i: usize = 0;
    while i < bytes.len()
        invariant
            0 <= i <= bytes.len(),
            ret@ == hex_of(bytes@.subrange(0, i as int)),
        decreases bytes.len() - i,
    {
        let b = bytes[i];
        push_char(&mut ret, nibble_char(b / 16));
        push_char(&mut ret, nibble_char(b % 16));
        assert(bytes@.subrange(0, i + 1).drop_last() =~= bytes@.subrange(0, i as int));
        i = i + 1;
    }
    assert(bytes@.subrange(0, i as int) =~= bytes@);
    ret
}

/// `s` with a ':' put before each char at an even, nonzero position, so that
/// hex digits read in pairs: "deadbeef" becomes "de:ad:be:ef".
pub open spec fn with_colons(s: Seq<char>) -> Seq<char>
    decreases s.len(),
{
    if s.len() == 0 {
        Seq::empty()
    } else {
        let k = s.len() - 1;
        let front = with_colons(s.drop_last());
        if k != 0 && k % 2 == 0 {
            front.push(':').push(s.last())
        } else {
            front.push(s.last())
        }
    }
}

/// The hex rendering has two digits per byte.
pub proof fn lemma_hex_len(bytes: Seq<u8>)
    ensures
        hex_of(bytes).len() == 2 * bytes.len(),
    decreases bytes.len(),
{
    if bytes.len() > 0 {
        lemma_hex_len(bytes.drop_last());
    }
}

/// Renders `bytes` as lower-case hex with the bytes separated by ':', as a
/// hardware address is shown: `[0xde, 0xad]` becomes "de:ad".
pub fn bytes_to_colon_hex(bytes: &[u8]) -> (ret: String)
    ensures
        ret@ == with_colons(hex_of(bytes@)),
{
    let mut ret = String::new();
    let mut i: usize = 0;
    while i < bytes.len()
        invariant
            0 <= i <= bytes.len(),
            ret@ == with_colons(hex_of(bytes@.subrange(0, i as int))),
        decreases bytes.len() - i,
    {
        let b = bytes[i];
        let ghost prev = hex_of(bytes@.subrange(0, i as int));
        proof {
            lemma_hex_len(bytes@.subrange(0, i as int));
        }
        if i > 0 {
            push_char(&mut ret, ':');
        }
        let hi = nibble_char(b / 16);
        let lo = nibble_char(b % 16);
        push_char(&mut ret, hi);
        push_char(&mut ret, lo);
        proof {
            assert(bytes@.subrange(0, i + 1).drop_last() =~= bytes@.subrange(0, i as int));
            let next = hex_of(bytes@.subrange(0, i + 1));
            assert(next == prev.push(hi).push(lo));
            assert(next.drop_last() =~= prev.push(hi));
            assert(prev.push(hi).drop_last() =~= prev);
            assert((2 * i + 1) % 2 == 1) by (nonlinear_arith);
            assert((2 * i) % 2 == 0) by (nonlinear_arith);
            assert(with_colons(next) == with_colons(prev.push(hi)).push(lo));
            if i > 0 {
                assert(with_colons(prev.push(hi)) == with_colons(prev).push(':').push(hi));
            } else {
                assert(with_colons(prev.push(hi)) == with_colons(prev).push(hi));
            }
        }
        i = i + 1;
    }
    assert(bytes@.subrange(0, i as int) =~= bytes@);
    ret
}

/// Different values below sixteen have different digits.
proof fn lemma_hex_digit_injective(x: int, y: int)
    requires
        0 <= x < 16,
        0 <= y < 16,
        hex_digit(x) == hex_digit(y),
    ensures
        x == y,
{
    assert((hex_digit(x) as int) == (if x < 10 { 48 + x } else { 87 + x }));
    assert((hex_digit(y) as int) == (if y < 10 { 48 + y } else { 87 + y }));
}

/// The digits of byte `i` stand at positions `2 * i` and `2 * i + 1`.
proof fn lemma_hex_at(bytes: Seq<u8>, i: int)
    requires
        0 <= i < bytes.len(),
    ensures
        hex_of(bytes).len() == 2 * bytes.len(),
        hex_of(bytes)[2 * i] == hex_digit((bytes[i] / 16) as int),
        hex_of(bytes)[2 * i + 1] == hex_digit((bytes[i] % 16) as int),
    decreases bytes.len(),
{
    lemma_hex_len(bytes);
    let t = bytes.drop_last();
    lemma_hex_len(t);
    if i < bytes.len() - 1 {
        lemma_hex_at(t, i);
        assert(t[i] == bytes[i]);
    }
}

/// Rendering a concatenation renders each part in turn.
proof fn lemma_hex_concat(a: Seq<u8>, b: Seq<u8>)
    ensures
        hex_of(a + b) == hex_of(a) + hex_of(b),
    decreases b.len(),
{
    if b.len() == 0 {
        assert(a + b =~= a);
        assert(hex_of(a) + hex_of(b) =~= hex_of(a));
    } else {
        lemma_hex_concat(a, b.drop_last());
        assert((a + b).drop_last() =~= a + b.drop_last());
        assert((a + b).last() == b.last());
        assert(hex_of(a + b) =~= hex_of(a) + hex_of(b));
    }
}

/// Hex rendering loses nothing and composes: each pair of digits gives its
/// byte back (high nibble, then low), so different byte strings render
/// differently, and the rendering of a concatenation is the concatenation of
/// the renderings.
pub proof fn law_hex_rendering(a: Seq<u8>, b: Seq<u8>)
    ensures
        hex_of(a).len() == 2 * a.len(),
        forall|i: int| 0 <= i < a.len() ==> hex_of(a)[2 * i] == hex_digit((a[i] / 16) as int)
            && hex_of(a)[2 * i + 1] == hex_digit((a[i] % 16) as int),
        hex_of(a) == hex_of(b) ==> a == b,
        hex_of(a + b) == hex_of(a) + hex_of(b),
{
    lemma_hex_len(a);
    lemma_hex_len(b);
    assert forall|i: int| 0 <= i < a.len() implies hex_of(a)[2 * i] == hex_digit((a[i] / 16) as int)
        && hex_of(a)[2 * i + 1] == hex_digit((a[i] % 16) as int) by {
        lemma_hex_at(a, i);
    }
    if hex_of(a) == hex_of(b) {
        assert forall|i: int| 0 <= i < a.len() implies a[i] == b[i] by {
            lemma_hex_at(a, i);
            lemma_hex_at(b, i);
            lemma_hex_digit_injective((a[i] / 16) as int, (b[i] / 16) as int);
            lemma_hex_digit_injective((a[i] % 16) as int, (b[i] % 16) as int);
        }
        assert(a =~= b);
    }
    lemma_hex_concat(a, b);
}

} // verus!
