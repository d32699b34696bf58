//! Byte-level building blocks: big-endian integers, zero-filled fields and
//! NUL-terminated names.
use vstd::prelude::*;

verus! {

/// The two bytes of a `u16`, most significant first.
pub open spec fn u16_bytes(v: u16) -> Seq<u8> {
    seq![(v / 256) as u8, (v % 256) as u8]
}

/// The four bytes of a `u32`, most significant first.
pub open spec fn u32_bytes(v: u32) -> Seq<u8> {
    seq![(v / 0x100_0000) as u8, ((v / 0x1_0000) % 256) as u8, ((v / 256) % 256) as u8, (v % 256) as u8]
}

/// The `u16` that two bytes, most significant first, stand for.
pub open spec fn be_u16(b0: u8, b1: u8) -> u16 {
    (b0 * 256 + b1) as u16
}

/// The `u32` that four bytes, most significant first, stand for.
pub open spec fn be_u32(b0: u8, b1: u8, b2: u8, b3: u8) -> u32 {
    (b0 * 0x100_0000 + b1 * 0x1_0000 + b2 * 256 + b3) as u32
}

pub proof fn lemma_u16_roundtrip(v: u16)
    ensures
        be_u16(u16_bytes(v)[0], u16_bytes(v)[1]) == v,
{
}

pub proof fn lemma_u32_roundtrip(v: u32)
    ensures
        be_u32(u32_bytes(v)[0], u32_bytes(v)[1], u32_bytes(v)[2], u32_bytes(v)[3]) == v,
{
}

/// `n` zero bytes.
pub open spec fn zeros(n: nat) -> Seq<u8> {
    Seq::new(n, |i: int| 0u8)
}

/// A fixed-length field holding an optional byte string, zero-filled to `n`
/// bytes; an absent value is `n` zero bytes.
pub open spec fn fill(v: Option<Seq<u8>>, n: nat) -> Seq<u8> {
    match v {
        None => zeros(n),
        Some(b) => b + zeros((n - b.len()) as nat),
    }
}

/// The index of the first zero byte of `s`, or `s.len()` when there is none.
pub open spec fn first_zero(s: Seq<u8>) -> int
    decreases s.len(),
{
    if s.len() == 0 || s[0] == 0 {
        0
    } else {
        1 + first_zero(s.drop_first())
    }
}

/// The name that a NUL-padded field holds: nothing when it starts with NUL,
/// else its bytes up to and including the first NUL, or the whole field when
/// it holds no NUL.
pub open spec fn trim_nul_spec(s: Seq<u8>) -> Option<Seq<u8>> {
    if s.len() == 0 || s[0] == 0 {
        None
    } else if first_zero(s) < s.len() {
        Some(s.subrange(0, first_zero(s) + 1))
    } else {
        Some(s)
    }
}

pub proof fn lemma_first_zero(s: Seq<u8>)
    ensures
        0 <= first_zero(s) <= s.len(),
        first_zero(s) < s.len() ==> s[first_zero(s)] == 0,
        forall|i: int| 0 <= i < first_zero(s) ==> s[i] != 0,
    decreases s.len(),
{
    if s.len() > 0 && s[0] != 0 {
        lemma_first_zero(s.drop_first());
        assert forall|i: int| 0 <= i < first_zero(s) implies s[i] != 0 by {
            if i > 0 {
                assert(s[i] == s.drop_first()[i - 1]);
            }
        }
    }
}

/// The position of the first zero is fixed by the bytes before and at it.
pub proof fn lemma_first_zero_unique(s: Seq<u8>, k: int)
    requires
        0 <= k <= s.len(),
        k < s.len() ==> s[k] == 0,
        forall|i: int| 0 <= i < k ==> s[i] != 0,
    ensures
        first_zero(s) == k,
{
    lemma_first_zero(s);
    if first_zero(s) < k {
        assert(s[first_zero(s)] == 0);
    }
    if first_zero(s) > k {
        assert(s[k] != 0);
    }
}

/// Reading a name back from its zero-filled field gives the name again, for
/// names that reading a field gives.
pub proof fn lemma_trim_fill(s: Seq<u8>, n: nat)
    requires
        s.len() == n,
    ensures
        trim_nul_spec(fill(trim_nul_spec(s), n)) == trim_nul_spec(s),
{
    lemma_first_zero(s);
    let t = trim_nul_spec(s);
    let f = fill(t, n);
    match t {
        None => {
            if n > 0 {
                assert(f[0] == 0);
            }
        },
        Some(b) => {
            let k = first_zero(s);
            if k < s.len() {
                assert(b.len() == k + 1);
                assert(f.len() == n);
                assert(f[0] == s[0]);
                assert forall|i: int| 0 <= i < k implies f[i] != 0 by {
                    assert(f[i] == b[i]);
                }
                assert(f[k] == 0);
                lemma_first_zero_unique(f, k);
                assert(f.subrange(0, k + 1) =~= b);
            } else {
                assert(f =~= s);
            }
        },
    }
}

/// A name read from a field is no longer than the field.
pub proof fn lemma_trim_len(s: Seq<u8>)
    ensures
        trim_nul_spec(s) matches Some(b) ==> b.len() <= s.len(),
{
    lemma_first_zero(s);
}

/// Appends `src` to `dst`.
pub fn extend_bytes(dst: &mut Vec<u8>, src: &[u8])
    ensures
        final(dst)@ == old(dst)@ + src@,
{
    let mut i: usize = 0;
    while i < src.len()
        invariant
            0 <= i <= src@.len(),
            dst@ == old(dst)@ + src@.subrange(0, i as int),
        decreases src@.len() - i,
    {
        dst.push(src[i]);
        i = i + 1;
        assert(dst@ =~= old(dst)@ + src@.subrange(0, i as int));
    }
    assert(src@.subrange(0, i as int) =~= src@);
}

/// Appends the bytes `src[from..to]` to `dst`.
pub fn extend_range(dst: &mut Vec<u8>, src: &[u8], from: usize, to: usize)
    requires
        from <= to <= src@.len(),
    ensures
        final(dst)@ == old(dst)@ + src@.subrange(from as int, to as int),
{
    let mut i: usize = from;
    while i < to
        invariant
            from <= i <= to <= src@.len(),
            dst@ == old(dst)@ + src@.subrange(from as int, i as int),
        decreases to - i,
    {
        dst.push(src[i]);
        i = i + 1;
        assert(dst@ =~= old(dst)@ + src@.subrange(from as int, i as int));
    }
}

/// Appends `n` zero bytes to `dst`.
pub fn push_zeros(dst: &mut Vec<u8>, n: usize)
    ensures
        final(dst)@ == old(dst)@ + zeros(n as nat),
{
    let mut i: usize = 0;
    while i < n
        invariant
            0 <= i <= n,
            dst@ == old(dst)@ + zeros(i as nat),
        decreases n - i,
    {
        dst.push(0);
        i = i + 1;
        assert(dst@ =~= old(dst)@ + zeros(i as nat));
    }
}

/// Appends the big-endian bytes of `v`.
pub fn push_u16(dst: &mut Vec<u8>, v: u16)
    ensures
        final(dst)@ == old(dst)@ + u16_bytes(v),
{
    dst.push((v / 256) as u8);
    dst.push((v % 256) as u8);
    assert(dst@ =~= old(dst)@ + u16_bytes(v));
}

/// Appends the big-endian bytes of `v`.
pub fn push_u32(dst: &mut Vec<u8>, v: u32)
    ensures
        final(dst)@ == old(dst)@ + u32_bytes(v),
{
    dst.push((v / 0x100_0000) as u8);
    dst.push(((v / 0x1_0000) % 256) as u8);
    dst.push(((v / 256) % 256) as u8);
    dst.push((v % 256) as u8);
    assert(dst@ =~= old(dst)@ + u32_bytes(v));
}

/// Appends a name zero-filled to an `n`-byte field.
pub fn push_fill(dst: &mut Vec<u8>, v: &Option<Vec<u8>>, n: usize)
    requires
        v matches Some(b) ==> b@.len() <= n,
    ensures
        final(dst)@ == old(dst)@ + fill(
            match v {
                Some(b) => Some(b@),
                None => None,
            },
            n as nat,
        ),
{
    match v {
        None => push_zeros(dst, n),
        Some(b) => {
            extend_bytes(dst, b.as_slice());
            push_zeros(dst, n - b.len());
            assert(dst@ =~= old(dst)@ + (b@ + zeros((n - b@.len()) as nat)));
        },
    }
}

/// The name that a NUL-padded field holds: nothing when the field starts with
/// NUL, else its bytes up to and including the first NUL, or the whole field
/// when it holds no NUL.
pub fn trim_nul(field: &[u8]) -> (r: Option<Vec<u8>>)
    ensures
        match r {
            Some(b) => trim_nul_spec(field@) == Some(b@),
            None => trim_nul_spec(field@) is None,
        },
{
    if field.len() == 0 || field[0] == 0 {
        return None;
    }
    let mut k: usize = 0;
    while k < field.len() && field[k] != 0
        invariant
            0 <= k <= field@.len(),
            forall|i: int| 0 <= i < k ==> field@[i] != 0,
        decreases field@.len() - k,
    {
        k = k + 1;
    }
    proof {
        lemma_first_zero_unique(field@, k as int);
    }
    let mut out: Vec<u8> = Vec::new();
    if k < field.len() {
        extend_range(&mut out, field, 0, k + 1);
    } else {
        extend_bytes(&mut out, field);
    }
    Some(out)
}

/// Reads the big-endian `u16` at `off`.
pub fn read_u16(bytes: &[u8], off: usize) -> (v: u16)
    requires
        off + 2 <= bytes@.len(),
    ensures
        v == be_u16(bytes@[off as int], bytes@[off + 1]),
{
    (bytes[off] as u16) * 256 + (bytes[off + 1] as u16)
}

/// Reads the big-endian `u32` at `off`.
pub fn read_u32(bytes: &[u8], off: usize) -> (v: u32)
    requires
        off + 4 <= bytes@.len(),
    ensures
        v == be_u32(bytes@[off as int], bytes@[off + 1], bytes@[off + 2], bytes@[off + 3]),
{
    (bytes[off] as u32) * 0x100_0000 + (bytes[off + 1] as u32) * 0x1_0000 + (bytes[off + 2] as u32) * 256
        + (bytes[off + 3] as u32)
}

} // verus!
