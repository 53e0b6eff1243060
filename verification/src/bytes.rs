//! Little- and big-endian field access on byte buffers.
use vstd::prelude::*;

verus! {

pub open spec fn le16(s: Seq<u8>, o: int) -> int {
    s[o] as int + (s[o + 1] as int) * 0x100
}

pub open spec fn le32(s: Seq<u8>, o: int) -> int {
    s[o] as int + (s[o + 1] as int) * 0x100 + (s[o + 2] as int) * 0x10000 + (s[o + 3] as int)
        * 0x1000000
}

pub open spec fn le64(s: Seq<u8>, o: int) -> int {
    le32(s, o) + le32(s, o + 4) * 0x1_0000_0000
}

pub open spec fn be16(s: Seq<u8>, o: int) -> int {
    (s[o] as int) * 0x100 + s[o + 1] as int
}

pub open spec fn be32(s: Seq<u8>, o: int) -> int {
    (s[o] as int) * 0x1000000 + (s[o + 1] as int) * 0x10000 + (s[o + 2] as int) * 0x100 + s[o
        + 3] as int
}

/// The two bytes of `v`, low byte first.
pub open spec fn le16_bytes(v: u16) -> Seq<u8> {
    seq![(v % 0x100) as u8, (v / 0x100) as u8]
}

/// The four bytes of `v`, low byte first.
pub open spec fn le32_bytes(v: u32) -> Seq<u8> {
    seq![(v % 0x100) as u8, ((v / 0x100) % 0x100) as u8, ((v / 0x10000) % 0x100) as u8, (v / 0x1000000) as u8]
}

/// The two bytes of `v`, high byte first.
pub open spec fn be16_bytes(v: u16) -> Seq<u8> {
    seq![(v / 0x100) as u8, (v % 0x100) as u8]
}

/// The four bytes of `v`, high byte first.
pub open spec fn be32_bytes(v: u32) -> Seq<u8> {
    seq![(v / 0x1000000) as u8, ((v / 0x10000) % 0x100) as u8, ((v / 0x100) % 0x100) as u8, (v % 0x100) as u8]
}

/// `s` with `t` written over it at offset `o`.
pub open spec fn splice(s: Seq<u8>, o: int, t: Seq<u8>) -> Seq<u8> {
    s.subrange(0, o) + t + s.subrange(o + t.len(), s.len() as int)
}

pub proof fn lemma_le16_roundtrip(v: u16)
    ensures
        le16(le16_bytes(v), 0) == v,
{
}

pub proof fn lemma_le32_roundtrip(v: u32)
    ensures
        le32(le32_bytes(v), 0) == v,
{
}

pub proof fn lemma_splice_len(s: Seq<u8>, o: int, t: Seq<u8>)
    requires
        0 <= o,
        o + t.len() <= s.len(),
    ensures
        splice(s, o, t).len() == s.len(),
        forall|i: int| 0 <= i < t.len() ==> #[trigger] splice(s, o, t)[o + i] == t[i],
        forall|i: int| 0 <= i < o ==> #[trigger] splice(s, o, t)[i] == s[i],
        forall|i: int| o + t.len() <= i < s.len() ==> #[trigger] splice(s, o, t)[i] == s[i],
{
}

/// Writing `a` at `o` and then `b` right after it is writing `a + b` at `o`.
pub proof fn lemma_splice_append(s: Seq<u8>, o: int, a: Seq<u8>, b: Seq<u8>)
    requires
        0 <= o,
        o + a.len() + b.len() <= s.len(),
    ensures
        splice(splice(s, o, a), o + a.len(), b) == splice(s, o, a + b),
{
    assert(splice(splice(s, o, a), o + a.len(), b) =~= splice(s, o, a + b));
}

/// Writing over the empty sequence changes nothing.
pub proof fn lemma_splice_empty(s: Seq<u8>, o: int)
    requires
        0 <= o <= s.len(),
    ensures
        splice(s, o, Seq::empty()) == s,
{
    assert(splice(s, o, Seq::empty()) =~= s);
}

pub fn rd_le16(b: &[u8], o: usize) -> (r: u16)
    requires
        o + 2 <= b@.len(),
    ensures
        r == le16(b@, o as int),
{
    (b[o] as u16) + (b[o + 1] as u16) * 0x100
}

pub fn rd_le32(b: &[u8], o: usize) -> (r: u32)
    requires
        o + 4 <= b@.len(),
    ensures
        r == le32(b@, o as int),
{
    (b[o] as u32) + (b[o + 1] as u32) * 0x100 + (b[o + 2] as u32) * 0x10000 + (b[o + 3] as u32)
        * 0x1000000
}

pub fn rd_le64(b: &[u8], o: usize) -> (r: u64)
    requires
        o + 8 <= b@.len(),
    ensures
        r == le64(b@, o as int),
{
    let _n: usize = b.len();
    let lo: u64 = rd_le32(b, o) as u64;
    let hi: u64 = rd_le32(b, o + 4) as u64;
    lo + hi * 0x1_0000_0000
}

pub fn rd_be16(b: &[u8], o: usize) -> (r: u16)
    requires
        o + 2 <= b@.len(),
    ensures
        r == be16(b@, o as int),
{
    (b[o] as u16) * 0x100 + (b[o + 1] as u16)
}

pub fn rd_be32(b: &[u8], o: usize) -> (r: u32)
    requires
        o + 4 <= b@.len(),
    ensures
        r == be32(b@, o as int),
{
    (b[o] as u32) * 0x1000000 + (b[o + 1] as u32) * 0x10000 + (b[o + 2] as u32) * 0x100 + (b[o
        + 3] as u32)
}

/// Overwrites `buf[o..o + src.len()]` with `src`.
pub fn write_bytes(buf: &mut Vec<u8>, o: usize, src: &[u8])
    requires
        o + src@.len() <= old(buf)@.len(),
    ensures
        final(buf)@.len() == old(buf)@.len(),
        final(buf)@ == splice(old(buf)@, o as int, src@),
{
    let _n: usize = buf.len();
    let mut i: usize = 0;
    while i < src.len()
        invariant
            o + src@.len() <= buf@.len(),
            _n == buf@.len(),
            buf@.len() == old(buf)@.len(),
            i <= src@.len(),
            buf@ == splice(old(buf)@, o as int, src@.subrange(0, i as int)),
        decreases src@.len() - i,
    {
        buf.set(o + i, src[i]);
        i = i + 1;
        assert(buf@ =~= splice(old(buf)@, o as int, src@.subrange(0, i as int)));
    }
    assert(src@.subrange(0, src@.len() as int) =~= src@);
}

pub fn put_le16(buf: &mut Vec<u8>, o: usize, v: u16)
    requires
        o + 2 <= old(buf)@.len(),
    ensures
        final(buf)@.len() == old(buf)@.len(),
        final(buf)@ == splice(old(buf)@, o as int, le16_bytes(v)),
{
    let _n: usize = buf.len();
    buf.set(o, (v % 0x100) as u8);
    buf.set(o + 1, (v / 0x100) as u8);
    assert(buf@ =~= splice(old(buf)@, o as int, le16_bytes(v)));
}

pub fn put_le32(buf: &mut Vec<u8>, o: usize, v: u32)
    requires
        o + 4 <= old(buf)@.len(),
    ensures
        final(buf)@.len() == old(buf)@.len(),
        final(buf)@ == splice(old(buf)@, o as int, le32_bytes(v)),
{
    let _n: usize = buf.len();
    buf.set(o, (v % 0x100) as u8);
    buf.set(o + 1, ((v / 0x100) % 0x100) as u8);
    buf.set(o + 2, ((v / 0x10000) % 0x100) as u8);
    buf.set(o + 3, (v / 0x1000000) as u8);
    assert(buf@ =~= splice(old(buf)@, o as int, le32_bytes(v)));
}

pub fn put_be16(buf: &mut Vec<u8>, o: usize, v: u16)
    requires
        o + 2 <= old(buf)@.len(),
    ensures
        final(buf)@.len() == old(buf)@.len(),
        final(buf)@ == splice(old(buf)@, o as int, be16_bytes(v)),
{
    let _n: usize = buf.len();
    buf.set(o, (v / 0x100) as u8);
    buf.set(o + 1, (v % 0x100) as u8);
    assert(buf@ =~= splice(old(buf)@, o as int, be16_bytes(v)));
}

pub fn put_be32(buf: &mut Vec<u8>, o: usize, v: u32)
    requires
        o + 4 <= old(buf)@.len(),
    ensures
        final(buf)@.len() == old(buf)@.len(),
        final(buf)@ == splice(old(buf)@, o as int, be32_bytes(v)),
{
    let _n: usize = buf.len();
    buf.set(o, (v / 0x1000000) as u8);
    buf.set(o + 1, ((v / 0x10000) % 0x100) as u8);
    buf.set(o + 2, ((v / 0x100) % 0x100) as u8);
    buf.set(o + 3, (v % 0x100) as u8);
    assert(buf@ =~= splice(old(buf)@, o as int, be32_bytes(v)));
}

/// The four bytes of `v`, low byte first.
pub fn le32_vec(v: u32) -> (r: Vec<u8>)
    ensures
        r@ == le32_bytes(v),
{
    let mut out: Vec<u8> = Vec::new();
    out.push((v % 0x100) as u8);
    out.push(((v / 0x100) % 0x100) as u8);
    out.push(((v / 0x10000) % 0x100) as u8);
    out.push((v / 0x1000000) as u8);
    assert(out@ =~= le32_bytes(v));
    out
}

/// The two bytes of `v`, low byte first.
pub fn le16_vec(v: u16) -> (r: Vec<u8>)
    ensures
        r@ == le16_bytes(v),
{
    let mut out: Vec<u8> = Vec::new();
    out.push((v % 0x100) as u8);
    out.push((v / 0x100) as u8);
    assert(out@ =~= le16_bytes(v));
    out
}

/// The two bytes of `v`, high byte first.
pub fn be16_vec(v: u16) -> (r: Vec<u8>)
    ensures
        r@ == be16_bytes(v),
{
    let mut out: Vec<u8> = Vec::new();
    out.push((v / 0x100) as u8);
    out.push((v % 0x100) as u8);
    assert(out@ =~= be16_bytes(v));
    out
}

/// The four bytes of `v`, high byte first.
pub fn be32_vec(v: u32) -> (r: Vec<u8>)
    ensures
        r@ == be32_bytes(v),
{
    let mut out: Vec<u8> = Vec::new();
    out.push((v / 0x1000000) as u8);
    out.push(((v / 0x10000) % 0x100) as u8);
    out.push(((v / 0x100) % 0x100) as u8);
    out.push((v % 0x100) as u8);
    assert(out@ =~= be32_bytes(v));
    out
}

/// Appends `src` to `out`.
pub fn extend_from(out: &mut Vec<u8>, src: &[u8])
    ensures
        final(out)@ == old(out)@ + src@,
{
    let mut i: usize = 0;
    while i < src.len()
        invariant
            i <= src@.len(),
            out@ == old(out)@ + src@.subrange(0, i as int),
        decreases src@.len() - i,
    {
        out.push(src[i]);
        i = i + 1;
        assert(out@ =~= old(out)@ + src@.subrange(0, i as int));
    }
    assert(src@.subrange(0, src@.len() as int) =~= src@);
}

/// A copy of `src[start..end]`.
pub fn copy_range(src: &[u8], start: usize, end: usize) -> (r: Vec<u8>)
    requires
        start <= end <= src@.len(),
    ensures
        r@ == src@.subrange(start as int, end as int),
{
    let mut out: Vec<u8> = Vec::new();
    let mut i: usize = start;
    while i < end
        invariant
            start <= i <= end <= src@.len(),
            out@ == src@.subrange(start as int, i as int),
        decreases end - i,
    {
        out.push(src[i]);
        i = i + 1;
        assert(out@ =~= src@.subrange(start as int, i as int));
    }
    out
}

/// Whether `a[o..o + b.len()]` equals `b`.
pub fn bytes_eq_at(a: &[u8], o: usize, b: &[u8]) -> (r: bool)
    requires
        o + b@.len() <= a@.len(),
    ensures
        r == (a@.subrange(o as int, o + b@.len()) == b@),
{
    let _n: usize = a.len();
    let mut i: usize = 0;
    while i < b.len()
        invariant
            o + b@.len() <= a@.len(),
            _n == a@.len(),
            i <= b@.len(),
            forall|j: int| 0 <= j < i ==> a@[o + j] == b@[j],
        decreases b@.len() - i,
    {
        if a[o + i] != b[i] {
            assert(a@.subrange(o as int, o + b@.len())[i as int] != b@[i as int]);
            return false;
        }
        i = i + 1;
    }
    assert(a@.subrange(o as int, o + b@.len()) =~= b@);
    true
}

/// A vector of `n` zero bytes.
pub fn zeros(n: usize) -> (r: Vec<u8>)
    ensures
        r@ == Seq::new(n as nat, |i: int| 0u8),
{
    let mut v: Vec<u8> = Vec::new();
    let mut i: usize = 0;
    while i < n
        invariant
            i <= n,
            v@ == Seq::new(i as nat, |j: int| 0u8),
        decreases n - i,
    {
        v.push(0);
        i = i + 1;
        assert(v@ =~= Seq::new(i as nat, |j: int| 0u8));
    }
    v
}

} // verus!
