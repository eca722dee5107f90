//! Little-endian fields of byte buffers.
use vstd::prelude::*;
use crate::text::string_of;

verus! {

/// The little-endian `u16` at `o`.
pub open spec fn le16(d: Seq<u8>, o: int) -> int {
    d[o] as int + 256 * (d[o + 1] as int)
}

/// The little-endian `u32` at `o`.
pub open spec fn le32(d: Seq<u8>, o: int) -> int {
    d[o] as int + 256 * (d[o + 1] as int) + 65536 * (d[o + 2] as int) + 16777216 * (d[o + 3] as int)
}

/// The little-endian `u16` at `o`; the caller has checked the bounds.
pub fn read_le16(d: &[u8], o: usize) -> (v: u16)
    requires
        o + 2 <= d@.len(),
    ensures
        v == le16(d@, o as int),
{
    (d[o] as u16) + 256 * (d[o + 1] as u16)
}

/// The little-endian `u32` at `o`; the caller has checked the bounds.
pub fn read_le32(d: &[u8], o: usize) -> (v: u32)
    requires
        o + 4 <= d@.len(),
    ensures
        v == le32(d@, o as int),
{
    (d[o] as u32) + 256 * (d[o + 1] as u32) + 65536 * (d[o + 2] as u32) + 16777216 * (d[o + 3] as u32)
}

/// The four little-endian bytes of `v`.
pub open spec fn le32_bytes(v: u32) -> Seq<u8> {
    seq![(v % 256) as u8, ((v / 256) % 256) as u8, ((v / 65536) % 256) as u8, (v / 16777216) as u8]
}

/// The two little-endian bytes of `v`.
pub open spec fn le16_bytes(v: u16) -> Seq<u8> {
    seq![(v % 256) as u8, (v / 256) as u8]
}

/// Append the little-endian bytes of `v`.
pub fn push_le32(out: &mut Vec<u8>, v: u32)
    ensures
        final(out)@ == old(out)@ + le32_bytes(v),
{
    out.push((v % 256) as u8);
    out.push(((v / 256) % 256) as u8);
    out.push(((v / 65536) % 256) as u8);
    out.push((v / 16777216) as u8);
}

/// Append the little-endian bytes of `v`.
pub fn push_le16(out: &mut Vec<u8>, v: u16)
    ensures
        final(out)@ == old(out)@ + le16_bytes(v),
{
    out.push((v % 256) as u8);
    out.push((v / 256) as u8);
}

/// Reading back what `le32_bytes` wrote gives the value.
pub proof fn lemma_le32_round_trip(v: u32)
    ensures
        le32(le32_bytes(v), 0) == v,
{
    let b = le32_bytes(v);
    assert(b[0] == v % 256);
    assert(b[1] == (v / 256) % 256);
    assert(b[2] == (v / 65536) % 256);
    assert(b[3] == v / 16777216);
    assert(v == v % 256 + 256 * ((v / 256) % 256) + 65536 * ((v / 65536) % 256) + 16777216 * (v / 16777216))
        by (nonlinear_arith);
}

/// Reading back what `le16_bytes` wrote gives the value.
pub proof fn lemma_le16_round_trip(v: u16)
    ensures
        le16(le16_bytes(v), 0) == v,
{
    let b = le16_bytes(v);
    assert(v == v % 256 + 256 * (v / 256)) by (nonlinear_arith);
}

/// Append `n` zero bytes.
pub fn push_zeros(out: &mut Vec<u8>, n: usize)
    ensures
        final(out)@ == old(out)@ + Seq::new(n as nat, |i: int| 0u8),
{
    let mut k: usize = 0;
    while k < n
        invariant
            k <= n,
            out@ == old(out)@ + Seq::new(k as nat, |i: int| 0u8),
        decreases n - k,
    {
        out.push(0);
        assert(Seq::new((k + 1) as nat, |i: int| 0u8) =~= Seq::new(k as nat, |i: int| 0u8).push(0u8));
        k = k + 1;
    }
}

/// Append the bytes of `more`.
pub fn append(out: &mut Vec<u8>, more: &[u8])
    ensures
        final(out)@ == old(out)@ + more@,
{
    let mut k: usize = 0;
    while k < more.len()
        invariant
            k <= more@.len(),
            out@ == old(out)@ + more@.subrange(0, k as int),
        decreases more@.len() - k,
    {
        out.push(more[k]);
        assert(more@.subrange(0, k + 1) =~= more@.subrange(0, k as int).push(more@[k as int]));
        k = k + 1;
    }
    assert(more@.subrange(0, k as int) =~= more@);
}


/// A hex digit, lower case.
pub open spec fn hex_digit(d: int) -> char {
    if d < 10 { (48 + d) as char } else { (87 + d) as char }
}

/// A byte as two lower-case hex digits.
pub open spec fn hex_pair(b: u8) -> Seq<char> {
    seq![hex_digit(b as int / 16), hex_digit(b as int % 16)]
}

/// Bytes as lower-case hex, two digits each.
pub open spec fn hex_text(b: Seq<u8>) -> Seq<char>
    decreases b.len(),
{
    if b.len() == 0 { Seq::empty() } else { hex_text(b.drop_last()) + hex_pair(b.last()) }
}

fn digit_char(d: u8) -> (c: char)
    requires
        d < 16,
    ensures
        c == hex_digit(d as int),
{
    if d < 10 { (48u8 + d) as char } else { (87u8 + d) as char }
}

/// Append a byte's two hex digits.
pub fn push_hex(out: &mut Vec<char>, b: u8)
    ensures
        final(out)@ == old(out)@ + hex_pair(b),
{
    out.push(digit_char(b / 16));
    out.push(digit_char(b % 16));
    assert(out@ =~= old(out)@ + hex_pair(b));
}

/// Bytes as lower-case hex, two digits each.
pub fn hex(b: &[u8]) -> (s: String)
    ensures
        s@ == hex_text(b@),
{
    let mut v: Vec<char> = Vec::new();
    let mut k: usize = 0;
    while k < b.len()
        invariant
            k <= b@.len(),
            v@ == hex_text(b@.subrange(0, k as int)),
        decreases b@.len() - k,
    {
        proof {
            assert(b@.subrange(0, k + 1).drop_last() =~= b@.subrange(0, k as int));
        }
        push_hex(&mut v, b[k]);
        k = k + 1;
    }
    assert(b@.subrange(0, k as int) =~= b@);
    string_of(v.as_slice())
}
} // verus!
