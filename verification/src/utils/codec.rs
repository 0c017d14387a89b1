//! Little-endian field access inside byte buffers.
//!
//! Every on-disk structure of a Nexora file is a sequence of little-endian
//! integers at fixed offsets inside a page. The spec functions here read such
//! a field out of a byte sequence and describe the buffer after a field has
//! been written; the executable functions do the same on real buffers.
use vstd::prelude::*;
use vstd::bytes::*;
use vstd::slice::slice_subrange;

verus! {

pub open spec fn read_u8(s: Seq<u8>, o: int) -> u8 {
    s[o]
}

pub open spec fn read_u16(s: Seq<u8>, o: int) -> u16 {
    spec_u16_from_le_bytes(s.subrange(o, o + 2))
}

pub open spec fn read_u32(s: Seq<u8>, o: int) -> u32 {
    spec_u32_from_le_bytes(s.subrange(o, o + 4))
}

pub open spec fn read_u64(s: Seq<u8>, o: int) -> u64 {
    spec_u64_from_le_bytes(s.subrange(o, o + 8))
}

pub open spec fn read_u128(s: Seq<u8>, o: int) -> u128 {
    spec_u128_from_le_bytes(s.subrange(o, o + 16))
}

/// `s` with the bytes `b` placed at offset `o`.
pub open spec fn put_bytes(s: Seq<u8>, o: int, b: Seq<u8>) -> Seq<u8> {
    Seq::new(s.len(), |i: int| if o <= i < o + b.len() { b[i - o] } else { s[i] })
}

pub open spec fn put_u8(s: Seq<u8>, o: int, v: u8) -> Seq<u8> {
    s.update(o, v)
}

pub open spec fn put_u16(s: Seq<u8>, o: int, v: u16) -> Seq<u8> {
    put_bytes(s, o, spec_u16_to_le_bytes(v))
}

pub open spec fn put_u32(s: Seq<u8>, o: int, v: u32) -> Seq<u8> {
    put_bytes(s, o, spec_u32_to_le_bytes(v))
}

pub open spec fn put_u64(s: Seq<u8>, o: int, v: u64) -> Seq<u8> {
    put_bytes(s, o, spec_u64_to_le_bytes(v))
}

pub open spec fn put_u128(s: Seq<u8>, o: int, v: u128) -> Seq<u8> {
    put_bytes(s, o, spec_u128_to_le_bytes(v))
}

/// Whether `s` and `t` hold the same bytes in `[o, o + n)`.
pub open spec fn same_range(s: Seq<u8>, t: Seq<u8>, o: int, n: int) -> bool {
    forall|i: int| o <= i < o + n ==> #[trigger] s[i] == t[i]
}

pub proof fn lemma_read_same_range(s: Seq<u8>, t: Seq<u8>, o: int)
    requires
        0 <= o,
        o + 16 <= s.len(),
        o + 16 <= t.len(),
        same_range(s, t, o, 16),
    ensures
        read_u8(s, o) == read_u8(t, o),
        read_u16(s, o) == read_u16(t, o),
        read_u32(s, o) == read_u32(t, o),
        read_u64(s, o) == read_u64(t, o),
        read_u128(s, o) == read_u128(t, o),
{
    assert(s.subrange(o, o + 2) =~= t.subrange(o, o + 2));
    assert(s.subrange(o, o + 4) =~= t.subrange(o, o + 4));
    assert(s.subrange(o, o + 8) =~= t.subrange(o, o + 8));
    assert(s.subrange(o, o + 16) =~= t.subrange(o, o + 16));
}

pub broadcast proof fn lemma_put_bytes_len(s: Seq<u8>, o: int, b: Seq<u8>)
    ensures
        #[trigger] put_bytes(s, o, b).len() == s.len(),
{
}

pub broadcast proof fn lemma_put_bytes_index(s: Seq<u8>, o: int, b: Seq<u8>, i: int)
    requires
        0 <= i < s.len(),
    ensures
        #[trigger] put_bytes(s, o, b)[i] == if o <= i < o + b.len() { b[i - o] } else { s[i] },
{
}

/// A field read that does not overlap the written bytes is unchanged.
pub broadcast proof fn lemma_read_u8_put(s: Seq<u8>, o: int, b: Seq<u8>, p: int)
    requires
        0 <= p < s.len(),
        p < o || o + b.len() <= p,
    ensures
        #[trigger] read_u8(put_bytes(s, o, b), p) == read_u8(s, p),
{
}

pub broadcast proof fn lemma_read_u16_put(s: Seq<u8>, o: int, b: Seq<u8>, p: int)
    requires
        0 <= p,
        p + 2 <= s.len(),
        p + 2 <= o || o + b.len() <= p,
    ensures
        #[trigger] read_u16(put_bytes(s, o, b), p) == read_u16(s, p),
{
    assert(put_bytes(s, o, b).subrange(p, p + 2) =~= s.subrange(p, p + 2));
}

pub broadcast proof fn lemma_read_u32_put(s: Seq<u8>, o: int, b: Seq<u8>, p: int)
    requires
        0 <= p,
        p + 4 <= s.len(),
        p + 4 <= o || o + b.len() <= p,
    ensures
        #[trigger] read_u32(put_bytes(s, o, b), p) == read_u32(s, p),
{
    assert(put_bytes(s, o, b).subrange(p, p + 4) =~= s.subrange(p, p + 4));
}

pub broadcast proof fn lemma_read_u64_put(s: Seq<u8>, o: int, b: Seq<u8>, p: int)
    requires
        0 <= p,
        p + 8 <= s.len(),
        p + 8 <= o || o + b.len() <= p,
    ensures
        #[trigger] read_u64(put_bytes(s, o, b), p) == read_u64(s, p),
{
    assert(put_bytes(s, o, b).subrange(p, p + 8) =~= s.subrange(p, p + 8));
}

pub broadcast proof fn lemma_read_u128_put(s: Seq<u8>, o: int, b: Seq<u8>, p: int)
    requires
        0 <= p,
        p + 16 <= s.len(),
        p + 16 <= o || o + b.len() <= p,
    ensures
        #[trigger] read_u128(put_bytes(s, o, b), p) == read_u128(s, p),
{
    assert(put_bytes(s, o, b).subrange(p, p + 16) =~= s.subrange(p, p + 16));
}

/// Same facts for single-byte writes.
pub broadcast proof fn lemma_read_u16_put_u8(s: Seq<u8>, o: int, v: u8, p: int)
    requires
        0 <= p,
        p + 2 <= s.len(),
        0 <= o < s.len(),
        p + 2 <= o || o < p,
    ensures
        #[trigger] read_u16(put_u8(s, o, v), p) == read_u16(s, p),
{
    assert(put_u8(s, o, v).subrange(p, p + 2) =~= s.subrange(p, p + 2));
}

pub broadcast proof fn lemma_read_u32_put_u8(s: Seq<u8>, o: int, v: u8, p: int)
    requires
        0 <= p,
        p + 4 <= s.len(),
        0 <= o < s.len(),
        p + 4 <= o || o < p,
    ensures
        #[trigger] read_u32(put_u8(s, o, v), p) == read_u32(s, p),
{
    assert(put_u8(s, o, v).subrange(p, p + 4) =~= s.subrange(p, p + 4));
}

pub broadcast proof fn lemma_read_u64_put_u8(s: Seq<u8>, o: int, v: u8, p: int)
    requires
        0 <= p,
        p + 8 <= s.len(),
        0 <= o < s.len(),
        p + 8 <= o || o < p,
    ensures
        #[trigger] read_u64(put_u8(s, o, v), p) == read_u64(s, p),
{
    assert(put_u8(s, o, v).subrange(p, p + 8) =~= s.subrange(p, p + 8));
}

pub broadcast proof fn lemma_read_u128_put_u8(s: Seq<u8>, o: int, v: u8, p: int)
    requires
        0 <= p,
        p + 16 <= s.len(),
        0 <= o < s.len(),
        p + 16 <= o || o < p,
    ensures
        #[trigger] read_u128(put_u8(s, o, v), p) == read_u128(s, p),
{
    assert(put_u8(s, o, v).subrange(p, p + 16) =~= s.subrange(p, p + 16));
}

/// A field read at the offset just written gives back the written value.
pub broadcast proof fn lemma_read_u16_put_same(s: Seq<u8>, o: int, v: u16)
    requires
        0 <= o,
        o + 2 <= s.len(),
    ensures
        #[trigger] read_u16(put_u16(s, o, v), o) == v,
{
    lemma_auto_spec_u16_to_from_le_bytes();
    assert(put_u16(s, o, v).subrange(o, o + 2) =~= spec_u16_to_le_bytes(v));
}

pub broadcast proof fn lemma_read_u32_put_same(s: Seq<u8>, o: int, v: u32)
    requires
        0 <= o,
        o + 4 <= s.len(),
    ensures
        #[trigger] read_u32(put_u32(s, o, v), o) == v,
{
    lemma_auto_spec_u32_to_from_le_bytes();
    assert(put_u32(s, o, v).subrange(o, o + 4) =~= spec_u32_to_le_bytes(v));
}

pub broadcast proof fn lemma_read_u64_put_same(s: Seq<u8>, o: int, v: u64)
    requires
        0 <= o,
        o + 8 <= s.len(),
    ensures
        #[trigger] read_u64(put_u64(s, o, v), o) == v,
{
    lemma_auto_spec_u64_to_from_le_bytes();
    assert(put_u64(s, o, v).subrange(o, o + 8) =~= spec_u64_to_le_bytes(v));
}

pub broadcast proof fn lemma_read_u128_put_same(s: Seq<u8>, o: int, v: u128)
    requires
        0 <= o,
        o + 16 <= s.len(),
    ensures
        #[trigger] read_u128(put_u128(s, o, v), o) == v,
{
    lemma_auto_spec_u128_to_from_le_bytes();
    assert(put_u128(s, o, v).subrange(o, o + 16) =~= spec_u128_to_le_bytes(v));
}

pub broadcast proof fn lemma_u16_le_bytes_len(x: u16)
    ensures
        #[trigger] spec_u16_to_le_bytes(x).len() == 2,
{
    lemma_auto_spec_u16_to_from_le_bytes();
}

pub broadcast proof fn lemma_u32_le_bytes_len(x: u32)
    ensures
        #[trigger] spec_u32_to_le_bytes(x).len() == 4,
{
    lemma_auto_spec_u32_to_from_le_bytes();
}

pub broadcast proof fn lemma_u64_le_bytes_len(x: u64)
    ensures
        #[trigger] spec_u64_to_le_bytes(x).len() == 8,
{
    lemma_auto_spec_u64_to_from_le_bytes();
}

pub broadcast proof fn lemma_u128_le_bytes_len(x: u128)
    ensures
        #[trigger] spec_u128_to_le_bytes(x).len() == 16,
{
    lemma_auto_spec_u128_to_from_le_bytes();
}

pub broadcast group group_codec {
    lemma_put_bytes_len,
    lemma_put_bytes_index,
    lemma_read_u8_put,
    lemma_read_u16_put,
    lemma_read_u32_put,
    lemma_read_u64_put,
    lemma_read_u128_put,
    lemma_read_u16_put_u8,
    lemma_read_u32_put_u8,
    lemma_read_u64_put_u8,
    lemma_read_u128_put_u8,
    lemma_read_u16_put_same,
    lemma_read_u32_put_same,
    lemma_read_u64_put_same,
    lemma_read_u128_put_same,
    lemma_u16_le_bytes_len,
    lemma_u32_le_bytes_len,
    lemma_u64_le_bytes_len,
    lemma_u128_le_bytes_len,
}

pub fn get_u8(buf: &[u8], o: usize) -> (r: u8)
    requires
        o < buf@.len(),
    ensures
        r == read_u8(buf@, o as int),
{
    buf[o]
}

pub fn get_u16(buf: &[u8], o: usize) -> (r: u16)
    requires
        o + 2 <= buf@.len(),
    ensures
        r == read_u16(buf@, o as int),
{
    let n = buf.len();
    assert(n == buf@.len());
    u16_from_le_bytes(slice_subrange(buf, o, o + 2))
}

pub fn get_u32(buf: &[u8], o: usize) -> (r: u32)
    requires
        o + 4 <= buf@.len(),
    ensures
        r == read_u32(buf@, o as int),
{
    let n = buf.len();
    assert(n == buf@.len());
    u32_from_le_bytes(slice_subrange(buf, o, o + 4))
}

pub fn get_u64(buf: &[u8], o: usize) -> (r: u64)
    requires
        o + 8 <= buf@.len(),
    ensures
        r == read_u64(buf@, o as int),
{
    let n = buf.len();
    assert(n == buf@.len());
    u64_from_le_bytes(slice_subrange(buf, o, o + 8))
}

pub fn get_u128(buf: &[u8], o: usize) -> (r: u128)
    requires
        o + 16 <= buf@.len(),
    ensures
        r == read_u128(buf@, o as int),
{
    let n = buf.len();
    assert(n == buf@.len());
    u128_from_le_bytes(slice_subrange(buf, o, o + 16))
}

/// Copies `b` into `buf` at offset `o`.
pub fn set_bytes(buf: &mut Vec<u8>, o: usize, b: &[u8])
    requires
        o + b@.len() <= old(buf)@.len(),
    ensures
        final(buf)@ == put_bytes(old(buf)@, o as int, b@),
{
    let n = buf.len();
    let mut i: usize = 0;
    while i < b.len()
        invariant
            i <= b@.len(),
            o + b@.len() <= old(buf)@.len(),
            n == old(buf)@.len(),
            buf@.len() == old(buf)@.len(),
            forall|j: int| 0 <= j < buf@.len() ==> #[trigger] buf@[j] == if o <= j < o + i {
                b@[j - o]
            } else {
                old(buf)@[j]
            },
        decreases b@.len() - i,
    {
        buf[o + i] = b[i];
        i = i + 1;
    }
    assert(buf@ =~= put_bytes(old(buf)@, o as int, b@));
}

pub fn set_u8(buf: &mut Vec<u8>, o: usize, v: u8)
    requires
        o < old(buf)@.len(),
    ensures
        final(buf)@ == put_u8(old(buf)@, o as int, v),
{
    buf[o] = v;
}

pub fn set_u16(buf: &mut Vec<u8>, o: usize, v: u16)
    requires
        o + 2 <= old(buf)@.len(),
    ensures
        final(buf)@ == put_u16(old(buf)@, o as int, v),
{
    proof { lemma_auto_spec_u16_to_from_le_bytes(); }
    let b = u16_to_le_bytes(v);
    set_bytes(buf, o, b.as_slice());
}

pub fn set_u32(buf: &mut Vec<u8>, o: usize, v: u32)
    requires
        o + 4 <= old(buf)@.len(),
    ensures
        final(buf)@ == put_u32(old(buf)@, o as int, v),
{
    let b = u32_to_le_bytes(v);
    set_bytes(buf, o, b.as_slice());
}

pub fn set_u64(buf: &mut Vec<u8>, o: usize, v: u64)
    requires
        o + 8 <= old(buf)@.len(),
    ensures
        final(buf)@ == put_u64(old(buf)@, o as int, v),
{
    let b = u64_to_le_bytes(v);
    set_bytes(buf, o, b.as_slice());
}

pub fn set_u128(buf: &mut Vec<u8>, o: usize, v: u128)
    requires
        o + 16 <= old(buf)@.len(),
    ensures
        final(buf)@ == put_u128(old(buf)@, o as int, v),
{
    let b = u128_to_le_bytes(v);
    set_bytes(buf, o, b.as_slice());
}

} // verus!
