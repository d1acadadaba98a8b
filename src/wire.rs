//! Little-endian integers and the length-prefixed message frame.
use vstd::bytes::{
    lemma_auto_spec_u32_to_from_le_bytes, spec_u32_from_le_bytes, spec_u32_to_le_bytes,
    u32_from_le_bytes, u32_to_le_bytes,
};
use vstd::prelude::*;
use vstd::slice::slice_subrange;

verus! {

/// Bytes of the length header that opens every frame.
pub const HEADER_LEN: usize = 4;

/// The four little-endian bytes of `x`.
pub open spec fn le_u32(x: u32) -> Seq<u8> {
    spec_u32_to_le_bytes(x)
}

/// The four little-endian bytes of the two's-complement form of `x`.
pub open spec fn le_i32(x: i32) -> Seq<u8> {
    spec_u32_to_le_bytes(x as u32)
}

/// The `u32` stored little-endian in `s[at..at + 4]`.
pub open spec fn read_u32(s: Seq<u8>, at: int) -> u32 {
    spec_u32_from_le_bytes(s.subrange(at, at + 4))
}

/// The `i32` stored little-endian in `s[at..at + 4]`.
pub open spec fn read_i32(s: Seq<u8>, at: int) -> i32 {
    read_u32(s, at) as i32
}

/// A whole frame around `body`: the total length (header included) in four
/// little-endian bytes, then `body`, whose first byte is the message tag.
pub open spec fn framed(body: Seq<u8>) -> Seq<u8> {
    le_u32((body.len() + HEADER_LEN) as u32) + body
}

/// Encoding a `u32` gives four bytes that read back as the same value.
pub proof fn lemma_le_u32(x: u32)
    ensures
        le_u32(x).len() == 4,
        spec_u32_from_le_bytes(le_u32(x)) == x,
{
    lemma_auto_spec_u32_to_from_le_bytes();
    assert(spec_u32_to_le_bytes(x).len() == 4);
}

/// Encoding an `i32` gives four bytes that read back as the same value.
pub proof fn lemma_le_i32(x: i32)
    ensures
        le_i32(x).len() == 4,
        spec_u32_from_le_bytes(le_i32(x)) as i32 == x,
{
    lemma_le_u32(x as u32);
    assert((x as u32) as i32 == x) by (bit_vector);
}

/// Reading at an offset sees only the four bytes placed there.
pub proof fn lemma_read_u32_at(prefix: Seq<u8>, word: Seq<u8>, suffix: Seq<u8>)
    requires
        word.len() == 4,
    ensures
        read_u32(prefix + word + suffix, prefix.len() as int) == spec_u32_from_le_bytes(word),
{
    assert((prefix + word + suffix).subrange(prefix.len() as int, prefix.len() + 4int) =~= word);
}

/// Appends the little-endian bytes of `x`.
pub fn push_u32(buf: &mut Vec<u8>, x: u32)
    ensures
        final(buf)@ == old(buf)@ + le_u32(x),
{
    let mut bytes = u32_to_le_bytes(x);
    buf.append(&mut bytes);
}

/// Appends the little-endian bytes of `x`.
pub fn push_i32(buf: &mut Vec<u8>, x: i32)
    ensures
        final(buf)@ == old(buf)@ + le_i32(x),
{
    push_u32(buf, x as u32);
}

/// Reads the `u32` stored little-endian at `at`.
pub fn get_u32(s: &[u8], at: usize) -> (r: u32)
    requires
        at + 4 <= s.len(),
    ensures
        r == read_u32(s@, at as int),
{
    let word = slice_subrange(s, at, at + 4);
    assert(word@ =~= s@.subrange(at as int, at + 4int));
    u32_from_le_bytes(word)
}

/// Reads the `i32` stored little-endian at `at`.
pub fn get_i32(s: &[u8], at: usize) -> (r: i32)
    requires
        at + 4 <= s.len(),
    ensures
        r == read_i32(s@, at as int),
{
    get_u32(s, at) as i32
}

/// Puts the length header in front of `body`.
pub fn frame(body: Vec<u8>) -> (r: Vec<u8>)
    requires
        body@.len() + HEADER_LEN <= u32::MAX,
    ensures
        r@ == framed(body@),
{
    let mut body = body;
    let mut r: Vec<u8> = Vec::new();
    push_u32(&mut r, (body.len() + HEADER_LEN) as u32);
    r.append(&mut body);
    r
}

} // verus!
