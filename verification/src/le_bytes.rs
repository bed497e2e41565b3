use vstd::prelude::*;

verus! {

/// The four little-endian bytes of `x`.
pub open spec fn le4(x: u32) -> Seq<u8> {
    seq![x as u8, (x >> 8u32) as u8, (x >> 16u32) as u8, (x >> 24u32) as u8]
}

/// The eight little-endian bytes of `x`.
pub open spec fn le8(x: u64) -> Seq<u8> {
    seq![
        x as u8,
        (x >> 8u64) as u8,
        (x >> 16u64) as u8,
        (x >> 24u64) as u8,
        (x >> 32u64) as u8,
        (x >> 40u64) as u8,
        (x >> 48u64) as u8,
        (x >> 56u64) as u8,
    ]
}

/// The little-endian `u32` at `code[i..i + 4]`.
pub open spec fn read_u32(code: Seq<u8>, i: int) -> u32 {
    (code[i] as u32) | ((code[i + 1] as u32) << 8u32) | ((code[i + 2] as u32) << 16u32) | ((
    code[i + 3] as u32) << 24u32)
}

/// The little-endian `u64` at `code[i..i + 8]`.
pub open spec fn read_u64(code: Seq<u8>, i: int) -> u64 {
    (code[i] as u64) | ((code[i + 1] as u64) << 8u64) | ((code[i + 2] as u64) << 16u64) | ((
    code[i + 3] as u64) << 24u64) | ((code[i + 4] as u64) << 32u64) | ((code[i + 5] as u64)
        << 40u64) | ((code[i + 6] as u64) << 48u64) | ((code[i + 7] as u64) << 56u64)
}

pub proof fn lemma_le8_read(x: u64)
    ensures
        read_u64(le8(x), 0) == x,
{
    let s = le8(x);
    assert(s[0] == x as u8 && s[1] == (x >> 8u64) as u8 && s[2] == (x >> 16u64) as u8 && s[3] == (x
        >> 24u64) as u8 && s[4] == (x >> 32u64) as u8 && s[5] == (x >> 40u64) as u8 && s[6] == (x
        >> 48u64) as u8 && s[7] == (x >> 56u64) as u8);
    assert(((x as u8) as u64) | ((((x >> 8u64) as u8) as u64) << 8u64) | ((((x >> 16u64) as u8)
        as u64) << 16u64) | ((((x >> 24u64) as u8) as u64) << 24u64) | ((((x >> 32u64) as u8)
        as u64) << 32u64) | ((((x >> 40u64) as u8) as u64) << 40u64) | ((((x >> 48u64) as u8)
        as u64) << 48u64) | ((((x >> 56u64) as u8) as u64) << 56u64) == x) by (bit_vector);
}

pub proof fn lemma_le4_read(x: u32)
    ensures
        read_u32(le4(x), 0) == x,
{
    let s = le4(x);
    assert(s[0] == x as u8 && s[1] == (x >> 8u32) as u8 && s[2] == (x >> 16u32) as u8 && s[3] == (x
        >> 24u32) as u8);
    assert(((x as u8) as u32) | ((((x >> 8u32) as u8) as u32) << 8u32) | ((((x >> 16u32) as u8)
        as u32) << 16u32) | ((((x >> 24u32) as u8) as u32) << 24u32) == x) by (bit_vector);
}

pub proof fn lemma_i64_u64(x: i64)
    ensures
        (x as u64) as i64 == x,
{
    assert((x as u64) as i64 == x) by (bit_vector);
}

pub proof fn lemma_i32_u32(x: i32)
    ensures
        (x as u32) as i32 == x,
{
    assert((x as u32) as i32 == x) by (bit_vector);
}

/// Reads the little-endian `u32` at `code[i..i + 4]`.
pub fn read_u32_at(code: &[u8], i: usize) -> (x: u32)
    requires
        i + 4 <= code@.len(),
    ensures
        x == read_u32(code@, i as int),
{
    (code[i] as u32) | ((code[i + 1] as u32) << 8u32) | ((code[i + 2] as u32) << 16u32) | ((code[i
        + 3] as u32) << 24u32)
}

/// Reads the little-endian `u64` at `code[i..i + 8]`.
pub fn read_u64_at(code: &[u8], i: usize) -> (x: u64)
    requires
        i + 8 <= code@.len(),
    ensures
        x == read_u64(code@, i as int),
{
    (code[i] as u64) | ((code[i + 1] as u64) << 8u64) | ((code[i + 2] as u64) << 16u64) | ((code[i
        + 3] as u64) << 24u64) | ((code[i + 4] as u64) << 32u64) | ((code[i + 5] as u64) << 40u64)
        | ((code[i + 6] as u64) << 48u64) | ((code[i + 7] as u64) << 56u64)
}

/// `b` with the bytes from index `i` on replaced by `s`.
pub open spec fn overwrite(b: Seq<u8>, i: int, s: Seq<u8>) -> Seq<u8> {
    Seq::new(b.len(), |j: int| if i <= j < i + s.len() { s[j - i] } else { b[j] })
}

/// Writes `w` little-endian into `b[i..i + 4]`.
pub fn write_u32_at(b: &mut Vec<u8>, i: usize, w: u32)
    requires
        i + 4 <= old(b).len(),
    ensures
        final(b)@ == overwrite(old(b)@, i as int, le4(w)),
{
    b.set(i, w as u8);
    b.set(i + 1, (w >> 8u32) as u8);
    b.set(i + 2, (w >> 16u32) as u8);
    b.set(i + 3, (w >> 24u32) as u8);
    assert(b@ =~= overwrite(old(b)@, i as int, le4(w)));
}

} // verus!
