use vstd::prelude::*;

verus! {

/// Byte `i` (0 = least significant) of a 32-bit word.
pub open spec fn byte_of(x: u32, i: int) -> u8 {
    ((x >> ((8 * i) as u32)) & 0xff) as u8
}

/// The four little-endian bytes of a 32-bit word.
pub open spec fn le_bytes(x: u32) -> Seq<u8> {
    seq![byte_of(x, 0), byte_of(x, 1), byte_of(x, 2), byte_of(x, 3)]
}

/// The 32-bit word held little-endian in `b[off..off + 4]`.
pub open spec fn le_word(b: Seq<u8>, off: int) -> u32 {
    (b[off] as u32) | ((b[off + 1] as u32) << 8u32) | ((b[off + 2] as u32) << 16u32) | ((
    b[off + 3] as u32) << 24u32)
}

pub proof fn lemma_le_word_of_bytes(x: u32, b: Seq<u8>, off: int)
    requires
        0 <= off,
        off + 4 <= b.len(),
        b.subrange(off, off + 4) == le_bytes(x),
    ensures
        le_word(b, off) == x,
{
    assert(b[off] == le_bytes(x)[0]);
    assert(b[off + 1] == le_bytes(x)[1]);
    assert(b[off + 2] == le_bytes(x)[2]);
    assert(b[off + 3] == le_bytes(x)[3]);
    let b0 = b[off];
    let b1 = b[off + 1];
    let b2 = b[off + 2];
    let b3 = b[off + 3];
    assert(b0 == ((x >> 0u32) & 0xff) as u8);
    assert(b1 == ((x >> 8u32) & 0xff) as u8);
    assert(b2 == ((x >> 16u32) & 0xff) as u8);
    assert(b3 == ((x >> 24u32) & 0xff) as u8);
    assert((b0 as u32) | ((b1 as u32) << 8u32) | ((b2 as u32) << 16u32) | ((b3 as u32) << 24u32)
        == x) by (bit_vector)
        requires
            b0 == ((x >> 0u32) & 0xff) as u8,
            b1 == ((x >> 8u32) & 0xff) as u8,
            b2 == ((x >> 16u32) & 0xff) as u8,
            b3 == ((x >> 24u32) & 0xff) as u8,
    ;
}

/// Writes `x` little-endian into `buf[off..off + 4]`.
pub fn put_u32_le(buf: &mut [u8], off: usize, x: u32)
    requires
        off + 4 <= old(buf)@.len(),
    ensures
        final(buf)@ == old(buf)@.subrange(0, off as int) + le_bytes(x) + old(buf)@.subrange(
            off + 4,
            old(buf)@.len() as int,
        ),
{
    let ghost before = buf@;
    buf[off] = (x & 0xff) as u8;
    buf[off + 1] = ((x >> 8u32) & 0xff) as u8;
    buf[off + 2] = ((x >> 16u32) & 0xff) as u8;
    buf[off + 3] = ((x >> 24u32) & 0xff) as u8;
    assert((x & 0xff) as u8 == ((x >> 0u32) & 0xff) as u8) by (bit_vector);
    assert(buf@ =~= before.subrange(0, off as int) + le_bytes(x) + before.subrange(
        off + 4,
        before.len() as int,
    ));
}

/// Reads the little-endian word at `buf[off..off + 4]`.
pub fn get_u32_le(buf: &[u8], off: usize) -> (r: u32)
    requires
        off + 4 <= buf@.len(),
    ensures
        r == le_word(buf@, off as int),
{
    (buf[off] as u32) | ((buf[off + 1] as u32) << 8u32) | ((buf[off + 2] as u32) << 16u32) | ((
    buf[off + 3] as u32) << 24u32)
}

/// The little-endian encoding of a sequence of 32-bit words, densely packed.
pub open spec fn words_le(ws: Seq<u32>) -> Seq<u8> {
    Seq::new(4 * ws.len(), |k: int| byte_of(ws[k / 4], k % 4))
}

/// Reading back word `i` of a packed encoding yields that word.
pub proof fn lemma_word_at(ws: Seq<u32>, i: int)
    requires
        0 <= i < ws.len(),
    ensures
        le_word(words_le(ws), 4 * i) == ws[i],
{
    let b = words_le(ws);
    assert(b.subrange(4 * i, 4 * i + 4) =~= le_bytes(ws[i]));
    lemma_le_word_of_bytes(ws[i], b, 4 * i);
}

/// Writes `ws` little-endian at the front of `buf`, leaving the rest as it was.
pub fn put_words(buf: &mut [u8], ws: &[u32])
    requires
        4 * ws@.len() <= old(buf)@.len(),
    ensures
        final(buf)@ == words_le(ws@) + old(buf)@.subrange(4 * ws@.len() as int, old(buf)@.len() as int),
{
    let ghost before = buf@;
    let n = buf.len();
    let mut i: usize = 0;
    while i < ws.len()
        invariant
            n == before.len(),
            i <= ws@.len(),
            4 * ws@.len() <= before.len(),
            buf@.len() == before.len(),
            forall|k: int| 0 <= k < 4 * i ==> buf@[k] == byte_of(ws@[k / 4], k % 4),
            forall|k: int| 4 * i <= k < before.len() ==> buf@[k] == before[k],
        decreases ws@.len() - i,
    {
        put_u32_le(buf, 4 * i, ws[i]);
        i = i + 1;
    }
    assert(buf@ =~= words_le(ws@) + before.subrange(4 * ws@.len() as int, before.len() as int));
}

} // verus!
