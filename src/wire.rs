//! Big-endian integers on the wire.
use vstd::prelude::*;

verus! {

/// The 16-bit big-endian integer held by `b[i]` and `b[i + 1]`.
pub open spec fn be16(b: Seq<u8>, i: int) -> u16 {
    (b[i] as int * 256 + b[i + 1] as int) as u16
}

/// The 32-bit big-endian integer held by `b[i..i + 4]`.
pub open spec fn be32(b: Seq<u8>, i: int) -> u32 {
    (b[i] as int * 16777216 + b[i + 1] as int * 65536 + b[i + 2] as int * 256 + b[i + 3] as int) as u32
}

/// The two bytes of `x`, most significant first.
pub open spec fn u16_bytes(x: u16) -> Seq<u8> {
    seq![(x / 256) as u8, (x % 256) as u8]
}

/// Reads the big-endian `u16` at `i`.
pub fn read_u16(b: &[u8], i: usize) -> (r: u16)
    requires
        i + 2 <= b@.len(),
    ensures
        r == be16(b@, i as int),
{
    (b[i] as u16) * 256 + (b[i + 1] as u16)
}

/// Reads the big-endian `u32` at `i`.
pub fn read_u32(b: &[u8], i: usize) -> (r: u32)
    requires
        i + 4 <= b@.len(),
    ensures
        r == be32(b@, i as int),
{
    (b[i] as u32) * 16777216 + (b[i + 1] as u32) * 65536 + (b[i + 2] as u32) * 256 + (b[i + 3] as u32)
}

/// Appends the two bytes of `x`, most significant first.
pub fn push_u16(out: &mut Vec<u8>, x: u16)
    ensures
        final(out)@ == old(out)@ + u16_bytes(x),
{
    out.push((x / 256) as u8);
    out.push((x % 256) as u8);
    assert(final(out)@ =~= old(out)@ + u16_bytes(x));
}

/// Reading back the two bytes of `x` gives `x`.
pub proof fn lemma_u16_bytes(x: u16, pre: Seq<u8>, post: Seq<u8>)
    ensures
        be16(pre + u16_bytes(x) + post, pre.len() as int) == x,
{
    let b = pre + u16_bytes(x) + post;
    assert(b[pre.len() as int] == (x / 256) as u8);
    assert(b[pre.len() as int + 1] == (x % 256) as u8);
}

/// Appends `msg[a..b]` to `out`.
pub fn push_bytes(out: &mut Vec<u8>, msg: &[u8], a: usize, b: usize)
    requires
        a <= b <= msg@.len(),
    ensures
        final(out)@ == old(out)@ + msg@.subrange(a as int, b as int),
{
    let mut i = a;
    while i < b
        invariant
            a <= i <= b <= msg@.len(),
            out@ == old(out)@ + msg@.subrange(a as int, i as int),
        decreases b - i,
    {
        out.push(msg[i]);
        i = i + 1;
        assert(out@ =~= old(out)@ + msg@.subrange(a as int, i as int));
    }
}

} // verus!
