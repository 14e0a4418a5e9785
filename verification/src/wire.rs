//! Big-endian integers and byte copies, the alphabet of every packet format here.

use vstd::prelude::*;

verus! {

/// The value of two bytes in network order.
pub open spec fn be16(hi: u8, lo: u8) -> int {
    hi * 256 + lo
}

/// The two bytes of `n` in network order.
pub open spec fn be16_bytes(n: int) -> Seq<u8> {
    seq![(n / 256) as u8, (n % 256) as u8]
}

/// The value of four bytes in network order.
pub open spec fn be32(a: u8, b: u8, c: u8, d: u8) -> int {
    ((a * 256 + b) * 256 + c) * 256 + d
}

/// The four bytes of `n` in network order.
pub open spec fn be32_bytes(n: int) -> Seq<u8> {
    seq![
        (n / 0x100_0000) as u8,
        (n / 0x1_0000 % 256) as u8,
        (n / 256 % 256) as u8,
        (n % 256) as u8,
    ]
}

/// Reads two bytes in network order.
pub fn read_be16(hi: u8, lo: u8) -> (n: u16)
    ensures
        n == be16(hi, lo),
{
    (hi as u16) * 256 + lo as u16
}

/// Reads four bytes in network order.
pub fn read_be32(a: u8, b: u8, c: u8, d: u8) -> (n: u32)
    ensures
        n == be32(a, b, c, d),
{
    (((a as u32) * 256 + b as u32) * 256 + c as u32) * 256 + d as u32
}

/// Appends `n` in network order.
pub fn push_be16(out: &mut Vec<u8>, n: u16)
    ensures
        final(out)@ == old(out)@ + be16_bytes(n as int),
{
    out.push((n / 256) as u8);
    out.push((n % 256) as u8);
    assert(out@ =~= old(out)@ + be16_bytes(n as int));
}

/// Appends the bytes `from..to` of `src`.
pub fn push_range(out: &mut Vec<u8>, src: &[u8], from: usize, to: usize)
    requires
        from <= to <= src@.len(),
    ensures
        final(out)@ == old(out)@ + src@.subrange(from as int, to as int),
{
    let mut i: usize = from;
    while i < to
        invariant
            from <= i <= to <= src@.len(),
            out@ == old(out)@ + src@.subrange(from as int, i as int),
        decreases to - i,
    {
        out.push(src[i]);
        i += 1;
        assert(out@ =~= old(out)@ + src@.subrange(from as int, i as int));
    }
}

/// Copies a byte slice into a vector of its own.
pub fn copy_bytes(src: &[u8]) -> (out: Vec<u8>)
    ensures
        out@ == src@,
{
    let mut out: Vec<u8> = Vec::new();
    push_range(&mut out, src, 0, src.len());
    assert(out@ =~= src@);
    out
}

/// Whether two byte slices hold the same bytes.
pub fn same_bytes(a: &[u8], b: &[u8]) -> (same: bool)
    ensures
        same == (a@ == b@),
{
    if a.len() != b.len() {
        return false;
    }
    let mut i: usize = 0;
    while i < a.len()
        invariant
            i <= a@.len(),
            a@.len() == b@.len(),
            a@.subrange(0, i as int) == b@.subrange(0, i as int),
        decreases a@.len() - i,
    {
        if a[i] != b[i] {
            return false;
        }
        i += 1;
        assert(a@.subrange(0, i as int) =~= b@.subrange(0, i as int));
    }
    assert(a@.subrange(0, i as int) =~= a@);
    assert(b@.subrange(0, i as int) =~= b@);
    true
}

/// Reading back the network order of `n` gives `n`, for every 16-bit value.
pub proof fn be16_round_trip(n: int)
    requires
        0 <= n < 0x1_0000,
    ensures
        be16_bytes(n).len() == 2,
        be16(be16_bytes(n)[0], be16_bytes(n)[1]) == n,
{
}

/// Reading back the network order of `n` gives `n`, for every 32-bit value.
pub proof fn be32_round_trip(n: int)
    requires
        0 <= n < 0x1_0000_0000,
    ensures
        be32_bytes(n).len() == 4,
        be32(be32_bytes(n)[0], be32_bytes(n)[1], be32_bytes(n)[2], be32_bytes(n)[3]) == n,
{
}

/// Network order is the most significant byte first.
pub proof fn network_order(a: u8, b: u8, c: u8, d: u8, n: int)
    ensures
        be16(a, b) == a * 0x100 + b,
        be32(a, b, c, d) == a * 0x100_0000 + b * 0x1_0000 + c * 0x100 + d,
        0 <= n < 0x1_0000 ==> be16_bytes(n).len() == 2 && be16_bytes(n)[0] * 0x100
            + be16_bytes(n)[1] == n,
        0 <= n < 0x1_0000_0000 ==> be32_bytes(n).len() == 4 && be32_bytes(n)[0] * 0x100_0000
            + be32_bytes(n)[1] * 0x1_0000 + be32_bytes(n)[2] * 0x100 + be32_bytes(n)[3] == n,
{
}

} // verus!
