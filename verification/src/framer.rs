use vstd::prelude::*;

verus! {

/// The 4-byte big-endian encoding of a payload byte count, most-significant
/// byte first. Bits of the count beyond the lowest 32 are dropped.
pub open spec fn header_bytes(n: int) -> Seq<u8> {
    seq![
        ((n / 0x1000000) % 256) as u8,
        ((n / 0x10000) % 256) as u8,
        ((n / 0x100) % 256) as u8,
        (n % 256) as u8,
    ]
}

/// The payload byte count read back from a 4-byte big-endian header.
pub open spec fn header_value(h: Seq<u8>) -> int
    recommends
        h.len() == 4,
{
    h[0] * 0x1000000 + h[1] * 0x10000 + h[2] * 0x100 + h[3]
}

/// A 4-byte header always reads back as a count below 2^32.
pub proof fn lemma_header_value_bound(h: Seq<u8>)
    requires
        h.len() == 4,
    ensures
        0 <= header_value(h) < 0x100000000,
{
}

/// The framer is its own inverse: any payload byte count below 2^32 survives
/// the trip through its 4-byte big-endian header unchanged.
pub proof fn lemma_header_round_trip(n: int)
    requires
        0 <= n < 0x100000000,
    ensures
        header_value(header_bytes(n)) == n,
{
    let x = n as u64;
    assert(((x / 0x1000000) % 256) * 0x1000000 + ((x / 0x10000) % 256) * 0x10000 + ((x / 0x100)
        % 256) * 0x100 + (x % 256) == x) by (bit_vector)
        requires
            x < 0x100000000,
    ;
}

/// Produces the 4-byte big-endian length header for a payload byte count.
pub fn encode_length_header(length: usize) -> (r: Vec<u8>)
    ensures
        r@ == header_bytes(length as int),
{
    let b0: u8 = ((length / 0x1000000) % 256) as u8;
    let b1: u8 = ((length / 0x10000) % 256) as u8;
    let b2: u8 = ((length / 0x100) % 256) as u8;
    let b3: u8 = (length % 256) as u8;
    let mut r: Vec<u8> = Vec::new();
    r.push(b0);
    r.push(b1);
    r.push(b2);
    r.push(b3);
    proof {
        assert(r@ =~= header_bytes(length as int));
    }
    r
}

/// Reads a 4-byte big-endian header back into a payload byte count.
pub fn decode_length_header(header: Vec<u8>) -> (r: usize)
    requires
        header@.len() == 4,
    ensures
        r == header_value(header@),
{
    proof {
        lemma_header_value_bound(header@);
    }
    let mut length: usize = header[0] as usize;
    length = length * 256 + (header[1] as usize);
    length = length * 256 + (header[2] as usize);
    length = length * 256 + (header[3] as usize);
    length
}

} // verus!
