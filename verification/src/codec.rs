use vstd::prelude::*;

use crate::errors::StegoError;

verus! {

/// Bit `s` of a byte, least-significant bit first.
pub open spec fn bit_at(b: u8, s: u8) -> u8 {
    (b >> s) & 1
}

/// The bits of a byte sequence: eight per byte, least-significant first.
pub open spec fn bits_of_bytes(bs: Seq<u8>) -> Seq<u8> {
    Seq::new(bs.len() * 8, |k: int| bit_at(bs[k / 8], (k % 8) as u8))
}

/// A byte reassembled from its first `s` bits, least-significant first.
pub open spec fn assemble_bits(bits: Seq<u8>, s: int) -> u8
    decreases s,
{
    if s <= 0 {
        0
    } else {
        assemble_bits(bits, s - 1) | (bits[s - 1] << ((s - 1) as u8))
    }
}

/// A byte reassembled from eight bits, least-significant first.
pub open spec fn byte_from_bits(bits: Seq<u8>) -> u8 {
    assemble_bits(bits, 8)
}

/// The bytes reassembled from a bit sequence, eight bits per byte.
pub open spec fn bytes_from_bits(bits: Seq<u8>) -> Seq<u8> {
    Seq::new(bits.len() / 8, |k: int| byte_from_bits(bits.subrange(8 * k, 8 * k + 8)))
}

/// A byte with its lowest bit replaced and its other seven bits kept.
pub open spec fn with_low_bit(b: u8, bit: u8) -> u8 {
    (b & 0xFE) | bit
}

/// The container after its first `n` message bits have been written: bit `k`
/// goes to the lowest bit of the container byte at position `pos[k]`.
pub open spec fn embed_bits(c: Seq<u8>, pos: Seq<int>, bits: Seq<u8>, n: int) -> Seq<u8>
    decreases n,
{
    if n <= 0 {
        c
    } else {
        let prev = embed_bits(c, pos, bits, n - 1);
        prev.update(pos[n - 1], with_low_bit(prev[pos[n - 1]], bits[n - 1]))
    }
}

/// The lowest bit of each container byte at the listed positions, in order.
pub open spec fn extract_bits(c: Seq<u8>, pos: Seq<int>) -> Seq<u8> {
    Seq::new(pos.len(), |k: int| c[pos[k]] & 1)
}

/// Whether every position in `pos` indexes into a container of length `d`.
pub open spec fn positions_in_bounds(pos: Seq<int>, d: int) -> bool {
    forall|k: int| 0 <= k < pos.len() ==> 0 <= #[trigger] pos[k] < d
}

/// Whether the positions in `pos` are pairwise distinct.
pub open spec fn positions_distinct(pos: Seq<int>) -> bool {
    forall|a: int, b: int| 0 <= a < b < pos.len() ==> pos[a] != pos[b]
}

/// Every bit of a byte sequence is zero or one.
pub proof fn lemma_bits_are_boolean(bs: Seq<u8>)
    ensures
        forall|k: int| 0 <= k < bits_of_bytes(bs).len() ==> #[trigger] bits_of_bytes(bs)[k] < 2,
{
    assert forall|k: int| 0 <= k < bits_of_bytes(bs).len() implies #[trigger] bits_of_bytes(
        bs,
    )[k] < 2 by {
        let b = bs[k / 8];
        let s = (k % 8) as u8;
        assert((b >> s) & 1 < 2) by (bit_vector);
    }
}

/// Writing bits never changes the container's length.
pub proof fn lemma_embed_len(c: Seq<u8>, pos: Seq<int>, bits: Seq<u8>, n: int)
    requires
        positions_in_bounds(pos, c.len() as int),
        n <= pos.len(),
    ensures
        embed_bits(c, pos, bits, n).len() == c.len(),
    decreases n,
{
    if n > 0 {
        lemma_embed_len(c, pos, bits, n - 1);
    }
}

/// Writing bits touches only the listed positions, and everywhere touches
/// only the lowest bit: every other byte, and the upper seven bits of every
/// byte, read back unchanged.
pub proof fn lemma_embed_untouched(c: Seq<u8>, pos: Seq<int>, bits: Seq<u8>, n: int)
    requires
        positions_in_bounds(pos, c.len() as int),
        n <= pos.len(),
        forall|k: int| 0 <= k < n ==> #[trigger] bits[k] < 2,
    ensures
        forall|i: int|
            0 <= i < c.len() && !pos.take(n).contains(i) ==> embed_bits(c, pos, bits, n)[i] == c[i],
        forall|i: int|
            0 <= i < c.len() ==> #[trigger] embed_bits(c, pos, bits, n)[i] & 0xFE == c[i] & 0xFE,
    decreases n,
{
    if n > 0 {
        lemma_embed_untouched(c, pos, bits, n - 1);
        lemma_embed_len(c, pos, bits, n - 1);
        let prev = embed_bits(c, pos, bits, n - 1);
        let cur = embed_bits(c, pos, bits, n);
        assert forall|i: int| 0 <= i < c.len() && !pos.take(n).contains(i) implies cur[i]
            == c[i] by {
            assert(!pos.take(n - 1).contains(i));
            assert(pos.take(n)[n - 1] == pos[n - 1]);
            assert(i != pos[n - 1]);
        }
        assert forall|i: int| 0 <= i < c.len() implies #[trigger] cur[i] & 0xFE == c[i] & 0xFE by {
            if i == pos[n - 1] {
                let b = prev[i];
                let bit = bits[n - 1];
                assert(((b & 0xFE) | bit) & 0xFE == b & 0xFE) by (bit_vector)
                    requires
                        bit < 2,
                ;
                assert(cur[i] == with_low_bit(prev[i], bits[n - 1]));
            }
        }
    }
}

/// Reading the lowest bits back from the written positions recovers exactly
/// the bits that were written, as long as the positions are distinct.
pub proof fn lemma_extract_after_embed(c: Seq<u8>, pos: Seq<int>, bits: Seq<u8>, n: int)
    requires
        positions_in_bounds(pos, c.len() as int),
        positions_distinct(pos),
        n <= pos.len(),
        n <= bits.len(),
        forall|k: int| 0 <= k < n ==> #[trigger] bits[k] < 2,
    ensures
        forall|k: int| 0 <= k < n ==> #[trigger] (embed_bits(c, pos, bits, n)[pos[k]] & 1) == bits[k],
    decreases n,
{
    if n > 0 {
        lemma_extract_after_embed(c, pos, bits, n - 1);
        lemma_embed_len(c, pos, bits, n - 1);
        let prev = embed_bits(c, pos, bits, n - 1);
        let cur = embed_bits(c, pos, bits, n);
        assert forall|k: int| 0 <= k < n implies #[trigger] (cur[pos[k]] & 1) == bits[k] by {
            if k == n - 1 {
                let b = prev[pos[k]];
                let bit = bits[k];
                assert(cur[pos[k]] == with_low_bit(b, bit));
                assert(bit < 2 ==> ((b & 0xFE) | bit) & 1 == bit) by (bit_vector);
            } else {
                assert(pos[k] != pos[n - 1]);
                assert(cur[pos[k]] == prev[pos[k]]);
            }
        }
    }
}

/// Writing a prefix of the bits and then the rest, with the position cursor
/// carried across, lands every bit where one combined write would have.
pub proof fn lemma_embed_split(c: Seq<u8>, pos: Seq<int>, bits: Seq<u8>, n1: int, n2: int)
    requires
        positions_in_bounds(pos, c.len() as int),
        0 <= n1,
        0 <= n2,
        n1 + n2 <= pos.len(),
        n1 + n2 <= bits.len(),
    ensures
        embed_bits(c, pos, bits, n1 + n2) == embed_bits(
            embed_bits(c, pos, bits, n1),
            pos.skip(n1),
            bits.skip(n1),
            n2,
        ),
    decreases n2,
{
    lemma_embed_len(c, pos, bits, n1);
    if n2 == 0 {
    } else {
        lemma_embed_split(c, pos, bits, n1, n2 - 1);
        let c1 = embed_bits(c, pos, bits, n1);
        assert(positions_in_bounds(pos.skip(n1), c1.len() as int)) by {
            assert(forall|k: int|
                0 <= k < pos.skip(n1).len() ==> #[trigger] pos.skip(n1)[k] == pos[k + n1]);
        }
        assert(pos.skip(n1)[n2 - 1] == pos[n1 + n2 - 1]);
        assert(bits.skip(n1)[n2 - 1] == bits[n1 + n2 - 1]);
    }
}

/// Writing `n` bits only reads the first `n` entries of the bit and position
/// sequences, so any extension of either leaves the result unchanged.
pub proof fn lemma_embed_depends_on_prefix(
    c: Seq<u8>,
    pos1: Seq<int>,
    bits1: Seq<u8>,
    pos2: Seq<int>,
    bits2: Seq<u8>,
    n: int,
)
    requires
        n <= pos1.len(),
        n <= pos2.len(),
        n <= bits1.len(),
        n <= bits2.len(),
        pos1.take(n) == pos2.take(n),
        bits1.take(n) == bits2.take(n),
    ensures
        embed_bits(c, pos1, bits1, n) == embed_bits(c, pos2, bits2, n),
    decreases n,
{
    if n > 0 {
        assert(pos1.take(n - 1) =~= pos2.take(n - 1));
        assert(bits1.take(n - 1) =~= bits2.take(n - 1));
        lemma_embed_depends_on_prefix(c, pos1, bits1, pos2, bits2, n - 1);
        assert(pos1.take(n)[n - 1] == pos1[n - 1]);
        assert(pos2.take(n)[n - 1] == pos2[n - 1]);
        assert(bits1.take(n)[n - 1] == bits1[n - 1]);
        assert(bits2.take(n)[n - 1] == bits2[n - 1]);
    }
}

/// The bits of a concatenation are the concatenated bits.
pub proof fn lemma_bits_of_bytes_concat(xs: Seq<u8>, ys: Seq<u8>)
    ensures
        bits_of_bytes(xs + ys) == bits_of_bytes(xs) + bits_of_bytes(ys),
{
    let both = bits_of_bytes(xs + ys);
    let cat = bits_of_bytes(xs) + bits_of_bytes(ys);
    assert(both.len() == cat.len());
    assert forall|k: int| 0 <= k < both.len() implies both[k] == cat[k] by {
        if k < xs.len() * 8 {
            assert(0 <= k / 8 < xs.len() && k / 8 * 8 <= k < k / 8 * 8 + 8) by (nonlinear_arith)
                requires
                    0 <= k < xs.len() * 8,
            ;
            assert((xs + ys)[k / 8] == xs[k / 8]);
        } else {
            let m = k - xs.len() * 8;
            assert(k / 8 == xs.len() + m / 8 && k % 8 == m % 8) by (nonlinear_arith)
                requires
                    0 <= xs.len() * 8 <= k,
                    m == k - xs.len() * 8,
            ;
            assert((xs + ys)[k / 8] == ys[m / 8]);
        }
    }
    assert(both =~= cat);
}

/// Reassembling the bits of one byte gives that byte back.
proof fn lemma_byte_round_trip(b: u8)
    ensures
        forall|bits: Seq<u8>|
            bits.len() >= 8 && (forall|s: int| 0 <= s < 8 ==> bits[s] == bit_at(b, s as u8))
                ==> #[trigger] byte_from_bits(bits) == b,
{
    assert forall|bits: Seq<u8>|
        bits.len() >= 8 && (forall|s: int| 0 <= s < 8 ==> bits[s] == bit_at(b, s as u8))
            implies #[trigger] byte_from_bits(bits) == b by {
        let r = byte_from_bits(bits);
        reveal_with_fuel(assemble_bits, 9);
        assert(r == ((((((((0u8 | (bits[0] << 0u8)) | (bits[1] << 1u8)) | (bits[2] << 2u8)) | (
        bits[3] << 3u8)) | (bits[4] << 4u8)) | (bits[5] << 5u8)) | (bits[6] << 6u8)) | (bits[7]
            << 7u8)));
        assert(((((((((0u8 | (((b >> 0u8) & 1) << 0u8)) | (((b >> 1u8) & 1) << 1u8)) | (((b >> 2u8)
            & 1) << 2u8)) | (((b >> 3u8) & 1) << 3u8)) | (((b >> 4u8) & 1) << 4u8)) | (((b >> 5u8)
            & 1) << 5u8)) | (((b >> 6u8) & 1) << 6u8)) | (((b >> 7u8) & 1) << 7u8)) == b)
            by (bit_vector);
    }
}

/// Reassembling the bits of a byte sequence gives the sequence back.
pub proof fn lemma_bytes_round_trip(bs: Seq<u8>)
    ensures
        bytes_from_bits(bits_of_bytes(bs)) == bs,
{
    let bits = bits_of_bytes(bs);
    assert(bytes_from_bits(bits).len() == bs.len()) by {
        assert(bs.len() * 8 / 8 == bs.len()) by (nonlinear_arith);
    }
    assert forall|k: int| 0 <= k < bs.len() implies bytes_from_bits(bits)[k] == bs[k] by {
        let piece = bits.subrange(8 * k, 8 * k + 8);
        assert forall|s: int| 0 <= s < 8 implies piece[s] == bit_at(bs[k], s as u8) by {
            assert((8 * k + s) / 8 == k && (8 * k + s) % 8 == s) by (nonlinear_arith)
                requires
                    0 <= s < 8,
                    0 <= k,
            ;
            assert(8 * k + s < bs.len() * 8) by (nonlinear_arith)
                requires
                    0 <= s < 8,
                    0 <= k < bs.len(),
            ;
        }
        lemma_byte_round_trip(bs[k]);
    }
    assert(bytes_from_bits(bits) =~= bs);
}

/// Writes each payload byte, least-significant bit first, into the lowest
/// bit of the container byte at the next position, advancing the cursor.
/// When the positions run out mid-write it stops there with
/// `SequenceExhausted`, the bits so far already written.
#[verifier::loop_isolation(false)]
pub fn encode_bytes(
    payload: &Vec<u8>,
    positions: &Vec<usize>,
    cursor: &mut usize,
    container: &mut Vec<u8>,
) -> (r: Result<(), StegoError>)
    requires
        *old(cursor) <= positions@.len(),
        forall|k: int|
            *old(cursor) <= k < positions@.len() ==> #[trigger] positions@[k] < old(
                container,
            )@.len(),
    ensures
        final(container)@.len() == old(container)@.len(),
        ({
            let avail = positions@.len() - *old(cursor);
            let need = 8 * payload@.len();
            let tail = positions@.map_values(|p: usize| p as int).skip(*old(cursor) as int);
            let message = bits_of_bytes(payload@);
            if need <= avail {
                r is Ok && *final(cursor) == *old(cursor) + need && final(container)@ == embed_bits(
                    old(container)@,
                    tail,
                    message,
                    need as int,
                )
            } else {
                r == Err::<(), StegoError>(StegoError::SequenceExhausted) && *final(cursor)
                    == positions@.len() && final(container)@ == embed_bits(
                    old(container)@,
                    tail,
                    message,
                    avail as int,
                )
            }
        }),
{
    let ghost c0 = old(container)@;
    let ghost cursor0 = *old(cursor) as int;
    let ghost tail = positions@.map_values(|p: usize| p as int).skip(cursor0);
    let ghost message = bits_of_bytes(payload@);
    proof {
        assert(tail.len() == positions@.len() - cursor0);
        assert forall|k: int| 0 <= k < tail.len() implies 0 <= #[trigger] tail[k] < c0.len() by {
            assert(tail[k] == positions@.map_values(|p: usize| p as int)[k + cursor0]);
            assert(tail[k] == positions@[k + cursor0] as int);
        }
        assert(positions_in_bounds(tail, c0.len() as int));
    }
    let mut byte_idx: usize = 0;
    while byte_idx < payload.len()
        invariant
            0 <= byte_idx <= payload@.len(),
            c0.len() == container@.len(),
            cursor0 <= positions@.len(),
            *cursor == cursor0 + 8 * byte_idx,
            *cursor <= positions@.len(),
            tail == positions@.map_values(|p: usize| p as int).skip(cursor0),
            message == bits_of_bytes(payload@),
            forall|k: int|
                cursor0 <= k < positions@.len() ==> #[trigger] positions@[k] < c0.len(),
            container@ == embed_bits(c0, tail, message, 8 * byte_idx),
        decreases payload@.len() - byte_idx,
    {
        let byte = payload[byte_idx];
        let mut s: usize = 0;
        while s < 8
            invariant
                0 <= s <= 8,
                0 <= byte_idx < payload@.len(),
                byte == payload@[byte_idx as int],
                c0.len() == container@.len(),
                cursor0 <= positions@.len(),
                *cursor == cursor0 + 8 * byte_idx + s,
                *cursor <= positions@.len(),
                tail == positions@.map_values(|p: usize| p as int).skip(cursor0),
                message == bits_of_bytes(payload@),
                forall|k: int|
                    cursor0 <= k < positions@.len() ==> #[trigger] positions@[k] < c0.len(),
                container@ == embed_bits(c0, tail, message, 8 * byte_idx + s),
            decreases 8 - s,
        {
            let ghost n = 8 * byte_idx + s;
            if *cursor == positions.len() {
                proof {
                    assert(8 * payload@.len() > positions@.len() - cursor0) by (nonlinear_arith)
                        requires
                            positions@.len() - cursor0 == 8 * byte_idx + s,
                            byte_idx < payload@.len(),
                            s < 8,
                            0 <= byte_idx,
                            0 <= s,
                    ;
                }
                return Err(StegoError::SequenceExhausted);
            }
            let bit = byte >> (s as u32) & 1;
            proof {
                assert(byte >> (s as u32) & 1 == bit_at(byte, s as u8)) by (bit_vector)
                    requires
                        s < 8,
                        bit == byte >> (s as u32) & 1,
                ;
                assert(n / 8 == byte_idx && n % 8 == s) by (nonlinear_arith)
                    requires
                        n == 8 * byte_idx + s,
                        0 <= s < 8,
                        0 <= byte_idx,
                ;
                assert(n < message.len()) by (nonlinear_arith)
                    requires
                        n == 8 * byte_idx + s,
                        0 <= s < 8,
                        0 <= byte_idx < payload@.len(),
                        message.len() == payload@.len() * 8,
                ;
                assert(message[n] == bit_at(byte, s as u8));
                lemma_embed_len(c0, tail, message, n);
            }
            let pos_idx = positions[*cursor];
            let old_byte = container[pos_idx];
            container.set(pos_idx, old_byte & 0b11111110 | bit);
            *cursor = *cursor + 1;
            proof {
                assert(tail[n] == positions@.map_values(|p: usize| p as int)[n + cursor0]);
                assert(tail[n] == pos_idx as int);
                assert(container@ =~= embed_bits(c0, tail, message, n).update(
                    tail[n],
                    with_low_bit(embed_bits(c0, tail, message, n)[tail[n]], message[n]),
                ));
                assert(container@ == embed_bits(c0, tail, message, n + 1));
            }
            s = s + 1;
        }
        byte_idx = byte_idx + 1;
    }
    proof {
        assert(8 * payload@.len() <= positions@.len() - cursor0);
    }
    Ok(())
}

/// Reads `length` bytes back: for each output byte, reads the lowest bit of
/// the container byte at the next position into bit offsets 0 through 7,
/// advancing the cursor. When the positions run out mid-read it stops with
/// `SequenceExhausted`.
#[verifier::loop_isolation(false)]
pub fn decode_bytes(
    length: usize,
    positions: &Vec<usize>,
    cursor: &mut usize,
    container: &Vec<u8>,
) -> (r: Result<Vec<u8>, StegoError>)
    requires
        *old(cursor) <= positions@.len(),
        forall|k: int|
            *old(cursor) <= k < positions@.len() ==> #[trigger] positions@[k] < container@.len(),
        8 * length <= usize::MAX,
    ensures
        ({
            let avail = positions@.len() - *old(cursor);
            let tail = positions@.map_values(|p: usize| p as int).skip(*old(cursor) as int);
            if 8 * length <= avail {
                r is Ok && *final(cursor) == *old(cursor) + 8 * length && (r matches Ok(v) && v@
                    == bytes_from_bits(extract_bits(container@, tail.take(8 * length))))
            } else {
                r == Err::<Vec<u8>, StegoError>(StegoError::SequenceExhausted) && *final(cursor)
                    == positions@.len()
            }
        }),
{
    let ghost cursor0 = *old(cursor) as int;
    let ghost tail = positions@.map_values(|p: usize| p as int).skip(cursor0);
    let ghost model = bytes_from_bits(extract_bits(container@, tail.take(8 * length)));
    proof {
        assert(tail.len() == positions@.len() - cursor0);
        assert forall|k: int| 0 <= k < tail.len() implies 0 <= #[trigger] tail[k]
            < container@.len() by {
            assert(tail[k] == positions@.map_values(|p: usize| p as int)[k + cursor0]);
            assert(tail[k] == positions@[k + cursor0] as int);
        }
        assert(positions_in_bounds(tail, container@.len() as int));
    }
    let mut bytes: Vec<u8> = Vec::new();
    let mut produced: usize = 0;
    while produced < length
        invariant
            0 <= produced <= length,
            8 * length <= usize::MAX,
            cursor0 <= positions@.len(),
            *cursor == cursor0 + 8 * produced,
            *cursor <= positions@.len(),
            tail == positions@.map_values(|p: usize| p as int).skip(cursor0),
            model == bytes_from_bits(extract_bits(container@, tail.take(8 * length))),
            forall|k: int|
                cursor0 <= k < positions@.len() ==> #[trigger] positions@[k] < container@.len(),
            bytes@.len() == produced,
            forall|m: int|
                0 <= m < produced ==> 8 * m + 8 <= tail.len() && #[trigger] bytes@[m]
                    == byte_from_bits(
                    extract_bits(container@, tail).subrange(8 * m, 8 * m + 8),
                ),
        decreases length - produced,
    {
        let mut byte: u8 = 0;
        let mut s: usize = 0;
        while s < 8
            invariant
                0 <= s <= 8,
                0 <= produced < length,
                8 * length <= usize::MAX,
                cursor0 <= positions@.len(),
                *cursor == cursor0 + 8 * produced + s,
                *cursor <= positions@.len(),
                tail == positions@.map_values(|p: usize| p as int).skip(cursor0),
                forall|k: int|
                    cursor0 <= k < positions@.len() ==> #[trigger] positions@[k]
                        < container@.len(),
                8 * produced + s <= tail.len(),
                byte == assemble_bits(
                    extract_bits(container@, tail).skip(8 * produced),
                    s as int,
                ),
            decreases 8 - s,
        {
            if *cursor == positions.len() {
                proof {
                    assert(8 * length > positions@.len() - cursor0) by (nonlinear_arith)
                        requires
                            positions@.len() - cursor0 == 8 * produced + s,
                            produced < length,
                            s < 8,
                            0 <= produced,
                            0 <= s,
                    ;
                }
                return Err(StegoError::SequenceExhausted);
            }
            let ghost piece = extract_bits(container@, tail).skip(8 * produced);
            let pos_idx = positions[*cursor];
            let low = container[pos_idx] & 1;
            proof {
                assert(tail[8 * produced + s] == positions@.map_values(|p: usize| p as int)[8
                    * produced + s + cursor0]);
                assert(tail[8 * produced + s] == pos_idx as int);
                assert(piece[s as int] == container@[pos_idx as int] & 1);
                let prev = assemble_bits(piece, s as int);
                let b = container@[pos_idx as int];
                assert(prev | ((b & 1) << (s as u8)) == assemble_bits(piece, s as int + 1))
                    by {
                    assert(piece[s as int] == b & 1);
                }
                assert(prev | ((b & 1) << (s as u32)) == prev | ((b & 1) << (s as u8)))
                    by (bit_vector)
                    requires
                        s < 8,
                ;
            }
            byte = byte | (low << (s as u32));
            *cursor = *cursor + 1;
            s = s + 1;
        }
        bytes.push(byte);
        proof {
            let m = produced as int;
            assert(extract_bits(container@, tail).skip(8 * m).take(8) =~= extract_bits(
                container@,
                tail,
            ).subrange(8 * m, 8 * m + 8));
            lemma_assemble_depends_on_prefix(
                extract_bits(container@, tail).skip(8 * m),
                extract_bits(container@, tail).subrange(8 * m, 8 * m + 8),
                8,
            );
        }
        produced = produced + 1;
    }
    proof {
        assert(model.len() == length) by {
            assert(tail.take(8 * length).len() == 8 * length);
            assert(8 * length / 8 == length) by (nonlinear_arith);
        }
        assert forall|m: int| 0 <= m < length implies bytes@[m] == model[m] by {
            assert(extract_bits(container@, tail.take(8 * length)).subrange(8 * m, 8 * m + 8)
                =~= extract_bits(container@, tail).subrange(8 * m, 8 * m + 8)) by {
                assert(forall|k: int|
                    0 <= k < 8 * length ==> #[trigger] tail.take(8 * length)[k] == tail[k]);
                assert(8 * m + 8 <= 8 * length) by (nonlinear_arith)
                    requires
                        0 <= m < length,
                ;
            }
        }
        assert(bytes@ =~= model);
    }
    Ok(bytes)
}

/// Reassembling a byte reads only the first eight bits handed to it.
proof fn lemma_assemble_depends_on_prefix(bits1: Seq<u8>, bits2: Seq<u8>, s: int)
    requires
        s <= bits1.len(),
        s <= bits2.len(),
        forall|m: int| 0 <= m < s ==> bits1[m] == bits2[m],
    ensures
        assemble_bits(bits1, s) == assemble_bits(bits2, s),
    decreases s,
{
    if s > 0 {
        lemma_assemble_depends_on_prefix(bits1, bits2, s - 1);
    }
}

} // verus!
