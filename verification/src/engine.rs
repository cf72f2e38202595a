use vstd::prelude::*;

use crate::codec::{
    bits_of_bytes, bytes_from_bits, decode_bytes, embed_bits, encode_bytes, extract_bits,
    lemma_bits_are_boolean, lemma_bits_of_bytes_concat, lemma_bytes_round_trip, lemma_embed_depends_on_prefix,
    lemma_embed_len, lemma_embed_split, lemma_embed_untouched, lemma_extract_after_embed,
    positions_in_bounds,
};
use crate::errors::StegoError;
use crate::framer::{
    decode_length_header, encode_length_header, header_bytes, header_value,
    lemma_header_round_trip, lemma_header_value_bound,
};
use crate::kdf::{hash_password, scrypt_key};
use crate::sampler::{
    create_sequence, lemma_sample_prefix_consistent, lemma_sample_unique_and_bounded, sample_spec,
};
use crate::scrub::{scrub_key, scrub_positions};

verus! {

/// The number of bit slots an embedded message occupies: 32 header bits
/// plus eight per payload byte.
pub open spec fn required_bits_spec(payload_len: int) -> int {
    32 + 8 * payload_len
}

/// The container bytes after a payload has been embedded under a
/// passphrase: the header and payload bits, least-significant first, land
/// in the lowest bits of the container bytes the sampled positions name.
pub open spec fn encode_spec(payload: Seq<u8>, pass: Seq<char>, c: Seq<u8>) -> Seq<u8> {
    let positions = sample_spec(
        scrypt_key(pass),
        c.len() as int,
        required_bits_spec(payload.len() as int),
    );
    let message = bits_of_bytes(header_bytes(payload.len() as int) + payload);
    embed_bits(c, positions, message, required_bits_spec(payload.len() as int))
}

/// The payload byte count read back from a container's 32 header slots.
pub open spec fn decoded_len_spec(pass: Seq<char>, c: Seq<u8>) -> int {
    header_value(
        bytes_from_bits(extract_bits(c, sample_spec(scrypt_key(pass), c.len() as int, 32))),
    )
}

/// The payload bytes read back from a container's body slots, as named by
/// the count its header slots hold.
pub open spec fn decode_spec(pass: Seq<char>, c: Seq<u8>) -> Seq<u8> {
    let n = decoded_len_spec(pass, c);
    let positions = sample_spec(scrypt_key(pass), c.len() as int, 32 + 8 * n);
    bytes_from_bits(extract_bits(c, positions.skip(32)))
}

/// Accepts a passphrase entry and its confirmation: fails with
/// `PassphraseMismatch` exactly when the two differ.
pub fn confirm_passphrase(entry: &String, confirmation: &String) -> (r: Result<(), StegoError>)
    ensures
        r is Ok <==> entry@ == confirmation@,
        entry@ != confirmation@ ==> r == Err::<(), StegoError>(StegoError::PassphraseMismatch),
{
    if entry.eq(confirmation) {
        Ok(())
    } else {
        Err(StegoError::PassphraseMismatch)
    }
}

/// Embeds `payload` into `container` under `password`: a 4-byte big-endian
/// length header followed by the payload's bits is scattered into the
/// lowest bits of the container bytes that the passphrase-derived shuffle
/// selects; every other bit is preserved. Fails with `Capacity`, leaving
/// the container untouched, exactly when the message needs more bit slots
/// than the container has bytes.
pub fn encode(payload: &Vec<u8>, password: &String, container: &mut Vec<u8>) -> (r: Result<
    (),
    StegoError,
>)
    requires
        old(container)@.len() <= u32::MAX as int,
    ensures
        final(container)@.len() == old(container)@.len(),
        required_bits_spec(payload@.len() as int) <= old(container)@.len() ==> r is Ok
            && final(container)@ == encode_spec(payload@, password@, old(container)@),
        required_bits_spec(payload@.len() as int) > old(container)@.len() ==> r == Err::<
            (),
            StegoError,
        >(
            (StegoError::Capacity {
                required_bits: (32 + 8 * payload@.len()) as u128,
                available_bits: old(container)@.len() as u128,
            }),
        ) && final(container)@ == old(container)@,
{
    let head_bits: usize = 32;
    let body_bytes: usize = payload.len();
    let container_size: usize = container.len();
    if container_size < head_bits || (container_size - head_bits) / 8 < body_bytes {
        proof {
            if container_size >= head_bits {
                vstd::arithmetic::div_mod::lemma_fundamental_div_mod(
                    container_size as int - 32,
                    8,
                );
            }
        }
        return Err(
            StegoError::Capacity {
                required_bits: 32 + 8 * (body_bytes as u128),
                available_bits: container_size as u128,
            },
        );
    }
    proof {
        vstd::arithmetic::div_mod::lemma_fundamental_div_mod(container_size as int - 32, 8);
    }
    let payload_bits: usize = head_bits + body_bytes * 8;
    let ghost c0 = container@;
    let mut hash = hash_password(password);
    let mut sequence = create_sequence(hash, payload_bits, container_size);
    scrub_key(&mut hash);
    let ghost pos_model = sequence@.map_values(|p: usize| p as int);
    let ghost header_model = header_bytes(payload@.len() as int);
    let ghost message = bits_of_bytes(header_model + payload@);
    let length_header = encode_length_header(body_bytes);
    let mut cursor: usize = 0;
    let r1 = encode_bytes(&length_header, &sequence, &mut cursor, container);
    match r1 {
        Ok(_) => {},
        Err(e) => {
            proof {
                assert(false);
            }
            return Err(e);
        },
    }
    let r2 = encode_bytes(payload, &sequence, &mut cursor, container);
    match r2 {
        Ok(_) => {},
        Err(e) => {
            proof {
                assert(false);
            }
            return Err(e);
        },
    }
    proof {
        lemma_bits_of_bytes_concat(header_model, payload@);
        assert(positions_in_bounds(pos_model, c0.len() as int)) by {
            assert(forall|k: int|
                0 <= k < pos_model.len() ==> #[trigger] pos_model[k] == sequence@[k] as int);
        }
        assert(pos_model.skip(0) =~= pos_model);
        assert(message.take(32) =~= bits_of_bytes(header_model));
        assert(message.skip(32) =~= bits_of_bytes(payload@));
        assert(bits_of_bytes(header_model).len() == 32);
        assert(bits_of_bytes(header_model).take(32) =~= bits_of_bytes(header_model));
        assert(pos_model.len() == 32 + 8 * payload@.len());
        assert(message.len() == 32 + 8 * payload@.len());
        lemma_embed_depends_on_prefix(
            c0,
            pos_model,
            message,
            pos_model,
            bits_of_bytes(header_model),
            32,
        );
        lemma_embed_split(c0, pos_model, message, 32, 8 * payload@.len() as int);
        assert(container@ == embed_bits(c0, pos_model, message, required_bits_spec(payload@.len() as int)));
        assert(container@ == encode_spec(payload@, password@, c0));
    }
    scrub_positions(&mut sequence);
    Ok(())
}

/// Recovers the embedded payload from `container` under `password`: reads
/// the 32 header slots the passphrase-derived shuffle selects, takes the
/// byte count they hold, and reads that many payload bytes from the
/// following slots of the same shuffle. The container is only read, never
/// written. Fails with `Capacity` exactly when the container is shorter
/// than the header, or the count read back asks for more bit slots than
/// the container has bytes; a wrong passphrase otherwise yields a
/// differently-permuted, uninterpreted byte sequence, not an error.
pub fn decode(password: &String, container: &mut Vec<u8>) -> (r: Result<Vec<u8>, StegoError>)
    requires
        old(container)@.len() <= u32::MAX as int,
    ensures
        final(container)@ == old(container)@,
        old(container)@.len() < 32 ==> r == Err::<Vec<u8>, StegoError>(
            (StegoError::Capacity {
                required_bits: 32 as u128,
                available_bits: old(container)@.len() as u128,
            }),
        ),
        old(container)@.len() >= 32 && 32 + 8 * decoded_len_spec(password@, old(container)@)
            > old(container)@.len() ==> r == Err::<Vec<u8>, StegoError>(
            (StegoError::Capacity {
                required_bits: (32 + 8 * decoded_len_spec(password@, old(container)@)) as u128,
                available_bits: old(container)@.len() as u128,
            }),
        ),
        old(container)@.len() >= 32 && 32 + 8 * decoded_len_spec(password@, old(container)@)
            <= old(container)@.len() ==> r is Ok && (r matches Ok(v) && v@ == decode_spec(
            password@,
            old(container)@,
        )),
{
    let head_bytes: usize = 4;
    let head_bits: usize = 32;
    let container_size: usize = container.len();
    if container_size < head_bits {
        return Err(
            StegoError::Capacity {
                required_bits: 32,
                available_bits: container_size as u128,
            },
        );
    }
    let mut hash = hash_password(password);
    let hash_copy = hash;
    let len_sequence = create_sequence(hash_copy, head_bits, container_size);
    let ghost len_pos_model = len_sequence@.map_values(|p: usize| p as int);
    let mut len_cursor: usize = 0;
    let r1 = decode_bytes(head_bytes, &len_sequence, &mut len_cursor, &*container);
    let length_header = match r1 {
        Ok(v) => v,
        Err(e) => {
            proof {
                assert(false);
            }
            return Err(e);
        },
    };
    proof {
        assert(len_pos_model.skip(0).take(32) =~= len_pos_model);
        assert(length_header@ == bytes_from_bits(extract_bits(container@, len_pos_model)));
        assert(length_header@.len() == 4);
        assert(header_value(length_header@) == decoded_len_spec(password@, container@));
        lemma_header_value_bound(length_header@);
    }
    let body_bytes = decode_length_header(length_header);
    if (container_size - head_bits) / 8 < body_bytes {
        proof {
            vstd::arithmetic::div_mod::lemma_fundamental_div_mod(
                container_size as int - 32,
                8,
            );
        }
        scrub_key(&mut hash);
        return Err(
            StegoError::Capacity {
                required_bits: 32 + 8 * (body_bytes as u128),
                available_bits: container_size as u128,
            },
        );
    }
    proof {
        vstd::arithmetic::div_mod::lemma_fundamental_div_mod(container_size as int - 32, 8);
    }
    let body_bits: usize = body_bytes * 8;
    let sequence = create_sequence(hash, head_bits + body_bits, container_size);
    let ghost pos_model = sequence@.map_values(|p: usize| p as int);
    let mut cursor: usize = head_bits;
    let r2 = decode_bytes(body_bytes, &sequence, &mut cursor, &*container);
    let payload = match r2 {
        Ok(v) => v,
        Err(e) => {
            proof {
                assert(false);
            }
            return Err(e);
        },
    };
    scrub_key(&mut hash);
    proof {
        assert(pos_model.skip(32).take(8 * body_bytes as int) =~= pos_model.skip(32));
        assert(payload@ == decode_spec(password@, container@));
    }
    Ok(payload)
}

/// Round trip: a payload that fits a container together with its 32-bit
/// length header is recovered exactly by decoding with the same
/// passphrase. Payload byte counts of 2^32 or more do not fit the header
/// and are the one family of inputs left out.
pub proof fn lemma_round_trip(payload: Seq<u8>, pass: Seq<char>, c: Seq<u8>)
    requires
        32 + 8 * payload.len() <= c.len(),
        payload.len() < 0x100000000,
    ensures
        decoded_len_spec(pass, encode_spec(payload, pass, c)) == payload.len(),
        decode_spec(pass, encode_spec(payload, pass, c)) == payload,
{
    let key = scrypt_key(pass);
    let d = c.len() as int;
    let nreq = required_bits_spec(payload.len() as int);
    let pos = sample_spec(key, d, nreq);
    let header_model = header_bytes(payload.len() as int);
    let message = bits_of_bytes(header_model + payload);
    let c_enc = encode_spec(payload, pass, c);
    lemma_sample_unique_and_bounded(key, d, nreq);
    lemma_bits_of_bytes_concat(header_model, payload);
    lemma_bits_are_boolean(header_model + payload);
    lemma_embed_len(c, pos, message, nreq);
    assert(c_enc.len() == d);
    lemma_extract_after_embed(c, pos, message, nreq);
    // Header recovery.
    lemma_sample_prefix_consistent(key, d, 32, nreq);
    let hpos = sample_spec(key, d, 32);
    assert(hpos == pos.take(32));
    assert(extract_bits(c_enc, hpos) =~= message.take(32)) by {
        assert(forall|k: int| 0 <= k < 32 ==> #[trigger] hpos[k] == pos[k]);
        assert(forall|k: int|
            0 <= k < 32 ==> #[trigger] (c_enc[pos[k]] & 1) == message[k]);
    }
    assert(message.take(32) =~= bits_of_bytes(header_model));
    lemma_bytes_round_trip(header_model);
    lemma_header_round_trip(payload.len() as int);
    assert(decoded_len_spec(pass, c_enc) == payload.len());
    // Body recovery.
    assert(extract_bits(c_enc, pos.skip(32)) =~= message.skip(32)) by {
        assert(forall|k: int|
            0 <= k < pos.skip(32).len() ==> #[trigger] pos.skip(32)[k] == pos[k + 32]);
        assert(forall|k: int|
            0 <= k < nreq ==> #[trigger] (c_enc[pos[k]] & 1) == message[k]);
    }
    assert(message.skip(32) =~= bits_of_bytes(payload));
    lemma_bytes_round_trip(payload);
    assert(decode_spec(pass, c_enc) == payload);
}

/// Embedding touches only the lowest bit of the container bytes it
/// selects: the upper seven bits of every byte, and every byte at an
/// unselected position, survive an encode verbatim.
pub proof fn lemma_encode_preserves_upper_bits(payload: Seq<u8>, pass: Seq<char>, c: Seq<u8>)
    requires
        32 + 8 * payload.len() <= c.len(),
    ensures
        encode_spec(payload, pass, c).len() == c.len(),
        forall|i: int|
            0 <= i < c.len() ==> #[trigger] (encode_spec(payload, pass, c)[i] & 0xFE) == (c[i]
                & 0xFE),
{
    let key = scrypt_key(pass);
    let d = c.len() as int;
    let nreq = required_bits_spec(payload.len() as int);
    let pos = sample_spec(key, d, nreq);
    let header_model = header_bytes(payload.len() as int);
    let message = bits_of_bytes(header_model + payload);
    lemma_sample_unique_and_bounded(key, d, nreq);
    lemma_bits_of_bytes_concat(header_model, payload);
    lemma_bits_are_boolean(header_model + payload);
    lemma_embed_len(c, pos, message, nreq);
    lemma_embed_untouched(c, pos, message, nreq);
}

/// Determinism: the embedded container is a function of the payload,
/// passphrase and starting container alone, so repeated encodes with
/// identical inputs produce byte-identical containers.
pub proof fn lemma_encode_deterministic(
    payload1: Seq<u8>,
    pass1: Seq<char>,
    c1: Seq<u8>,
    payload2: Seq<u8>,
    pass2: Seq<char>,
    c2: Seq<u8>,
)
    requires
        payload1 == payload2,
        pass1 == pass2,
        c1 == c2,
    ensures
        encode_spec(payload1, pass1, c1) == encode_spec(payload2, pass2, c2),
{
}

} // verus!
