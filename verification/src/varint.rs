//! The variable-length integer of the fixed header ("remaining length"):
//! seven bits of the value per byte, least significant group first, the top
//! bit of a byte set when another byte follows.

use vstd::prelude::*;
use crate::error::{DecodeError, EncodeError};

verus! {

/// The largest value that four bytes can carry: 2^28 - 1.
pub const MAX_VARIABLE_INT: usize = 268_435_455;

/// The bytes that stand for `value`.
pub open spec fn spec_encode_variable_int(value: nat) -> Seq<u8>
    decreases value,
{
    if value < 128 {
        seq![value as u8]
    } else {
        seq![(value % 128 + 128) as u8] + spec_encode_variable_int(value / 128)
    }
}

/// Encodes `value`, or refuses it when it is above [`MAX_VARIABLE_INT`].
pub fn encode_variable_int(value: usize) -> (result: Result<Vec<u8>, EncodeError>)
    ensures
        match result {
            Ok(bytes) => value <= MAX_VARIABLE_INT && bytes@ == spec_encode_variable_int(
                value as nat,
            ),
            Err(e) => value > MAX_VARIABLE_INT && e == EncodeError::ValueTooLarge,
        },
{
    if value > MAX_VARIABLE_INT {
        return Err(EncodeError::ValueTooLarge);
    }
    let mut bytes: Vec<u8> = Vec::with_capacity(4);
    let mut remaining_value: usize = value;
    loop
        invariant_except_break
            remaining_value <= MAX_VARIABLE_INT,
            spec_encode_variable_int(value as nat) == bytes@ + spec_encode_variable_int(
                remaining_value as nat,
            ),
        ensures
            bytes@ == spec_encode_variable_int(value as nat),
        decreases remaining_value,
    {
        let ghost before: usize = remaining_value;
        let low: usize = remaining_value & 0b0111_1111;
        assert(low == before % 128) by (bit_vector)
            requires
                low == before & 0b0111_1111,
        ;
        let mut encoded_byte: u8 = low as u8;
        remaining_value >>= 7;
        assert(remaining_value == before / 128) by (bit_vector)
            requires
                remaining_value == before >> 7,
        ;
        if remaining_value > 0 {
            let ghost plain: u8 = encoded_byte;
            encoded_byte |= 0b1000_0000;
            assert(encoded_byte == plain + 128) by (bit_vector)
                requires
                    plain < 128,
                    encoded_byte == plain | 0b1000_0000,
            ;
            bytes.push(encoded_byte);
        } else {
            bytes.push(encoded_byte);
            break ;
        }
    }
    Ok(bytes)
}

/// What the byte at place `index` of an encoded integer counts for: 128 to the
/// power `index`.
pub open spec fn spec_weight(index: nat) -> nat
    decreases index,
{
    if index == 0 {
        1
    } else {
        128 * spec_weight((index - 1) as nat)
    }
}

/// Reads an integer from the front of `bytes`, allowing it at most `limit`
/// bytes. `Ok` holds the value and the number of bytes it took.
pub open spec fn spec_decode_within(bytes: Seq<u8>, limit: nat) -> Result<(nat, nat), DecodeError>
    decreases limit,
{
    if limit == 0 {
        Err(DecodeError::MalformedLength)
    } else if bytes.len() == 0 {
        Err(DecodeError::Truncated)
    } else if bytes[0] < 128 {
        Ok((bytes[0] as nat, 1nat))
    } else {
        match spec_decode_within(bytes.drop_first(), (limit - 1) as nat) {
            Ok((value, consumed)) => Ok(
                ((bytes[0] - 128) as nat + 128 * value, consumed + 1),
            ),
            Err(e) => Err(e),
        }
    }
}

/// Reads a remaining-length field from the front of `bytes`: the value and
/// the number of bytes it took, `Truncated` when the bytes end while another
/// one is asked for, `MalformedLength` when the fourth byte asks for a fifth.
pub open spec fn spec_decode_variable_int(bytes: Seq<u8>) -> Result<(nat, nat), DecodeError> {
    spec_decode_within(bytes, 4)
}

/// The result of a read that has already taken `index` bytes, which count for
/// `value`, and goes on with `rest` at weight `weight`.
spec fn spec_resume(
    rest: Result<(nat, nat), DecodeError>,
    value: nat,
    weight: nat,
    index: nat,
) -> Result<(nat, nat), DecodeError> {
    match rest {
        Ok((v, n)) => Ok((value + weight * v, index + n)),
        Err(e) => Err(e),
    }
}

proof fn lemma_resume_step(bytes: Seq<u8>, value: nat, index: nat)
    requires
        index < 4,
        index < bytes.len(),
        bytes[index as int] >= 128,
    ensures
        spec_resume(
            spec_decode_within(bytes.skip(index as int), (4 - index) as nat),
            value,
            spec_weight(index),
            index,
        ) == spec_resume(
            spec_decode_within(bytes.skip(index as int + 1), (3 - index) as nat),
            value + spec_weight(index) * (bytes[index as int] - 128) as nat,
            spec_weight(index + 1),
            index + 1,
        ),
{
    let here = bytes.skip(index as int);
    let low = (bytes[index as int] - 128) as nat;
    let w = spec_weight(index);
    assert(here.drop_first() == bytes.skip(index as int + 1));
    match spec_decode_within(bytes.skip(index as int + 1), (3 - index) as nat) {
        Ok((v, n)) => {
            assert(w * (low + 128 * v) == w * low + (128 * w) * v) by (nonlinear_arith);
        },
        Err(_) => {},
    }
}

/// Reads a remaining-length field from the front of `bytes`.
pub fn decode_variable_int(bytes: &[u8]) -> (result: Result<(usize, usize), DecodeError>)
    ensures
        match result {
            Ok((value, consumed)) => {
                &&& spec_decode_variable_int(bytes@) == Ok::<(nat, nat), DecodeError>(
                    (value as nat, consumed as nat),
                )
                &&& value <= MAX_VARIABLE_INT
                &&& 1 <= consumed <= 4
                &&& consumed <= bytes@.len()
            },
            Err(e) => spec_decode_variable_int(bytes@) == Err::<(nat, nat), DecodeError>(e),
        },
{
    let mut value: usize = 0;
    let mut weight: usize = 1;
    let mut index: usize = 0;
    proof {
        assert(bytes@.skip(0) == bytes@);
    }
    while index < 4
        invariant
            index <= 4,
            index <= bytes@.len(),
            weight == spec_weight(index as nat),
            value < weight,
            spec_decode_variable_int(bytes@) == spec_resume(
                spec_decode_within(bytes@.skip(index as int), (4 - index) as nat),
                value as nat,
                weight as nat,
                index as nat,
            ),
        decreases 4 - index,
    {
        proof {
            reveal_with_fuel(spec_weight, 5);
        }
        if index >= bytes.len() {
            return Err(DecodeError::Truncated);
        }
        let byte: u8 = bytes[index];
        let low: u8 = byte & 0b0111_1111;
        let more: u8 = byte & 0b1000_0000;
        assert(low == byte % 128 && (more == 0 <==> byte < 128)) by (bit_vector)
            requires
                low == byte & 0b0111_1111,
                more == byte & 0b1000_0000,
        ;
        assert(low as usize * weight + value < 128 * weight) by (nonlinear_arith)
            requires
                low < 128,
                value < weight,
        ;
        if more == 0 {
            assert(weight as nat * low as nat == low as usize * weight) by (nonlinear_arith);
            return Ok((value + low as usize * weight, index + 1));
        }
        proof {
            lemma_resume_step(bytes@, value as nat, index as nat);
            assert(weight as nat * (byte - 128) as nat == low as usize * weight)
                by (nonlinear_arith)
                requires
                    low == byte - 128,
            ;
        }
        value = value + low as usize * weight;
        weight = weight * 128;
        index = index + 1;
    }
    Err(DecodeError::MalformedLength)
}

/// An integer that was read took between one byte and `limit` bytes, all of
/// them present, and is below the weight of the place after its last byte.
pub proof fn lemma_decode_bounds(bytes: Seq<u8>, limit: nat)
    ensures
        match spec_decode_within(bytes, limit) {
            Ok((value, consumed)) => {
                &&& 1 <= consumed <= limit
                &&& consumed <= bytes.len()
                &&& value < spec_weight(consumed)
                &&& bytes[consumed - 1] < 128
            },
            Err(e) => e == DecodeError::Truncated || e == DecodeError::MalformedLength,
        },
    decreases limit,
{
    reveal_with_fuel(spec_weight, 2);
    if limit > 0 && bytes.len() > 0 && bytes[0] >= 128 {
        lemma_decode_bounds(bytes.drop_first(), (limit - 1) as nat);
    }
}

/// A read that ended, with a value or as malformed, is not changed by bytes
/// that follow: the field is read without looking past its last byte.
pub proof fn lemma_decode_ignores_rest(bytes: Seq<u8>, rest: Seq<u8>, limit: nat)
    requires
        spec_decode_within(bytes, limit) != Err::<(nat, nat), DecodeError>(DecodeError::Truncated),
    ensures
        spec_decode_within(bytes + rest, limit) == spec_decode_within(bytes, limit),
    decreases limit,
{
    if limit > 0 && bytes.len() > 0 {
        if bytes[0] >= 128 {
            assert((bytes + rest).drop_first() == bytes.drop_first() + rest);
            lemma_decode_ignores_rest(bytes.drop_first(), rest, (limit - 1) as nat);
        }
    }
}

/// A read that ran out of bytes and ends with a value once one more byte is
/// there took that byte as its last.
pub proof fn lemma_decode_one_more(bytes: Seq<u8>, byte: u8, limit: nat)
    requires
        spec_decode_within(bytes, limit) == Err::<(nat, nat), DecodeError>(DecodeError::Truncated),
    ensures
        spec_decode_within(bytes.push(byte), limit) matches Ok((_, consumed)) ==> consumed
            == bytes.len() + 1,
    decreases limit,
{
    reveal_with_fuel(spec_decode_within, 2);
    if limit > 0 && bytes.len() > 0 {
        assert(bytes.push(byte).drop_first() == bytes.drop_first().push(byte));
        lemma_decode_one_more(bytes.drop_first(), byte, (limit - 1) as nat);
    }
}

/// A value below 128 to the power `limit` is written in at most `limit` bytes.
pub proof fn lemma_encode_len(value: nat, limit: nat)
    requires
        limit >= 1,
        value < spec_weight(limit),
    ensures
        1 <= spec_encode_variable_int(value).len() <= limit,
    decreases limit,
{
    reveal_with_fuel(spec_weight, 2);
    if value >= 128 {
        lemma_encode_len(value / 128, (limit - 1) as nat);
    }
}

proof fn lemma_decode_encode_within(value: nat, rest: Seq<u8>, limit: nat)
    requires
        limit >= 1,
        value < spec_weight(limit),
    ensures
        spec_decode_within(spec_encode_variable_int(value) + rest, limit) == Ok::<
            (nat, nat),
            DecodeError,
        >((value, spec_encode_variable_int(value).len())),
    decreases limit,
{
    reveal_with_fuel(spec_weight, 2);
    let encoded = spec_encode_variable_int(value);
    if value >= 128 {
        let tail = spec_encode_variable_int(value / 128);
        assert((encoded + rest).drop_first() == tail + rest);
        lemma_decode_encode_within(value / 128, rest, (limit - 1) as nat);
    }
}

/// Every value up to [`MAX_VARIABLE_INT`] is written in one to four bytes, and
/// reading those bytes, whatever follows them, gives the value back together
/// with the number of bytes that were written.
pub proof fn lemma_decode_encode(value: nat, rest: Seq<u8>)
    requires
        value <= MAX_VARIABLE_INT,
    ensures
        1 <= spec_encode_variable_int(value).len() <= 4,
        spec_decode_variable_int(spec_encode_variable_int(value) + rest) == Ok::<
            (nat, nat),
            DecodeError,
        >((value, spec_encode_variable_int(value).len())),
{
    reveal_with_fuel(spec_weight, 5);
    lemma_encode_len(value, 4);
    lemma_decode_encode_within(value, rest, 4);
}

} // verus!
