//! The relaxed probe for display: does a chunk look like a message?

use crate::codec::{
    decode_value, decode_varint, parse_varint_bytes, read_identifier, read_value,
    split_identifier, varint_of_bytes, Error,
};
use crate::cursor::DataReader;
use crate::wire::{lemma_continuation_run_props, valid_field_number};
use vstd::prelude::*;
use vstd::std_specs::convert::FromSpecImpl;

verus! {

/// Why the probe could not reach a verdict.
#[derive(Debug, Clone, Copy, PartialEq, Eq, Structural)]
pub enum GuesserError {
    /// The bytes ended inside a value.
    Eof,
    /// The bytes are no valid wire format.
    InvalidData,
}

impl From<Error> for GuesserError {
    fn from(_e: Error) -> (r: GuesserError) {
        GuesserError::InvalidData
    }
}

impl FromSpecImpl<Error> for GuesserError {
    open spec fn obeys_from_spec() -> bool {
        true
    }

    open spec fn from_spec(_e: Error) -> GuesserError {
        GuesserError::InvalidData
    }
}

/// The number of leading fields that the probe reads.
pub const GUESS_FIELDS: u32 = 3;

/// The longest chunk that the probe takes for ordinary.
pub const GUESS_CHUNK_LIMIT: usize = 500;

/// What the probe makes of the value of a field with the wire-type code
/// `wire_type` at the front of `rest`: how many bytes it passes and
/// whether it finds the value odd.
///
/// A 64-bit value is odd unless its last byte is `0x00` or `0xFF`; a
/// chunk is odd when it is empty or longer than the limit. A value that
/// the bytes do not hold to its end is an early end; a number that is
/// not in shortest form and an unknown code are invalid data.
pub open spec fn guess_value(rest: Seq<u8>, wire_type: u8) -> Result<(nat, bool), GuesserError> {
    if wire_type == 3 || wire_type == 4 {
        Ok((0, false))
    } else if wire_type > 5 {
        Err(GuesserError::InvalidData)
    } else {
        match decode_value(rest, wire_type) {
            (Ok(Some(bytes)), used) => if wire_type == 1 {
                Ok((used, !(bytes.last() == 0 || bytes.last() == 255)))
            } else if wire_type == 2 {
                Ok((used, bytes.len() > GUESS_CHUNK_LIMIT || bytes.len() == 0))
            } else if wire_type == 0 && varint_of_bytes(bytes) is Err {
                Err(GuesserError::InvalidData)
            } else {
                Ok((used, false))
            },
            _ => Err(GuesserError::Eof),
        }
    }
}

/// The verdict of the probe on `rest` with `rounds` fields still to read,
/// given how many fields it has read and how many values it found odd.
///
/// The bytes look like a message when at least one field was read and at
/// most one value was odd.
pub open spec fn guess(rest: Seq<u8>, rounds: nat, valid: nat, weird: nat) -> Result<
    bool,
    GuesserError,
>
    decreases rounds,
{
    if rounds == 0 {
        Ok(valid > 0 && weird <= 1)
    } else {
        match decode_varint(rest) {
            (Err(_), _) => Err(GuesserError::InvalidData),
            (Ok(None), _) => Ok(valid > 0 && weird <= 1),
            (Ok(Some(id)), used) => {
                let (field_number, wire_type) = split_identifier(id);
                if !valid_field_number(field_number as int) {
                    Err(GuesserError::InvalidData)
                } else {
                    match guess_value(rest.skip(used as int), wire_type) {
                        Err(e) => Err(e),
                        Ok((more, odd)) => guess(
                            rest.skip(used as int).skip(more as int),
                            (rounds - 1) as nat,
                            valid + 1,
                            if odd {
                                weird + 1
                            } else {
                                weird
                            },
                        ),
                    }
                }
            },
        }
    }
}

/// Whether `data` looks like a message to the relaxed probe.
pub open spec fn looks_like_message(data: Seq<u8>) -> Result<bool, GuesserError> {
    guess(data, GUESS_FIELDS as nat, 0, 0)
}

/// Reads the value of a field as the probe does.
fn guess_one(reader: &mut DataReader, wire_type: u8) -> (r: Result<bool, GuesserError>)
    ensures
        final(reader).data() == old(reader).data(),
        match guess_value(old(reader).rest(), wire_type) {
            Ok((used, odd)) => r == Ok::<bool, GuesserError>(odd)
                && final(reader).pos() == old(reader).pos() + used,
            Err(e) => r == Err::<bool, GuesserError>(e),
        },
{
    match wire_type {
        3 | 4 => Ok(false),
        5 => {
            match read_value(reader, wire_type) {
                Ok(Some(_)) => Ok(false),
                _ => Err(GuesserError::Eof),
            }
        },
        1 => {
            match read_value(reader, wire_type) {
                Ok(Some(value_data)) => {
                    let n = value_data.len();
                    let odd = !(n > 0 && (value_data[n - 1] == 0 || value_data[n - 1] == 255));
                    Ok(odd)
                },
                _ => Err(GuesserError::Eof),
            }
        },
        2 => {
            match read_value(reader, wire_type) {
                Ok(Some(value_data)) => {
                    let length = value_data.len();
                    Ok(length > GUESS_CHUNK_LIMIT || length == 0)
                },
                _ => Err(GuesserError::Eof),
            }
        },
        0 => {
            match read_value(reader, wire_type) {
                Ok(Some(value_data)) => {
                    match parse_varint_bytes(value_data.as_slice()) {
                        Ok(_) => Ok(false),
                        Err(e) => Err(GuesserError::from(e)),
                    }
                },
                _ => Err(GuesserError::Eof),
            }
        },
        _ => Err(GuesserError::InvalidData),
    }
}

/// Probes `data`: does it look like a message?
///
/// Reads up to three fields and stops early where the bytes end between
/// two fields.
pub fn guess_is_message(data: &[u8]) -> (r: Result<bool, GuesserError>)
    ensures
        r == looks_like_message(data@),
{
    let mut cursor = DataReader::new(data);
    let mut weird_value_count: u32 = 0;
    let mut valid_fields_found: u32 = 0;
    let mut rounds: u32 = GUESS_FIELDS;
    assert(cursor.rest() =~= data@);
    while rounds > 0
        invariant
            rounds <= GUESS_FIELDS,
            valid_fields_found <= GUESS_FIELDS - rounds,
            weird_value_count <= GUESS_FIELDS - rounds,
            looks_like_message(data@) == guess(
                cursor.rest(),
                rounds as nat,
                valid_fields_found as nat,
                weird_value_count as nat,
            ),
        ensures
            looks_like_message(data@) == Ok::<bool, GuesserError>(
                valid_fields_found > 0 && weird_value_count <= 1,
            ),
        decreases rounds,
    {
        let ghost rest = cursor.rest();
        proof {
            use_type_invariant(&cursor);
            lemma_continuation_run_props(rest, 10);
        }
        let (field_number, wire_type) = match read_identifier(&mut cursor) {
            Ok(Some(identifier)) => identifier,
            Ok(None) => {
                break ;
            },
            Err(_) => {
                return Err(GuesserError::InvalidData);
            },
        };
        if field_number == 0 || (19000 <= field_number && field_number <= 19999) {
            return Err(GuesserError::InvalidData);
        }
        valid_fields_found = valid_fields_found + 1;
        proof {
            use_type_invariant(&cursor);
            assert(cursor.rest() =~= rest.skip(decode_varint(rest).1 as int));
        }
        let ghost after = cursor.rest();
        let odd = match guess_one(&mut cursor, wire_type) {
            Ok(odd) => odd,
            Err(e) => {
                return Err(e);
            },
        };
        proof {
            use_type_invariant(&cursor);
            assert(cursor.rest() =~= after.skip(guess_value(after, wire_type)->Ok_0.0 as int));
        }
        if odd {
            weird_value_count = weird_value_count + 1;
        }
        rounds = rounds - 1;
        if cursor.eof() {
            proof {
                lemma_continuation_run_props(cursor.rest(), 10);
            }
            break ;
        }
    }
    Ok(valid_fields_found > 0 && weird_value_count <= 1)
}

} // verus!
