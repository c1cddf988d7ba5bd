//! The bounded probe that tells a nested message from opaque bytes.

use crate::cursor::DataReader;
use crate::types::WireType;
use crate::wire::{parse_tag, parse_varint, read_tag, read_varint, Error, MapError};
use vstd::prelude::*;

verus! {

/// The number of leading fields that the probe reads.
pub const PROBE_FIELDS: u32 = 3;

/// The longest chunk that the probe takes for ordinary.
pub const PROBE_CHUNK_LIMIT: u64 = 100;

/// Whether `b` is a control character other than the line feed.
pub open spec fn is_control_byte(b: u8) -> bool {
    b < 32 && b != 10
}

/// Whether `window` holds a control character other than the line feed.
pub open spec fn has_control_byte(window: Seq<u8>) -> bool {
    exists|i: int| 0 <= i < window.len() && is_control_byte(#[trigger] window[i])
}

/// The bytes that the probe inspects for control characters before it
/// reads a field: up to four.
pub open spec fn probe_window(rest: Seq<u8>) -> Seq<u8> {
    rest.take(if rest.len() < 4 { rest.len() as int } else { 4 })
}

/// What the probe makes of the value of a field of type `wire_type` at
/// the front of `rest`: how many bytes it passes and whether it finds
/// the value odd.
///
/// A 64-bit value is odd unless its last byte is `0x00` or `0xFF`. A
/// chunk is odd when it is empty or longer than the limit. A fixed value
/// or a chunk that the bytes cannot hold is invalid data.
pub open spec fn probe_value(rest: Seq<u8>, wire_type: WireType) -> Result<(nat, bool), Error> {
    match wire_type {
        WireType::StartGroup | WireType::EndGroup => Ok((0, false)),
        WireType::Bit32 => if rest.len() >= 4 {
            Ok((4, false))
        } else {
            Err(Error::InvalidData)
        },
        WireType::Bit64 => if rest.len() >= 8 {
            Ok((8, !(rest[7] == 0 || rest[7] == 255)))
        } else {
            Err(Error::InvalidData)
        },
        WireType::Chunk => match parse_varint(rest) {
            (Err(e), _) => Err(e),
            (Ok(length), used) => if length > rest.len() - used {
                Err(Error::InvalidData)
            } else {
                Ok(((used + length) as nat, length > PROBE_CHUNK_LIMIT || length == 0))
            },
        },
        WireType::Varint => match parse_varint(rest) {
            (Err(e), _) => Err(e),
            (Ok(_), used) => Ok((used, false)),
        },
    }
}

/// The verdict of the probe on `rest` with `rounds` fields still to read,
/// given what it has seen so far.
///
/// The bytes look like a message when a control character showed up in
/// one of the windows and at most one value was odd.
pub open spec fn probe(rest: Seq<u8>, rounds: nat, control: bool, weird: nat) -> Result<
    bool,
    Error,
>
    decreases rounds,
{
    let control = control || has_control_byte(probe_window(rest));
    match parse_tag(rest) {
        (Err(e), _) => Err(e),
        (Ok((_, wire_type)), used) => {
            let after = rest.skip(used as int);
            match probe_value(after, wire_type) {
                Err(e) => Err(e),
                Ok((more, odd)) => {
                    let weird = if odd {
                        weird + 1
                    } else {
                        weird
                    };
                    let next = after.skip(more as int);
                    if next.len() == 0 || rounds <= 1 {
                        Ok(control && weird <= 1)
                    } else {
                        probe(next, (rounds - 1) as nat, control, weird)
                    }
                },
            }
        },
    }
}

/// Whether `body` looks like a message to the strict probe.
pub open spec fn looks_like_message(body: Seq<u8>) -> Result<bool, Error> {
    probe(body, PROBE_FIELDS as nat, false, 0)
}

/// Whether the next bytes of the window hold a control character.
fn window_has_control(reader: &DataReader) -> (found: bool)
    ensures
        found == has_control_byte(probe_window(reader.rest())),
{
    proof {
        use_type_invariant(reader);
    }
    let left = reader.remains();
    let width: usize = if left < 4 {
        left
    } else {
        4
    };
    match reader.peek(width) {
        Err(_) => false,
        Ok(bytes) => {
            assert(bytes@ =~= probe_window(reader.rest()));
            let mut i: usize = 0;
            while i < bytes.len()
                invariant
                    bytes@ == probe_window(reader.rest()),
                    i <= bytes@.len(),
                    forall|j: int| 0 <= j < i ==> !is_control_byte(#[trigger] bytes@[j]),
                decreases bytes@.len() - i,
            {
                let c: u8 = bytes[i];
                if c < 32 && c != 10 {
                    assert(is_control_byte(bytes@[i as int]));
                    return true;
                }
                i = i + 1;
            }
            false
        },
    }
}

/// Reads the value of a field as the probe does.
fn probe_one(reader: &mut DataReader, wire_type: WireType) -> (r: Result<bool, Error>)
    ensures
        final(reader).data() == old(reader).data(),
        match probe_value(old(reader).rest(), wire_type) {
            Ok((used, odd)) => r == Ok::<bool, Error>(odd)
                && final(reader).pos() == old(reader).pos() + used,
            Err(e) => r == Err::<bool, Error>(e),
        },
{
    proof {
        use_type_invariant(&*reader);
    }
    let ghost rest = reader.rest();
    match wire_type {
        WireType::StartGroup | WireType::EndGroup => Ok(false),
        WireType::Bit32 => {
            match reader.skip(4).map_custom_err() {
                Ok(_) => Ok(false),
                Err(e) => Err(e),
            }
        },
        WireType::Bit64 => {
            match reader.read(8).map_custom_err() {
                Ok(data) => {
                    let last: u8 = data[7];
                    assert(last == rest[7]);
                    Ok(!(last == 0 || last == 255))
                },
                Err(e) => Err(e),
            }
        },
        WireType::Chunk => {
            let length: u64 = match read_varint(reader) {
                Ok(length) => length,
                Err(e) => {
                    return Err(e);
                },
            };
            proof {
                use_type_invariant(&*reader);
                crate::wire::lemma_parse_varint_bounds(rest);
            }
            let odd = length > PROBE_CHUNK_LIMIT || length == 0;
            if length > reader.remains() as u64 {
                return Err(Error::InvalidData);
            }
            match reader.skip(length as usize).map_custom_err() {
                Ok(_) => Ok(odd),
                Err(e) => Err(e),
            }
        },
        WireType::Varint => {
            match read_varint(reader) {
                Ok(_) => Ok(false),
                Err(e) => Err(e),
            }
        },
    }
}

/// Probes the bytes in front of the cursor: do they look like a message?
///
/// Reads up to three fields. A failure to read one is handed on; the
/// caller takes it for "no message".
pub fn guess_is_message(reader: DataReader<'_>) -> (r: Result<bool, Error>)
    ensures
        r == looks_like_message(reader.rest()),
{
    let mut cursor = reader;
    let mut is_ctrl_char_found = false;
    let mut weird_value_count: u32 = 0;
    let mut rounds: u32 = PROBE_FIELDS;
    let ghost whole = cursor.rest();
    loop
        invariant
            whole == reader.rest(),
            1 <= rounds <= PROBE_FIELDS,
            weird_value_count <= PROBE_FIELDS - rounds,
            looks_like_message(whole) == probe(
                cursor.rest(),
                rounds as nat,
                is_ctrl_char_found,
                weird_value_count as nat,
            ),
        decreases rounds,
    {
        proof {
            use_type_invariant(&cursor);
        }
        let ghost rest = cursor.rest();
        if window_has_control(&cursor) {
            is_ctrl_char_found = true;
        }
        let (_field_number, wire_type) = match read_tag(&mut cursor) {
            Ok(t) => t,
            Err(e) => {
                return Err(e);
            },
        };
        proof {
            use_type_invariant(&cursor);
            crate::wire::lemma_parse_tag_bounds(rest);
            assert(cursor.rest() =~= rest.skip(parse_tag(rest).1 as int));
        }
        let ghost after = cursor.rest();
        let odd = match probe_one(&mut cursor, wire_type) {
            Ok(odd) => odd,
            Err(e) => {
                return Err(e);
            },
        };
        proof {
            use_type_invariant(&cursor);
            assert(cursor.rest() =~= after.skip(probe_value(after, wire_type)->Ok_0.0 as int));
        }
        if odd {
            weird_value_count = weird_value_count + 1;
        }
        if cursor.eof() || rounds == 1 {
            return Ok(is_ctrl_char_found && weird_value_count <= 1);
        }
        rounds = rounds - 1;
    }
}

} // verus!
