//! Field-by-field reading for display: every value is handed out as the
//! bytes it was made of.

use crate::cursor::DataReader;
use crate::wire::{
    continuation_run, lemma_continuation_run, lemma_continuation_run_props, read_varint_groups,
    two_64, varint_value,
};
use vstd::prelude::*;
use vstd::slice::slice_to_vec;

verus! {

/// Why a field could not be read.
#[derive(Debug, Clone, Copy, PartialEq, Eq, Structural)]
pub enum Error {
    /// The bytes ended inside a value.
    Eof,
    /// A variable-length integer is too long or ends in a needless zero.
    InvalidVarint,
    /// The wire-type code stands for no wire type.
    InvalidWireType,
}

/// What reading a variable-length integer in shortest form from the
/// front of `rest` gives, and how many bytes the read passes.
///
/// `None` says that there was no byte to read. An integer that ends in a
/// zero byte behind other bytes is refused, as is one of more than ten
/// bytes.
pub open spec fn decode_varint(rest: Seq<u8>) -> (Result<Option<u64>, Error>, nat) {
    let run = continuation_run(rest, 10);
    if run == 10 {
        (Err(Error::InvalidVarint), 10)
    } else if run == rest.len() {
        if run == 0 {
            (Ok(None), 0)
        } else {
            (Err(Error::Eof), run)
        }
    } else if rest[run as int] == 0 && run > 0 {
        (Err(Error::InvalidVarint), run + 1)
    } else {
        (Ok(Some((varint_value(rest.take((run + 1) as int)) % two_64()) as u64)), run + 1)
    }
}

/// Reads a variable-length integer in shortest form.
pub fn read_varint(reader: &mut DataReader) -> (r: Result<Option<u64>, Error>)
    ensures
        final(reader).data() == old(reader).data(),
        r == decode_varint(old(reader).rest()).0,
        final(reader).pos() == old(reader).pos() + decode_varint(old(reader).rest()).1,
{
    proof {
        use_type_invariant(&*reader);
        lemma_continuation_run_props(old(reader).rest(), 10);
    }
    let before = reader.position();
    let read = read_varint_groups(reader);
    let used = reader.position() - before;
    match read.result {
        Ok(value) => {
            if read.last == 0 && used != 1 {
                Err(Error::InvalidVarint)
            } else {
                Ok(Some(value))
            }
        },
        Err(crate::wire::Error::VarintEof) => {
            if used == 0 {
                Ok(None)
            } else {
                Err(Error::Eof)
            }
        },
        Err(_) => Err(Error::InvalidVarint),
    }
}

/// The field number and the wire-type code that the tag `id` holds; the
/// field number is cut to 32 bits.
pub open spec fn split_identifier(id: u64) -> (u32, u8) {
    (((id as int / 8) % 0x1_0000_0000) as u32, (id as int % 8) as u8)
}

proof fn lemma_split_identifier(id: u64)
    by (bit_vector)
    ensures
        (id >> 3) == id / 8,
        (id >> 3) as u32 == (id >> 3) % 0x1_0000_0000,
        (id & 0x07) == id % 8,
        (id & 0x07) < 8,
{
}

/// Reads a tag and splits it into field number and wire-type code,
/// neither of them checked.
pub fn read_identifier(reader: &mut DataReader) -> (r: Result<Option<(u32, u8)>, Error>)
    ensures
        final(reader).data() == old(reader).data(),
        final(reader).pos() == old(reader).pos() + decode_varint(old(reader).rest()).1,
        match decode_varint(old(reader).rest()).0 {
            Ok(Some(id)) => r == Ok::<Option<(u32, u8)>, Error>(Some(split_identifier(id))),
            Ok(None) => r == Ok::<Option<(u32, u8)>, Error>(None),
            Err(e) => r == Err::<Option<(u32, u8)>, Error>(e),
        },
{
    match read_varint(reader) {
        Ok(Some(id)) => {
            proof {
                lemma_split_identifier(id);
            }
            let key: u32 = #[verifier::truncate]
            ((id >> 3) as u32);
            let wire_type: u8 = (id & 0x07) as u8;
            Ok(Some((key, wire_type)))
        },
        Ok(None) => Ok(None),
        Err(e) => Err(e),
    }
}

/// Decodes a zigzag number: even numbers are the non-negative ones, odd
/// numbers the negative ones.
pub open spec fn zigzag(n: u64) -> int {
    if n % 2 == 1 {
        -(n as int / 2) - 1
    } else {
        n as int / 2
    }
}

proof fn lemma_zigzag_bits(n: u64)
    by (bit_vector)
    ensures
        (n & 1) != 0 <==> n % 2 == 1,
        (n >> 1) == n / 2,
        (n >> 1) <= 0x7FFF_FFFF_FFFF_FFFFu64,
{
}

/// Decodes a zigzag number.
pub fn zigzag_decode(n: u64) -> (r: i64)
    ensures
        r == zigzag(n),
{
    proof {
        lemma_zigzag_bits(n);
    }
    let negative = (n & 1) != 0;
    let x: i64 = (n >> 1) as i64;
    if negative {
        -x - 1
    } else {
        x
    }
}

/// What reading the bytes of one variable-length integer of any length
/// from the front of `rest` gives, and how many bytes the read passes.
pub open spec fn decode_raw_varint(rest: Seq<u8>) -> (Result<Option<Seq<u8>>, Error>, nat) {
    let run = continuation_run(rest, rest.len());
    if run == rest.len() {
        if run == 0 {
            (Ok(None), 0)
        } else {
            (Err(Error::Eof), run)
        }
    } else {
        (Ok(Some(rest.take((run + 1) as int))), run + 1)
    }
}

/// What reading `width` bytes from the front of `rest` gives.
pub open spec fn decode_fixed(rest: Seq<u8>, width: nat) -> (Result<Option<Seq<u8>>, Error>, nat) {
    if width <= rest.len() {
        (Ok(Some(rest.take(width as int))), width)
    } else {
        (Ok(None), 0)
    }
}

/// What reading a length and then so many bytes from the front of `rest`
/// gives.
pub open spec fn decode_chunk(rest: Seq<u8>) -> (Result<Option<Seq<u8>>, Error>, nat) {
    match decode_varint(rest) {
        (Err(e), used) => (Err(e), used),
        (Ok(None), used) => (Ok(None), used),
        (Ok(Some(length)), used) => if length <= rest.len() - used {
            (Ok(Some(rest.subrange(used as int, used + length))), (used + length) as nat)
        } else {
            (Ok(None), used)
        },
    }
}

/// What reading the value of a field with the wire-type code `wire_type`
/// from the front of `rest` gives, and how many bytes the read passes.
///
/// `None` says that the bytes ended before the value did. A number comes
/// as the bytes of its encoding, a chunk as its body, and a group marker
/// as its own code.
pub open spec fn decode_value(rest: Seq<u8>, wire_type: u8) -> (
    Result<Option<Seq<u8>>, Error>,
    nat,
) {
    if wire_type == 0 {
        decode_raw_varint(rest)
    } else if wire_type == 1 {
        decode_fixed(rest, 8)
    } else if wire_type == 2 {
        decode_chunk(rest)
    } else if wire_type == 3 || wire_type == 4 {
        (Ok(Some(seq![wire_type])), 0)
    } else if wire_type == 5 {
        decode_fixed(rest, 4)
    } else {
        (Err(Error::InvalidWireType), 0)
    }
}

/// Whether `r` holds the bytes that `expected` names.
pub open spec fn holds_bytes(r: Result<Option<Vec<u8>>, Error>, expected: Result<
    Option<Seq<u8>>,
    Error,
>) -> bool {
    match expected {
        Ok(Some(bytes)) => r is Ok && r->Ok_0 is Some && r->Ok_0->Some_0@ == bytes,
        Ok(None) => r is Ok && r->Ok_0 is None,
        Err(e) => r is Err && r->Err_0 == e,
    }
}

fn read_raw_varint(reader: &mut DataReader) -> (r: Result<Option<Vec<u8>>, Error>)
    ensures
        final(reader).data() == old(reader).data(),
        holds_bytes(r, decode_raw_varint(old(reader).rest()).0),
        final(reader).pos() == old(reader).pos() + decode_raw_varint(old(reader).rest()).1,
{
    let ghost rest = reader.rest();
    let ghost start = reader.pos();
    let mut buf: Vec<u8> = Vec::new();
    proof {
        use_type_invariant(&*reader);
    }
    loop
        invariant
            reader.data() == old(reader).data(),
            rest == old(reader).rest(),
            start == old(reader).pos(),
            0 <= start,
            rest.len() == reader.data().len() - start,
            reader.pos() == start + buf@.len(),
            buf@.len() <= rest.len(),
            buf@ == rest.take(buf@.len() as int),
            forall|i: int| 0 <= i < buf@.len() ==> rest[i] >= 128,
        decreases rest.len() - buf@.len(),
    {
        let ghost seen = buf@.len();
        match reader.read1() {
            Ok(byte) => {
                buf.push(byte);
                assert(buf@ =~= rest.take((seen + 1) as int));
                if byte & 0x80 == 0 {
                    proof {
                        assert(byte & 0x80 == 0 <==> byte < 128) by (bit_vector);
                        lemma_continuation_run(rest, rest.len(), seen);
                    }
                    return Ok(Some(buf));
                }
                proof {
                    assert(byte & 0x80 == 0 <==> byte < 128) by (bit_vector);
                }
            },
            Err(_) => {
                proof {
                    lemma_continuation_run(rest, rest.len(), seen);
                }
                if buf.len() == 0 {
                    return Ok(None);
                }
                return Err(Error::Eof);
            },
        }
    }
}

fn read_fixed(reader: &mut DataReader, width: usize) -> (r: Result<Option<Vec<u8>>, Error>)
    ensures
        final(reader).data() == old(reader).data(),
        holds_bytes(r, decode_fixed(old(reader).rest(), width as nat).0),
        final(reader).pos() == old(reader).pos() + decode_fixed(old(reader).rest(), width as nat).1,
{
    proof {
        use_type_invariant(&*reader);
    }
    match reader.read(width) {
        Ok(bytes) => {
            assert(bytes@ =~= old(reader).rest().take(width as int));
            Ok(Some(slice_to_vec(bytes)))
        },
        Err(_) => Ok(None),
    }
}

fn read_chunk(reader: &mut DataReader) -> (r: Result<Option<Vec<u8>>, Error>)
    ensures
        final(reader).data() == old(reader).data(),
        holds_bytes(r, decode_chunk(old(reader).rest()).0),
        final(reader).pos() == old(reader).pos() + decode_chunk(old(reader).rest()).1,
{
    proof {
        use_type_invariant(&*reader);
        lemma_continuation_run_props(old(reader).rest(), 10);
    }
    let length: u64 = match read_varint(reader) {
        Ok(Some(length)) => length,
        Ok(None) => {
            return Ok(None);
        },
        Err(e) => {
            return Err(e);
        },
    };
    proof {
        use_type_invariant(&*reader);
    }
    if length > reader.remains() as u64 {
        return Ok(None);
    }
    match reader.read(length as usize) {
        Ok(bytes) => {
            assert(bytes@ =~= old(reader).rest().subrange(
                decode_varint(old(reader).rest()).1 as int,
                decode_varint(old(reader).rest()).1 + length,
            ));
            Ok(Some(slice_to_vec(bytes)))
        },
        Err(_) => Ok(None),
    }
}

/// Reads the value of a field with the wire-type code `wire_type` and
/// hands out the bytes it is made of.
pub fn read_value(reader: &mut DataReader, wire_type: u8) -> (r: Result<Option<Vec<u8>>, Error>)
    ensures
        final(reader).data() == old(reader).data(),
        holds_bytes(r, decode_value(old(reader).rest(), wire_type).0),
        final(reader).pos() == old(reader).pos() + decode_value(old(reader).rest(), wire_type).1,
{
    match wire_type {
        0 => read_raw_varint(reader),
        1 => read_fixed(reader, 8),
        2 => read_chunk(reader),
        3 | 4 => {
            let mut buf: Vec<u8> = Vec::new();
            buf.push(wire_type);
            assert(buf@ =~= seq![wire_type]);
            Ok(Some(buf))
        },
        5 => read_fixed(reader, 4),
        _ => Err(Error::InvalidWireType),
    }
}

/// The number that `buf` begins with, where it begins with one whole
/// variable-length integer in shortest form.
pub open spec fn varint_of_bytes(buf: Seq<u8>) -> Result<u64, Error> {
    match decode_varint(buf).0 {
        Ok(Some(value)) => Ok(value),
        _ => Err(Error::InvalidVarint),
    }
}

/// Parses the variable-length integer at the front of `buf`; what
/// follows it is not looked at.
pub fn parse_varint_bytes(buf: &[u8]) -> (r: Result<u64, Error>)
    ensures
        r == varint_of_bytes(buf@),
{
    let mut reader = DataReader::new(buf);
    assert(reader.rest() =~= buf@);
    match read_varint(&mut reader) {
        Ok(Some(value)) => Ok(value),
        _ => Err(Error::InvalidVarint),
    }
}

/// No value is longer than the bytes it is read from, and a tag that is
/// read takes at least one byte.
pub proof fn lemma_decode_bounds(rest: Seq<u8>, wire_type: u8)
    ensures
        decode_varint(rest).1 <= rest.len(),
        decode_varint(rest).0 matches Ok(Some(_)) ==> decode_varint(rest).1 >= 1,
        decode_value(rest, wire_type).1 <= rest.len(),
{
    lemma_continuation_run_props(rest, 10);
    lemma_continuation_run_props(rest, rest.len());
}

} // verus!
