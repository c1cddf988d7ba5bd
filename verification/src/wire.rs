//! Wire-format primitives: variable-length integers, tags, and the value
//! that follows a tag.

use crate::cursor::DataReader;
use crate::types::WireType;
use vstd::prelude::*;

verus! {

/// Why a read stopped.
///
/// The first two are cured by more input: they are kept from one slice to
/// the next so that the interrupted read can be finished.
#[derive(Debug, Clone, Copy, PartialEq, Eq, Structural)]
pub enum Error {
    /// The slice ended inside a variable-length integer.
    VarintEof,
    /// The slice ended inside a field of fixed size; so many bytes are owed.
    Eof(usize),
    /// The bytes are no valid wire format.
    InvalidData,
}

/// Turns any failure into [`Error::InvalidData`].
pub trait MapError<T>: Sized {
    /// The result with its error replaced.
    spec fn mapped(self) -> Result<T, Error>;

    fn map_custom_err(self) -> (r: Result<T, Error>)
        ensures
            r == self.mapped(),
    ;
}

impl<T, E> MapError<T> for Result<T, E> {
    open spec fn mapped(self) -> Result<T, Error> {
        match self {
            Ok(v) => Ok(v),
            Err(_) => Err(Error::InvalidData),
        }
    }

    fn map_custom_err(self) -> (r: Result<T, Error>) {
        match self {
            Ok(v) => Ok(v),
            Err(_) => Err(Error::InvalidData),
        }
    }
}

/// What one field leaves behind once its tag and value are read.
#[derive(Debug, Clone, Copy, PartialEq, Eq, Structural)]
pub enum TaggedData {
    /// A length-delimited field: its length is read, its body is not.
    ChunkMetadata { length: u64 },
    /// A number or a group marker, read to its end.
    Others,
}

/// 2 to the power of 64.
pub open spec fn two_64() -> nat {
    0x1_0000_0000_0000_0000
}

/// 128 to the power of `n`.
pub open spec fn pow128(n: nat) -> nat
    decreases n,
{
    if n == 0 {
        1
    } else {
        128 * pow128((n - 1) as nat)
    }
}

/// The number that the low seven bits of each byte of `group` spell,
/// least significant group first.
pub open spec fn varint_value(group: Seq<u8>) -> nat
    decreases group.len(),
{
    if group.len() == 0 {
        0
    } else {
        (group[0] % 128) as nat + 128 * varint_value(group.drop_first())
    }
}

/// How many of the first `limit` bytes of `rest` carry the continuation
/// bit without a break.
pub open spec fn continuation_run(rest: Seq<u8>, limit: nat) -> nat
    decreases limit,
{
    if limit == 0 || rest.len() == 0 || rest[0] < 128 {
        0
    } else {
        1 + continuation_run(rest.drop_first(), (limit - 1) as nat)
    }
}

/// What reading a variable-length integer from the front of `rest` gives,
/// and how many bytes the read passes.
///
/// Ten bytes that all ask for more are no integer. A run of such bytes
/// that reaches the end of `rest` is a truncated integer. Otherwise the
/// value is what the groups spell, cut to 64 bits.
pub open spec fn parse_varint(rest: Seq<u8>) -> (Result<u64, Error>, nat) {
    let run = continuation_run(rest, 10);
    if run == 10 {
        (Err(Error::InvalidData), 10)
    } else if run == rest.len() {
        (Err(Error::VarintEof), run)
    } else {
        (Ok((varint_value(rest.take((run + 1) as int)) % two_64()) as u64), run + 1)
    }
}

/// Whether `field_number` may stand in a tag.
pub open spec fn valid_field_number(field_number: int) -> bool {
    field_number != 0 && !(19000 <= field_number <= 19999)
}

/// What reading a tag from the front of `rest` gives, and how many bytes
/// the read passes.
pub open spec fn parse_tag(rest: Seq<u8>) -> (Result<(u32, WireType), Error>, nat) {
    let (number, used) = parse_varint(rest);
    match number {
        Err(e) => (Err(e), used),
        Ok(v) => {
            let field_number = v as int / 8;
            match WireType::of_code(v as int % 8) {
                Some(wire_type) if field_number <= u32::MAX && valid_field_number(
                    field_number,
                ) => (Ok((field_number as u32, wire_type)), used),
                _ => (Err(Error::InvalidData), used),
            }
        },
    }
}

/// What skipping `width` bytes at the front of `rest` gives.
pub open spec fn parse_fixed(rest: Seq<u8>, width: nat) -> (Result<TaggedData, Error>, nat) {
    if width <= rest.len() {
        (Ok(TaggedData::Others), width)
    } else {
        (Err(Error::Eof((width - rest.len()) as usize)), rest.len())
    }
}

/// What reading the value of a field of type `wire_type` from the front
/// of `rest` gives, and how many bytes the read passes.
pub open spec fn parse_value(rest: Seq<u8>, wire_type: WireType) -> (
    Result<TaggedData, Error>,
    nat,
) {
    match wire_type {
        WireType::StartGroup | WireType::EndGroup => (Ok(TaggedData::Others), 0),
        WireType::Varint => {
            let (number, used) = parse_varint(rest);
            match number {
                Ok(_) => (Ok(TaggedData::Others), used),
                Err(e) => (Err(e), used),
            }
        },
        WireType::Bit32 => parse_fixed(rest, 4),
        WireType::Bit64 => parse_fixed(rest, 8),
        WireType::Chunk => {
            let (number, used) = parse_varint(rest);
            match number {
                Ok(length) => (Ok(TaggedData::ChunkMetadata { length }), used),
                Err(e) => (Err(e), used),
            }
        },
    }
}

/// What reading one field, tag and value, from the front of `rest` gives,
/// and how many bytes the read passes.
#[verifier::opaque]
pub open spec fn parse_tagged_data(rest: Seq<u8>) -> (Result<TaggedData, Error>, nat) {
    let (tag, used) = parse_tag(rest);
    match tag {
        Err(e) => (Err(e), used),
        Ok((_, wire_type)) => {
            let (value, more) = parse_value(rest.skip(used as int), wire_type);
            (value, used + more)
        },
    }
}

/// A run of `k` continuation bytes that then stops is the run of `rest`.
pub proof fn lemma_continuation_run(rest: Seq<u8>, limit: nat, k: nat)
    requires
        k <= limit,
        k <= rest.len(),
        forall|i: int| 0 <= i < k ==> rest[i] >= 128,
        k == limit || k == rest.len() || rest[k as int] < 128,
    ensures
        continuation_run(rest, limit) == k,
    decreases k,
{
    if k > 0 {
        let tail = rest.drop_first();
        assert forall|i: int| 0 <= i < k - 1 implies tail[i] >= 128 by {
            assert(tail[i] == rest[i + 1]);
        }
        if k < limit && k < rest.len() {
            assert(tail[k - 1] == rest[k as int]);
        }
        lemma_continuation_run(tail, (limit - 1) as nat, (k - 1) as nat);
    }
}

/// The bytes counted by the run carry the continuation bit, and the run
/// stops at the limit, at the end, or at a byte that does not carry it.
pub proof fn lemma_continuation_run_props(rest: Seq<u8>, limit: nat)
    ensures
        continuation_run(rest, limit) <= limit,
        continuation_run(rest, limit) <= rest.len(),
        forall|i: int| 0 <= i < continuation_run(rest, limit) ==> rest[i] >= 128,
        continuation_run(rest, limit) < limit && continuation_run(rest, limit) < rest.len()
            ==> rest[continuation_run(rest, limit) as int] < 128,
    decreases limit,
{
    if limit == 0 || rest.len() == 0 || rest[0] < 128 {
    } else {
        let tail = rest.drop_first();
        lemma_continuation_run_props(tail, (limit - 1) as nat);
        let k = continuation_run(tail, (limit - 1) as nat);
        assert forall|i: int| 0 <= i < k + 1 implies rest[i] >= 128 by {
            if i > 0 {
                assert(rest[i] == tail[i - 1]);
            }
        }
        if k + 1 < limit && k + 1 < rest.len() {
            assert(rest[(k + 1) as int] == tail[k as int]);
        }
    }
}

/// One more group adds its seven bits above those already there.
pub proof fn lemma_varint_value_push(group: Seq<u8>, b: u8)
    ensures
        varint_value(group.push(b)) == varint_value(group) + (b % 128) * pow128(group.len()),
    decreases group.len(),
{
    if group.len() == 0 {
        assert(group.push(b).drop_first() =~= Seq::<u8>::empty());
        assert(varint_value(group.push(b).drop_first()) == 0);
        assert(pow128(0) == 1);
    } else {
        assert(group.push(b).drop_first() =~= group.drop_first().push(b));
        lemma_varint_value_push(group.drop_first(), b);
        let rest_value = varint_value(group.drop_first());
        let top = (b % 128) * pow128(group.drop_first().len());
        assert(pow128(group.len()) == 128 * pow128(group.drop_first().len()));
        assert(128 * (rest_value + top) == 128 * rest_value + (b % 128) * (128 * pow128(
            group.drop_first().len(),
        ))) by (nonlinear_arith)
            requires
                top == (b % 128) * pow128(group.drop_first().len()),
        ;
    }
}

/// `n` groups spell a number below 128 to the power of `n`.
pub proof fn lemma_varint_value_bound(group: Seq<u8>)
    ensures
        varint_value(group) < pow128(group.len()),
    decreases group.len(),
{
    if group.len() > 0 {
        lemma_varint_value_bound(group.drop_first());
    }
}

proof fn lemma_low_bits(x: u8)
    by (bit_vector)
    ensures
        (x & 0x7f) == x % 128,
        (x & 0x80 == 0) <==> x < 128,
{
}

proof fn lemma_shift_in(acc: u64, bits: u64, k: u64)
    by (bit_vector)
    requires
        k < 9,
        bits < 128,
        acc < (1u64 << ((7 * k) as u64)),
    ensures
        (acc | (bits << ((7 * k) as u64))) == acc + bits * (1u64 << ((7 * k) as u64)),
        (1u64 << ((7 * (k + 1)) as u64)) == 128 * (1u64 << ((7 * k) as u64)),
{
}

proof fn lemma_shift_in_last(acc: u64, bits: u64)
    by (bit_vector)
    requires
        bits < 128,
        acc < 0x8000_0000_0000_0000,
    ensures
        (acc | (bits << 63)) == acc + (bits % 2) * 0x8000_0000_0000_0000,
{
}

proof fn lemma_tag_split(v: u64)
    by (bit_vector)
    ensures
        (v >> 3) == v / 8,
        (v & 0b111) == v % 8,
        (v & 0b111) < 8,
{
}

/// A variable-length integer as it was read: the outcome, and the last
/// byte that the read took (0 where it took none).
pub(crate) struct VarintRead {
    pub result: Result<u64, Error>,
    pub last: u8,
}

/// Reads a variable-length integer: groups of seven bits, least
/// significant first, each byte but the last with its high bit set.
///
/// The cursor ends behind the last byte it read, also where the read fails.
pub fn read_varint(reader: &mut DataReader) -> (r: Result<u64, Error>)
    ensures
        final(reader).data() == old(reader).data(),
        r == parse_varint(old(reader).rest()).0,
        final(reader).pos() == old(reader).pos() + parse_varint(old(reader).rest()).1,
{
    read_varint_groups(reader).result
}

/// Reads a variable-length integer and keeps the byte that ended it.
pub(crate) fn read_varint_groups(reader: &mut DataReader) -> (r: VarintRead)
    ensures
        final(reader).data() == old(reader).data(),
        r.result == parse_varint(old(reader).rest()).0,
        final(reader).pos() == old(reader).pos() + parse_varint(old(reader).rest()).1,
        r.result is Ok ==> r.last == old(reader).rest()[parse_varint(old(reader).rest()).1 - 1],
{
    let ghost rest = reader.rest();
    let ghost start = reader.pos();
    let mut result: u64 = 0;
    let mut pos: u64 = 0;
    proof {
        use_type_invariant(&*reader);
        assert(pow128(0) == 1);
        assert((1u64 << 0u64) == 1) by (bit_vector);
        assert(rest.take(0) =~= Seq::<u8>::empty());
    }
    loop
        invariant
            reader.data() == old(reader).data(),
            rest == old(reader).rest(),
            start == old(reader).pos(),
            0 <= start,
            rest.len() == reader.data().len() - start,
            pos < 10,
            reader.pos() == start + pos,
            pos <= rest.len(),
            forall|i: int| 0 <= i < pos ==> rest[i] >= 128,
            result == varint_value(rest.take(pos as int)),
            (1u64 << ((7 * pos) as u64)) == pow128(pos as nat),
            result < pow128(pos as nat),
        decreases 10 - pos,
    {
        let x: u8 = match reader.read1() {
            Ok(x) => x,
            Err(_) => {
                proof {
                    lemma_continuation_run(rest, 10, pos as nat);
                }
                return VarintRead { result: Err(Error::VarintEof), last: 0 };
            },
        };
        let bits: u64 = (x & 0b0111_1111u8) as u64;
        proof {
            lemma_low_bits(x);
            assert(x == rest[pos as int]);
            assert(rest.take(pos + 1) =~= rest.take(pos as int).push(x));
            lemma_varint_value_push(rest.take(pos as int), x);
            if pos < 9 {
                lemma_shift_in(result, bits, pos);
                assert(pow128((pos + 1) as nat) == 128 * pow128(pos as nat));
                assert(result + bits * pow128(pos as nat) < 128 * pow128(pos as nat))
                    by (nonlinear_arith)
                    requires
                        result < pow128(pos as nat),
                        bits < 128,
                ;
            } else {
                lemma_pow128_fits(9);
                lemma_shift_in_last(result, bits);
                assert((1u64 << 63u64) == 0x8000_0000_0000_0000) by (bit_vector);
                let total = result + bits * 0x8000_0000_0000_0000;
                let high = bits / 2;
                assert(total == (result + (bits % 2) * 0x8000_0000_0000_0000) + high * two_64())
                    by (nonlinear_arith)
                    requires
                        total == result + bits * 0x8000_0000_0000_0000,
                        high == bits / 2,
                        two_64() == 0x1_0000_0000_0000_0000,
                ;
                vstd::arithmetic::div_mod::lemma_mod_multiples_vanish(
                    high as int,
                    (result + (bits % 2) * 0x8000_0000_0000_0000) as int,
                    two_64() as int,
                );
                vstd::arithmetic::div_mod::lemma_small_mod(
                    (result + (bits % 2) * 0x8000_0000_0000_0000) as nat,
                    two_64(),
                );
            }
        }
        result = result | (bits << (pos * 7));
        pos = pos + 1;
        if x & 0b1000_0000u8 == 0 {
            proof {
                lemma_continuation_run(rest, 10, (pos - 1) as nat);
                if pos < 10 {
                    vstd::arithmetic::div_mod::lemma_small_mod(result as nat, two_64());
                    lemma_pow128_fits(pos as nat);
                }
            }
            return VarintRead { result: Ok(result), last: x };
        }
        if pos == 10 {
            proof {
                lemma_continuation_run(rest, 10, 10);
            }
            return VarintRead { result: Err(Error::InvalidData), last: x };
        }
    }
}

/// Up to nine groups stay below 2 to the power of 63.
pub proof fn lemma_pow128_fits(n: nat)
    requires
        n <= 9,
    ensures
        pow128(n) <= 0x8000_0000_0000_0000,
{
    reveal_with_fuel(pow128, 10);
}

/// Reads a tag and splits it into field number and wire type.
///
/// Field number 0, the field numbers from 19000 to 19999, a field number
/// above 32 bits and a wire-type code above 5 are all invalid data.
pub fn read_tag(reader: &mut DataReader) -> (r: Result<(u32, WireType), Error>)
    ensures
        final(reader).data() == old(reader).data(),
        r == parse_tag(old(reader).rest()).0,
        final(reader).pos() == old(reader).pos() + parse_tag(old(reader).rest()).1,
        r matches Ok((field_number, _)) ==> valid_field_number(field_number as int),
{
    let tag_varint: u64 = match read_varint(reader) {
        Ok(v) => v,
        Err(e) => {
            return Err(e);
        },
    };
    proof {
        lemma_tag_split(tag_varint);
    }
    let number: u64 = tag_varint >> 3;
    let code: u8 = (tag_varint & 0b111) as u8;
    if number > 0xFFFF_FFFF {
        return Err(Error::InvalidData);
    }
    let field_number: u32 = number as u32;
    let wire_type = match WireType::try_from(code).map_custom_err() {
        Ok(w) => w,
        Err(e) => {
            return Err(e);
        },
    };
    if field_number == 0 || (19000 <= field_number && field_number <= 19999) {
        return Err(Error::InvalidData);
    }
    Ok((field_number, wire_type))
}

/// Skips a field of `width` bytes; a slice that ends before says how many
/// bytes are owed.
fn skip_fixed(reader: &mut DataReader, width: usize) -> (r: Result<TaggedData, Error>)
    ensures
        final(reader).data() == old(reader).data(),
        r == parse_fixed(old(reader).rest(), width as nat).0,
        final(reader).pos() == old(reader).pos() + parse_fixed(old(reader).rest(), width as nat).1,
{
    proof {
        use_type_invariant(&*reader);
    }
    match reader.skip(width) {
        Ok(_) => Ok(TaggedData::Others),
        Err(e) => Err(Error::Eof(width - e.available)),
    }
}

/// Reads one field: its tag, and its value but for the body of a chunk.
///
/// A number is read and dropped, a fixed field is skipped, a group marker
/// has no value, and of a chunk only the length is read.
pub fn read_tagged_data(reader: &mut DataReader) -> (r: Result<TaggedData, Error>)
    ensures
        final(reader).data() == old(reader).data(),
        r == parse_tagged_data(old(reader).rest()).0,
        final(reader).pos() == old(reader).pos() + parse_tagged_data(old(reader).rest()).1,
{
    proof {
        use_type_invariant(&*reader);
        reveal(parse_tagged_data);
    }
    let (_field_number, wire_type) = match read_tag(reader) {
        Ok(t) => t,
        Err(e) => {
            return Err(e);
        },
    };
    proof {
        use_type_invariant(&*reader);
        let used = parse_tag(old(reader).rest()).1;
        assert(reader.rest() =~= old(reader).rest().skip(used as int));
    }
    match wire_type {
        WireType::StartGroup | WireType::EndGroup => Ok(TaggedData::Others),
        WireType::Varint => {
            match read_varint(reader) {
                Ok(_) => Ok(TaggedData::Others),
                Err(e) => Err(e),
            }
        },
        WireType::Bit32 => skip_fixed(reader, 4),
        WireType::Bit64 => skip_fixed(reader, 8),
        WireType::Chunk => {
            match read_varint(reader) {
                Ok(length) => Ok(TaggedData::ChunkMetadata { length }),
                Err(e) => Err(e),
            }
        },
    }
}

/// The shortest encoding of `v` as a variable-length integer.
pub open spec fn varint_encoding(v: nat) -> Seq<u8>
    decreases v,
{
    if v < 128 {
        seq![v as u8]
    } else {
        seq![(v % 128 + 128) as u8] + varint_encoding(v / 128)
    }
}

/// Whether `group` is one whole variable-length integer in its shortest
/// form: every byte but the last asks for more, the last is not a
/// needless zero, and the number fits in 64 bits.
pub open spec fn is_canonical_varint(group: Seq<u8>) -> bool {
    &&& 1 <= group.len() <= 10
    &&& forall|i: int| 0 <= i < group.len() - 1 ==> group[i] >= 128
    &&& group.last() < 128
    &&& (group.len() == 1 || group.last() != 0)
    &&& varint_value(group) < two_64()
}

/// Encodes `value` as a variable-length integer in its shortest form.
pub fn encode_varint(value: u64) -> (out: Vec<u8>)
    ensures
        out@ == varint_encoding(value as nat),
{
    let mut out: Vec<u8> = Vec::new();
    let mut v: u64 = value;
    while v >= 128
        invariant
            varint_encoding(value as nat) == out@ + varint_encoding(v as nat),
        decreases v,
    {
        let low: u8 = (v % 128) as u8;
        proof {
            assert(out@.push((low + 128) as u8) + varint_encoding((v / 128) as nat) =~= out@ + (
            seq![(low + 128) as u8] + varint_encoding((v / 128) as nat)));
        }
        out.push(low + 128);
        v = v / 128;
    }
    proof {
        assert(out@.push(v as u8) =~= out@ + seq![v as u8]);
    }
    out.push(v as u8);
    out
}

/// The shortest encoding of a number below 128 to the power of `k` has at
/// most `k` bytes, is in shortest form, and spells that number.
pub proof fn lemma_varint_encoding_shape(v: nat, k: nat)
    requires
        k >= 1,
        v < pow128(k),
    ensures
        1 <= varint_encoding(v).len() <= k,
        forall|i: int| 0 <= i < varint_encoding(v).len() - 1 ==> varint_encoding(v)[i] >= 128,
        varint_encoding(v).last() < 128,
        varint_encoding(v).len() == 1 || varint_encoding(v).last() != 0,
        varint_value(varint_encoding(v)) == v,
    decreases v,
{
    let e = varint_encoding(v);
    if v < 128 {
        assert(e.drop_first() =~= Seq::<u8>::empty());
        assert(varint_value(e) == (e[0] % 128) as nat + 128 * varint_value(e.drop_first()));
    } else {
        let tail = varint_encoding(v / 128);
        let head = (v % 128 + 128) as u8;
        assert(pow128(1) == 128) by {
            reveal_with_fuel(pow128, 2);
        }
        assert(k >= 2);
        assert(pow128(k) == 128 * pow128((k - 1) as nat));
        assert(v / 128 < pow128((k - 1) as nat)) by (nonlinear_arith)
            requires
                v < 128 * pow128((k - 1) as nat),
        ;
        lemma_varint_encoding_shape(v / 128, (k - 1) as nat);
        assert(e == seq![head] + tail);
        assert(e.drop_first() =~= tail);
        assert(e.last() == tail.last());
        assert forall|i: int| 0 <= i < e.len() - 1 implies e[i] >= 128 by {
            if i > 0 {
                assert(e[i] == tail[i - 1]);
            }
        }
        assert(head % 128 == v % 128);
        assert(v / 128 >= 1);
        assert(tail.len() == 1 ==> tail.last() != 0) by {
            if tail.len() == 1 {
                assert(tail.drop_first() =~= Seq::<u8>::empty());
                assert(varint_value(tail) == (tail[0] % 128) as nat + 128 * varint_value(
                    tail.drop_first(),
                ));
            }
        }
    }
}

/// Reading the shortest encoding of a 64-bit number, whatever follows it,
/// gives the number back and stops behind the encoding.
pub proof fn lemma_read_of_encoding(v: u64, tail: Seq<u8>)
    ensures
        is_canonical_varint(varint_encoding(v as nat)),
        parse_varint(varint_encoding(v as nat) + tail) == (
            Ok::<u64, Error>(v),
            varint_encoding(v as nat).len(),
        ),
{
    let e = varint_encoding(v as nat);
    assert(pow128(10) >= two_64()) by {
        reveal_with_fuel(pow128, 11);
    }
    lemma_varint_encoding_shape(v as nat, 10);
    let rest = e + tail;
    let run = (e.len() - 1) as nat;
    assert forall|i: int| 0 <= i < run implies rest[i] >= 128 by {
        assert(rest[i] == e[i]);
    }
    assert(rest[run as int] == e.last());
    lemma_continuation_run(rest, 10, run);
    assert(rest.take((run + 1) as int) =~= e);
    vstd::arithmetic::div_mod::lemma_small_mod(v as nat, two_64());
}

/// A variable-length integer in shortest form with two bytes or more
/// spells a number of 128 or more.
proof fn lemma_canonical_is_large(group: Seq<u8>)
    requires
        group.len() >= 2,
        forall|i: int| 0 <= i < group.len() - 1 ==> group[i] >= 128,
        group.last() < 128,
        group.last() != 0,
    ensures
        varint_value(group) >= 128,
    decreases group.len(),
{
    let tail = group.drop_first();
    assert(tail.last() == group.last());
    if tail.len() == 1 {
        assert(tail.drop_first() =~= Seq::<u8>::empty());
        assert(varint_value(tail) == (tail[0] % 128) as nat + 128 * varint_value(
            tail.drop_first(),
        ));
    } else {
        assert forall|i: int| 0 <= i < tail.len() - 1 implies tail[i] >= 128 by {
            assert(tail[i] == group[i + 1]);
        }
        lemma_canonical_is_large(tail);
    }
}

/// The shortest encoding of what a group in shortest form spells is the
/// group itself.
proof fn lemma_encoding_of_canonical(group: Seq<u8>)
    requires
        group.len() >= 1,
        forall|i: int| 0 <= i < group.len() - 1 ==> group[i] >= 128,
        group.last() < 128,
        group.len() == 1 || group.last() != 0,
    ensures
        varint_encoding(varint_value(group)) == group,
    decreases group.len(),
{
    let tail = group.drop_first();
    if group.len() == 1 {
        assert(tail =~= Seq::<u8>::empty());
        assert(varint_value(group) == (group[0] % 128) as nat + 128 * varint_value(tail));
        assert(varint_encoding(varint_value(group)) =~= group);
    } else {
        assert(tail.last() == group.last());
        assert forall|i: int| 0 <= i < tail.len() - 1 implies tail[i] >= 128 by {
            assert(tail[i] == group[i + 1]);
        }
        lemma_canonical_is_large(group);
        lemma_encoding_of_canonical(tail);
        let v = varint_value(group);
        assert(v == (group[0] % 128) as nat + 128 * varint_value(tail));
        assert(v / 128 == varint_value(tail));
        assert(v % 128 == group[0] % 128);
        assert(varint_encoding(v) =~= group);
    }
}

/// Round trip on variable-length integers: a successful read, encoded
/// again, gives the shortest encoding of the same number, which reads
/// back to the same value; where the bytes read were in shortest form
/// already, it gives those bytes.
pub proof fn lemma_varint_round_trip(rest: Seq<u8>)
    requires
        parse_varint(rest).0 is Ok,
    ensures
        ({
            let value = parse_varint(rest).0->Ok_0;
            let used = parse_varint(rest).1 as int;
            let again = varint_encoding(value as nat);
            &&& 1 <= used <= 10 && used <= rest.len()
            &&& is_canonical_varint(again)
            &&& again.len() <= used
            &&& parse_varint(again).0 == Ok::<u64, Error>(value)
            &&& is_canonical_varint(rest.take(used)) <==> again == rest.take(used)
        }),
{
    let value = parse_varint(rest).0->Ok_0;
    let run = continuation_run(rest, 10);
    let used = (run + 1) as int;
    let group = rest.take(used);
    let again = varint_encoding(value as nat);
    lemma_continuation_run_props(rest, 10);
    lemma_read_of_encoding(value, Seq::<u8>::empty());
    assert(again + Seq::<u8>::empty() =~= again);
    assert forall|i: int| 0 <= i < group.len() - 1 implies group[i] >= 128 by {
        assert(group[i] == rest[i]);
    }
    assert(group.last() == rest[run as int]);
    lemma_varint_value_bound(group);
    if used <= 9 {
        lemma_pow128_fits(used as nat);
        vstd::arithmetic::div_mod::lemma_small_mod(varint_value(group), two_64());
        lemma_varint_encoding_shape(value as nat, used as nat);
    }
    if is_canonical_varint(group) {
        vstd::arithmetic::div_mod::lemma_small_mod(varint_value(group), two_64());
        lemma_encoding_of_canonical(group);
    }
}

/// No read passes more bytes than there are, and a read that succeeds
/// passes at least one.
pub proof fn lemma_parse_varint_bounds(rest: Seq<u8>)
    ensures
        parse_varint(rest).1 <= rest.len(),
        parse_varint(rest).0 is Ok ==> parse_varint(rest).1 >= 1,
        parse_varint(rest).0 == Err::<u64, Error>(Error::VarintEof) ==> parse_varint(rest).1
            == rest.len(),
        !(parse_varint(rest).0 matches Err(Error::Eof(_))),
{
    lemma_continuation_run_props(rest, 10);
}

/// A tag is at least one byte and lies within the bytes it is read from.
pub proof fn lemma_parse_tag_bounds(rest: Seq<u8>)
    ensures
        parse_tag(rest).1 <= rest.len(),
        parse_tag(rest).0 is Ok ==> parse_tag(rest).1 >= 1,
        parse_tag(rest).0 == Err::<(u32, WireType), Error>(Error::VarintEof) ==> parse_tag(rest).1
            == rest.len(),
        !(parse_tag(rest).0 matches Err(Error::Eof(_))),
{
    lemma_parse_varint_bounds(rest);
}

/// A field is at least one byte and lies within the bytes it is read
/// from; a truncated field reaches their end.
pub proof fn lemma_parse_tagged_data_bounds(rest: Seq<u8>)
    ensures
        parse_tagged_data(rest).1 <= rest.len(),
        parse_tagged_data(rest).0 is Ok ==> parse_tagged_data(rest).1 >= 1,
        parse_tagged_data(rest).0 matches Err(e) && e != Error::InvalidData ==> parse_tagged_data(
            rest,
        ).1 == rest.len(),
{
    reveal(parse_tagged_data);
    lemma_parse_tag_bounds(rest);
    let (tag, used) = parse_tag(rest);
    if tag is Ok {
        lemma_parse_varint_bounds(rest.skip(used as int));
    }
}

/// A tag is accepted exactly when its number fits 32 bits and is neither
/// 0 nor reserved, and its wire-type code stands for a wire type; the
/// tag then holds that number and that wire type. So field number 0 and
/// the field numbers from 19000 to 19999 are refused whatever the wire
/// type.
pub proof fn lemma_tag_acceptance(rest: Seq<u8>)
    requires
        parse_varint(rest).0 is Ok,
    ensures
        ({
            let v = parse_varint(rest).0->Ok_0 as int;
            let accepted = v / 8 <= u32::MAX && valid_field_number(v / 8) && v % 8 <= 5;
            &&& accepted ==> (parse_tag(rest).0 matches Ok((field_number, wire_type))
                && field_number == v / 8 && wire_type.code() == v % 8)
            &&& !accepted ==> parse_tag(rest).0 == Err::<(u32, WireType), Error>(
                Error::InvalidData,
            )
            &&& (v / 8 == 0 || 19000 <= v / 8 <= 19999) ==> !accepted
        }),
{
}

} // verus!
