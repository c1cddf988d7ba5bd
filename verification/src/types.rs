//! The kinds of encoding that a field's tag can announce, and the
//! handlers that turn the bytes of a value into text.

use crate::codec::{parse_varint_bytes, varint_of_bytes, zigzag, zigzag_decode, Error};
use crate::formatter::{
    bold_text, chars_of, decimal, default_indent, foreground, foreground_bold, foreground_text,
    hex_dump, hex_dump_text, indent, indent_text, push_decimal, push_signed_decimal,
    signed_decimal,
};
use crate::guesser::{guess_is_message, looks_like_message};
use vstd::prelude::*;
use vstd::string::{StringExecFns, StringSliceAdditionalSpecFns};
use vstd::utf8::{decode_utf8, encode_utf8_decode_utf8, valid_utf8};

verus! {

/// How the value of a field is laid out on the wire.
#[derive(Debug, Clone, Copy, PartialEq, Eq, Structural)]
pub enum WireType {
    Varint,
    Bit64,
    Chunk,
    StartGroup,
    EndGroup,
    Bit32,
}

impl WireType {
    /// The wire type that the code `n` stands for; codes above 5 stand for none.
    pub open spec fn of_code(n: int) -> Option<WireType> {
        if n == 0 {
            Some(WireType::Varint)
        } else if n == 1 {
            Some(WireType::Bit64)
        } else if n == 2 {
            Some(WireType::Chunk)
        } else if n == 3 {
            Some(WireType::StartGroup)
        } else if n == 4 {
            Some(WireType::EndGroup)
        } else if n == 5 {
            Some(WireType::Bit32)
        } else {
            None
        }
    }

    /// The code that stands for this wire type in a tag.
    pub open spec fn code(self) -> int {
        match self {
            WireType::Varint => 0,
            WireType::Bit64 => 1,
            WireType::Chunk => 2,
            WireType::StartGroup => 3,
            WireType::EndGroup => 4,
            WireType::Bit32 => 5,
        }
    }

    /// Decodes the low three bits of a tag.
    pub fn from_u8(n: u8) -> (r: Option<WireType>)
        ensures
            r == Self::of_code(n as int),
    {
        match n {
            0 => Some(WireType::Varint),
            1 => Some(WireType::Bit64),
            2 => Some(WireType::Chunk),
            3 => Some(WireType::StartGroup),
            4 => Some(WireType::EndGroup),
            5 => Some(WireType::Bit32),
            _ => None,
        }
    }

    /// Decodes the low three bits of a tag, with the unit error for a code
    /// that stands for no wire type.
    pub fn try_from(value: u8) -> (r: Result<WireType, ()>)
        ensures
            match Self::of_code(value as int) {
                Some(w) => r == Ok::<WireType, ()>(w),
                None => r is Err,
            },
    {
        match WireType::from_u8(value) {
            Some(w) => Ok(w),
            None => Err(()),
        }
    }
}

/// A number as the handlers show it: in bold yellow.
pub open spec fn number_text(n: int) -> Seq<char> {
    bold_text(foreground_text(3, signed_decimal(n)))
}

/// Whether `r` is the text, or the error, that `expected` names.
pub open spec fn is_text(r: Result<String, Error>, expected: Result<Seq<char>, Error>) -> bool {
    match expected {
        Ok(text) => r is Ok && r->Ok_0@ == text,
        Err(e) => r is Err && r->Err_0 == e,
    }
}

/// Turns the bytes of one value into text.
pub trait TypeHandler {
    /// The text that the handler makes of `data`, or why it makes none.
    spec fn parsed(&self, data: Seq<u8>) -> Result<Seq<char>, Error>;

    /// The wire type that the handler reads.
    spec fn kind(&self) -> WireType;

    /// Whether the handler can be asked at all. The handlers of this
    /// library can, but for those that were given a function that cannot
    /// be called or that is no function of its arguments.
    spec fn usable(&self) -> bool;

    fn parse(&self, data: &[u8], name: &str) -> (r: Result<String, Error>)
        requires
            self.usable(),
        ensures
            is_text(r, self.parsed(data@)),
    ;

    fn wire_type(&self) -> (w: WireType)
        ensures
            w == self.kind(),
    ;
}

/// Shows `n` in bold yellow.
fn show_unsigned(n: u64) -> (out: String)
    ensures
        out@ == number_text(n as int),
{
    let mut digits = String::new();
    push_decimal(&mut digits, n);
    assert(digits@ =~= signed_decimal(n as int));
    foreground_bold(3, digits.as_str())
}

/// Shows `n` in bold yellow.
fn show_signed(n: i64) -> (out: String)
    ensures
        out@ == number_text(n as int),
{
    let mut digits = String::new();
    push_signed_decimal(&mut digits, n);
    assert(digits@ =~= signed_decimal(n as int));
    foreground_bold(3, digits.as_str())
}

/// The number that 64 bits stand for in two's complement.
pub open spec fn as_signed(v: u64) -> int {
    if v >= 0x8000_0000_0000_0000 {
        v - 0x1_0000_0000_0000_0000
    } else {
        v as int
    }
}

/// Reads 64 bits as a number in two's complement.
fn to_signed(v: u64) -> (n: i64)
    ensures
        n == as_signed(v),
{
    if v >= 0x8000_0000_0000_0000 {
        -((u64::MAX - v) as i64) - 1
    } else {
        v as i64
    }
}

/// The number that the bytes of `data` spell, least significant first.
pub open spec fn le_value(data: Seq<u8>) -> nat
    decreases data.len(),
{
    if data.len() == 0 {
        0
    } else {
        data[0] as nat + 256 * le_value(data.drop_first())
    }
}

/// The number that the bytes of `data` stand for in two's complement.
pub open spec fn le_signed(data: Seq<u8>) -> int {
    if 2 * le_value(data) >= le_bound(data.len()) {
        le_value(data) - le_bound(data.len())
    } else {
        le_value(data) as int
    }
}

/// Reads four bytes, least significant first.
fn read_le_u32(data: &[u8]) -> (v: u32)
    requires
        data@.len() == 4,
    ensures
        v == le_value(data@),
{
    proof {
        reveal_with_fuel(le_value, 5);
        assert(data@.drop_first().drop_first().drop_first().drop_first().len() == 0);
    }
    let low: u32 = data[0] as u32 + 256 * (data[1] as u32);
    let high: u32 = data[2] as u32 + 256 * (data[3] as u32);
    low + 65536 * high
}

/// Reads eight bytes, least significant first.
fn read_le_u64(data: &[u8]) -> (v: u64)
    requires
        data@.len() == 8,
    ensures
        v == le_value(data@),
{
    let mut v: u64 = 0;
    let mut i: usize = 8;
    proof {
        assert(data@.skip(8).len() == 0);
    }
    while i > 0
        invariant
            data@.len() == 8,
            i <= 8,
            v == le_value(data@.skip(i as int)),
            v < le_bound((8 - i) as nat),
        decreases i,
    {
        i = i - 1;
        proof {
            assert(data@.skip(i as int).drop_first() =~= data@.skip(i + 1));
            reveal_with_fuel(le_bound, 9);
        }
        v = data[i] as u64 + 256 * v;
    }
    assert(data@.skip(0) =~= data@);
    v
}

/// 256 to the power of `n`.
pub open spec fn le_bound(n: nat) -> nat
    decreases n,
{
    if n == 0 {
        1
    } else {
        256 * le_bound((n - 1) as nat)
    }
}

/// A number as it stands.
pub struct VarintHandler;

impl TypeHandler for VarintHandler {
    open spec fn parsed(&self, data: Seq<u8>) -> Result<Seq<char>, Error> {
        match varint_of_bytes(data) {
            Ok(val) => if false {
                Err(Error::InvalidVarint)
            } else {
                Ok(number_text(val as int))
            },
            Err(e) => Err(e),
        }
    }

    open spec fn kind(&self) -> WireType {
        WireType::Varint
    }

    open spec fn usable(&self) -> bool {
        true
    }

    fn parse(&self, data: &[u8], name: &str) -> (r: Result<String, Error>) {
        let val: u64 = match parse_varint_bytes(data) {
            Ok(val) => val,
            Err(e) => {
                return Err(e);
            },
        };
        Ok(show_unsigned(val))
    }

    fn wire_type(&self) -> (w: WireType) {
        WireType::Varint
    }
}

/// A zigzag number of 32 bits.
pub struct SInt32Handler;

impl TypeHandler for SInt32Handler {
    open spec fn parsed(&self, data: Seq<u8>) -> Result<Seq<char>, Error> {
        match varint_of_bytes(data) {
            Ok(val) => if false {
                Err(Error::InvalidVarint)
            } else {
                Ok(number_text(zigzag(val)))
            },
            Err(e) => Err(e),
        }
    }

    open spec fn kind(&self) -> WireType {
        WireType::Varint
    }

    open spec fn usable(&self) -> bool {
        true
    }

    fn parse(&self, data: &[u8], name: &str) -> (r: Result<String, Error>) {
        let val: u64 = match parse_varint_bytes(data) {
            Ok(val) => val,
            Err(e) => {
                return Err(e);
            },
        };
        Ok(show_signed(zigzag_decode(val)))
    }

    fn wire_type(&self) -> (w: WireType) {
        WireType::Varint
    }
}

/// A zigzag number of 64 bits.
pub struct SInt64Handler;

impl TypeHandler for SInt64Handler {
    open spec fn parsed(&self, data: Seq<u8>) -> Result<Seq<char>, Error> {
        match varint_of_bytes(data) {
            Ok(val) => if false {
                Err(Error::InvalidVarint)
            } else {
                Ok(number_text(zigzag(val)))
            },
            Err(e) => Err(e),
        }
    }

    open spec fn kind(&self) -> WireType {
        WireType::Varint
    }

    open spec fn usable(&self) -> bool {
        true
    }

    fn parse(&self, data: &[u8], name: &str) -> (r: Result<String, Error>) {
        let val: u64 = match parse_varint_bytes(data) {
            Ok(val) => val,
            Err(e) => {
                return Err(e);
            },
        };
        Ok(show_signed(zigzag_decode(val)))
    }

    fn wire_type(&self) -> (w: WireType) {
        WireType::Varint
    }
}

/// A signed number of 32 bits; small negative numbers come as 64 bits of two's complement.
pub struct Int32Handler;

impl TypeHandler for Int32Handler {
    open spec fn parsed(&self, data: Seq<u8>) -> Result<Seq<char>, Error> {
        match varint_of_bytes(data) {
            Ok(val) => if val >= 0x8000_0000 && val < u64::MAX - 20000 {
                Err(Error::InvalidVarint)
            } else {
                Ok(number_text(as_signed(val)))
            },
            Err(e) => Err(e),
        }
    }

    open spec fn kind(&self) -> WireType {
        WireType::Varint
    }

    open spec fn usable(&self) -> bool {
        true
    }

    fn parse(&self, data: &[u8], name: &str) -> (r: Result<String, Error>) {
        let val: u64 = match parse_varint_bytes(data) {
            Ok(val) => val,
            Err(e) => {
                return Err(e);
            },
        };
        if val >= 0x8000_0000 && val < u64::MAX - 20000 {
            return Err(Error::InvalidVarint);
        }
        Ok(show_signed(to_signed(val)))
    }

    fn wire_type(&self) -> (w: WireType) {
        WireType::Varint
    }
}

/// A signed number of 64 bits in two's complement.
pub struct Int64Handler;

impl TypeHandler for Int64Handler {
    open spec fn parsed(&self, data: Seq<u8>) -> Result<Seq<char>, Error> {
        match varint_of_bytes(data) {
            Ok(val) => if false {
                Err(Error::InvalidVarint)
            } else {
                Ok(number_text(as_signed(val)))
            },
            Err(e) => Err(e),
        }
    }

    open spec fn kind(&self) -> WireType {
        WireType::Varint
    }

    open spec fn usable(&self) -> bool {
        true
    }

    fn parse(&self, data: &[u8], name: &str) -> (r: Result<String, Error>) {
        let val: u64 = match parse_varint_bytes(data) {
            Ok(val) => val,
            Err(e) => {
                return Err(e);
            },
        };
        Ok(show_signed(to_signed(val)))
    }

    fn wire_type(&self) -> (w: WireType) {
        WireType::Varint
    }
}

/// An unsigned number of 32 bits.
pub struct UInt32Handler;

impl TypeHandler for UInt32Handler {
    open spec fn parsed(&self, data: Seq<u8>) -> Result<Seq<char>, Error> {
        match varint_of_bytes(data) {
            Ok(val) => if val >= 0x1_0000_0000 {
                Err(Error::InvalidVarint)
            } else {
                Ok(number_text(val as int))
            },
            Err(e) => Err(e),
        }
    }

    open spec fn kind(&self) -> WireType {
        WireType::Varint
    }

    open spec fn usable(&self) -> bool {
        true
    }

    fn parse(&self, data: &[u8], name: &str) -> (r: Result<String, Error>) {
        let val: u64 = match parse_varint_bytes(data) {
            Ok(val) => val,
            Err(e) => {
                return Err(e);
            },
        };
        if val >= 0x1_0000_0000 {
            return Err(Error::InvalidVarint);
        }
        Ok(show_unsigned(val))
    }

    fn wire_type(&self) -> (w: WireType) {
        WireType::Varint
    }
}

/// An unsigned number of 64 bits.
pub struct UInt64Handler;

impl TypeHandler for UInt64Handler {
    open spec fn parsed(&self, data: Seq<u8>) -> Result<Seq<char>, Error> {
        match varint_of_bytes(data) {
            Ok(val) => if false {
                Err(Error::InvalidVarint)
            } else {
                Ok(number_text(val as int))
            },
            Err(e) => Err(e),
        }
    }

    open spec fn kind(&self) -> WireType {
        WireType::Varint
    }

    open spec fn usable(&self) -> bool {
        true
    }

    fn parse(&self, data: &[u8], name: &str) -> (r: Result<String, Error>) {
        let val: u64 = match parse_varint_bytes(data) {
            Ok(val) => val,
            Err(e) => {
                return Err(e);
            },
        };
        Ok(show_unsigned(val))
    }

    fn wire_type(&self) -> (w: WireType) {
        WireType::Varint
    }
}

/// A truth value, shown as 0 or 1.
pub struct BoolHandler;

impl TypeHandler for BoolHandler {
    open spec fn parsed(&self, data: Seq<u8>) -> Result<Seq<char>, Error> {
        match varint_of_bytes(data) {
            Ok(val) => if val >= 2 {
                Err(Error::InvalidVarint)
            } else {
                Ok(number_text(val as int))
            },
            Err(e) => Err(e),
        }
    }

    open spec fn kind(&self) -> WireType {
        WireType::Varint
    }

    open spec fn usable(&self) -> bool {
        true
    }

    fn parse(&self, data: &[u8], name: &str) -> (r: Result<String, Error>) {
        let val: u64 = match parse_varint_bytes(data) {
            Ok(val) => val,
            Err(e) => {
                return Err(e);
            },
        };
        if val >= 2 {
            return Err(Error::InvalidVarint);
        }
        Ok(show_unsigned(val))
    }

    fn wire_type(&self) -> (w: WireType) {
        WireType::Varint
    }
}

/// Four bytes, shown as a signed number.
pub struct Fixed32Handler;

impl TypeHandler for Fixed32Handler {
    open spec fn parsed(&self, data: Seq<u8>) -> Result<Seq<char>, Error> {
        if data.len() != 4 {
            Err(Error::Eof)
        } else {
            Ok(number_text(le_signed(data)))
        }
    }

    open spec fn kind(&self) -> WireType {
        WireType::Bit32
    }

    open spec fn usable(&self) -> bool {
        true
    }

    fn parse(&self, data: &[u8], name: &str) -> (r: Result<String, Error>) {
        if data.len() != 4 {
            return Err(Error::Eof);
        }
        proof {
            reveal_with_fuel(le_bound, 9);
        }
        Ok(show_signed(to_signed_32(read_le_u32(data))))
    }

    fn wire_type(&self) -> (w: WireType) {
        WireType::Bit32
    }
}

/// Four bytes, shown as an unsigned number.
pub struct SFixed32Handler;

impl TypeHandler for SFixed32Handler {
    open spec fn parsed(&self, data: Seq<u8>) -> Result<Seq<char>, Error> {
        if data.len() != 4 {
            Err(Error::Eof)
        } else {
            Ok(number_text(le_value(data) as int))
        }
    }

    open spec fn kind(&self) -> WireType {
        WireType::Bit32
    }

    open spec fn usable(&self) -> bool {
        true
    }

    fn parse(&self, data: &[u8], name: &str) -> (r: Result<String, Error>) {
        if data.len() != 4 {
            return Err(Error::Eof);
        }
        Ok(show_unsigned(read_le_u32(data) as u64))
    }

    fn wire_type(&self) -> (w: WireType) {
        WireType::Bit32
    }
}

/// Eight bytes, shown as a signed number.
pub struct Fixed64Handler;

impl TypeHandler for Fixed64Handler {
    open spec fn parsed(&self, data: Seq<u8>) -> Result<Seq<char>, Error> {
        if data.len() != 8 {
            Err(Error::Eof)
        } else {
            Ok(number_text(le_signed(data)))
        }
    }

    open spec fn kind(&self) -> WireType {
        WireType::Bit64
    }

    open spec fn usable(&self) -> bool {
        true
    }

    fn parse(&self, data: &[u8], name: &str) -> (r: Result<String, Error>) {
        if data.len() != 8 {
            return Err(Error::Eof);
        }
        proof {
            reveal_with_fuel(le_bound, 9);
        }
        Ok(show_signed(to_signed(read_le_u64(data))))
    }

    fn wire_type(&self) -> (w: WireType) {
        WireType::Bit64
    }
}

/// Eight bytes, shown as an unsigned number.
pub struct SFixed64Handler;

impl TypeHandler for SFixed64Handler {
    open spec fn parsed(&self, data: Seq<u8>) -> Result<Seq<char>, Error> {
        if data.len() != 8 {
            Err(Error::Eof)
        } else {
            Ok(number_text(le_value(data) as int))
        }
    }

    open spec fn kind(&self) -> WireType {
        WireType::Bit64
    }

    open spec fn usable(&self) -> bool {
        true
    }

    fn parse(&self, data: &[u8], name: &str) -> (r: Result<String, Error>) {
        if data.len() != 8 {
            return Err(Error::Eof);
        }
        Ok(show_unsigned(read_le_u64(data)))
    }

    fn wire_type(&self) -> (w: WireType) {
        WireType::Bit64
    }
}

/// Reads 32 bits as a number in two's complement.
fn to_signed_32(v: u32) -> (n: i64)
    ensures
        n == (if v >= 0x8000_0000 {
            v - 0x1_0000_0000
        } else {
            v as int
        }),
{
    if v >= 0x8000_0000 {
        v as i64 - 0x1_0000_0000
    } else {
        v as i64
    }
}

/// `core::str::from_utf8` of std: the bytes as text where they are valid
/// UTF-8, and nothing where they are not.
#[verifier::external_body]
fn utf8_text(data: &[u8]) -> (r: Option<&str>)
    ensures
        match r {
            Some(text) => valid_utf8(data@) && text.spec_bytes() == data@,
            None => !valid_utf8(data@),
        },
{
    match core::str::from_utf8(data) {
        Ok(text) => Some(text),
        Err(_) => None,
    }
}

/// A text in double quotes, in green.
pub open spec fn quoted_text(text: Seq<char>) -> Seq<char> {
    foreground_text(2, seq!['"'] + text + seq!['"'])
}

/// Shows `text` in double quotes, in green.
pub fn show_quoted(text: &str) -> (out: String)
    ensures
        out@ == quoted_text(text@),
{
    proof {
        reveal_strlit("\"");
    }
    let mut quoted = String::from_str("\"");
    quoted.append(text);
    quoted.append("\"");
    assert(quoted@ =~= seq!['"'] + text@ + seq!['"']);
    foreground(2, quoted.as_str())
}

/// A text in UTF-8, shown in quotes.
pub struct StringHandler;

impl TypeHandler for StringHandler {
    open spec fn parsed(&self, data: Seq<u8>) -> Result<Seq<char>, Error> {
        if valid_utf8(data) {
            Ok(quoted_text(decode_utf8(data)))
        } else {
            Err(Error::Eof)
        }
    }

    open spec fn kind(&self) -> WireType {
        WireType::Chunk
    }

    open spec fn usable(&self) -> bool {
        true
    }

    fn parse(&self, data: &[u8], name: &str) -> (r: Result<String, Error>) {
        match utf8_text(data) {
            Some(text) => {
                proof {
                    encode_utf8_decode_utf8(text@);
                }
                Ok(show_quoted(text))
            },
            None => Err(Error::Eof),
        }
    }

    fn wire_type(&self) -> (w: WireType) {
        WireType::Chunk
    }
}

/// Bytes as the handler for bytes shows them: their number, and below
/// it their hex dump, indented.
pub open spec fn bytes_text(data: Seq<u8>) -> Seq<char> {
    if data.len() > 0 {
        seq!['b', 'y', 't', 'e', 's', ' ', '('] + decimal(data.len()) + seq![')', '\n']
            + indent_text(hex_dump_text(data, 0), default_indent())
    } else {
        seq!['b', 'y', 't', 'e', 's', ' ', '(', '0', ')']
    }
}

/// Opaque bytes, shown as a hex dump.
pub struct BytesHandler;

impl TypeHandler for BytesHandler {
    open spec fn parsed(&self, data: Seq<u8>) -> Result<Seq<char>, Error> {
        Ok(bytes_text(data))
    }

    open spec fn kind(&self) -> WireType {
        WireType::Chunk
    }

    open spec fn usable(&self) -> bool {
        true
    }

    fn parse(&self, data: &[u8], name: &str) -> (r: Result<String, Error>) {
        proof {
            reveal_strlit("bytes (");
            reveal_strlit(")\n");
            reveal_strlit("bytes (0)");
        }
        if data.len() > 0 {
            let dump = hex_dump(data);
            let mut out = String::from_str("bytes (");
            push_decimal(&mut out, data.len() as u64);
            out.append(")\n");
            let indented = indent(dump.as_str(), None);
            out.append(indented.as_str());
            assert(out@ =~= bytes_text(data@));
            Ok(out)
        } else {
            let out = String::from_str("bytes (0)");
            assert(out@ =~= bytes_text(data@));
            Ok(out)
        }
    }

    fn wire_type(&self) -> (w: WireType) {
        WireType::Chunk
    }
}

/// Whether `c` is alphabetic or numeric, as `char::is_alphanumeric` of
/// std tells it.
pub uninterp spec fn is_alphanumeric(c: char) -> bool;

/// Whether `c` is white space, as `char::is_whitespace` of std tells it.
pub uninterp spec fn is_whitespace(c: char) -> bool;

/// `char::is_alphanumeric` of std: whether the character is alphabetic
/// or numeric in Unicode. The answer depends on the character alone.
#[verifier::external_body]
pub(crate) fn char_is_alphanumeric(c: char) -> (b: bool)
    ensures
        b == is_alphanumeric(c),
{
    c.is_alphanumeric()
}

/// `char::is_whitespace` of std: whether the character has the Unicode
/// property of white space. The answer depends on the character alone.
#[verifier::external_body]
pub(crate) fn char_is_whitespace(c: char) -> (b: bool)
    ensures
        b == is_whitespace(c),
{
    c.is_whitespace()
}

/// Whether `c` is a control character other than line feed, tab and
/// carriage return.
pub open spec fn is_control_char(c: char) -> bool {
    (c as u32) < 0x20 && c != '\n' && c != '\t' && c != '\r' || c as u32 == 0x7F
}

/// Whether `c` counts as printable: letters, digits, white space, the
/// CJK ideographs and their punctuation, and general punctuation.
pub open spec fn is_printable_char(c: char) -> bool {
    let v = c as u32;
    is_alphanumeric(c) || is_whitespace(c) || 0x4E00 <= v <= 0x9FFF || 0x3400 <= v <= 0x4DBF
        || 0x2000 <= v <= 0x206F || 0x3000 <= v <= 0x303F
}

/// How many characters of `text` are control characters.
pub open spec fn count_control(text: Seq<char>) -> nat
    decreases text.len(),
{
    if text.len() == 0 {
        0
    } else {
        count_control(text.drop_last()) + if is_control_char(text.last()) {
            1nat
        } else {
            0nat
        }
    }
}

/// How many characters of `text` count as printable.
pub open spec fn count_printable(text: Seq<char>) -> nat
    decreases text.len(),
{
    if text.len() == 0 {
        0
    } else {
        count_printable(text.drop_last()) + if is_printable_char(text.last()) {
            1nat
        } else {
            0nat
        }
    }
}

/// Whether a text of `total` bytes reads like text: it is not empty, at
/// most one twentieth of its bytes are control characters, and at least
/// four fifths of them are printable characters.
pub open spec fn probable_string(text: Seq<char>, total: nat) -> bool {
    total != 0 && 20 * count_control(text) <= total && 5 * count_printable(text) >= 4 * total
}

/// Whether `s` reads like text rather than like binary data.
pub fn is_probable_string(s: &str) -> (b: bool)
    ensures
        b == probable_string(s@, s.len() as nat),
{
    let total: usize = s.len();
    if total == 0 {
        return false;
    }
    let chars = chars_of(s);
    let n = chars.len();
    let mut controlchars: usize = 0;
    let mut printable: usize = 0;
    let mut i: usize = 0;
    assert(chars@.take(0) =~= Seq::<char>::empty());
    while i < n
        invariant
            n == chars@.len(),
            i <= n,
            controlchars == count_control(chars@.take(i as int)),
            printable == count_printable(chars@.take(i as int)),
            controlchars <= i,
            printable <= i,
        decreases n - i,
    {
        let c: char = chars[i];
        let c_val: u32 = c as u32;
        proof {
            assert(chars@.take(i + 1).drop_last() =~= chars@.take(i as int));
        }
        if c_val < 0x20 && c != '\n' && c != '\t' && c != '\r' || c_val == 0x7F {
            controlchars = controlchars + 1;
        }
        if char_is_alphanumeric(c) || char_is_whitespace(c) || c_val >= 0x4E00 && c_val <= 0x9FFF
            || c_val >= 0x3400 && c_val <= 0x4DBF || c_val >= 0x2000 && c_val <= 0x206F || c_val
            >= 0x3000 && c_val <= 0x303F {
            printable = printable + 1;
        }
        i = i + 1;
    }
    assert(chars@.take(n as int) =~= chars@);
    if controlchars as u128 * 20 > total as u128 {
        return false;
    }
    if (printable as u128) * 5 < (total as u128) * 4 {
        return false;
    }
    true
}

/// The bytes of `data` in decimal, separated by commas, in brackets.
pub open spec fn byte_list(data: Seq<u8>) -> Seq<char> {
    seq!['['] + byte_items(data) + seq![']']
}

/// The bytes of `data` in decimal, separated by a comma and a space.
pub open spec fn byte_items(data: Seq<u8>) -> Seq<char>
    decreases data.len(),
{
    if data.len() == 0 {
        Seq::empty()
    } else if data.len() == 1 {
        decimal(data[0] as nat)
    } else {
        byte_items(data.drop_last()) + seq![',', ' '] + decimal(data.last() as nat)
    }
}

/// Appends the bytes of `data` as a list in brackets.
fn push_byte_list(out: &mut String, data: &[u8])
    ensures
        final(out)@ == old(out)@ + byte_list(data@),
{
    proof {
        reveal_strlit("[");
        reveal_strlit("]");
        reveal_strlit(", ");
    }
    out.append("[");
    let ghost open = out@;
    let mut i: usize = 0;
    assert(data@.take(0) =~= Seq::<u8>::empty());
    assert(out@ =~= open + byte_items(data@.take(0)));
    while i < data.len()
        invariant
            i <= data@.len(),
            out@ == open + byte_items(data@.take(i as int)),
        decreases data@.len() - i,
    {
        let ghost before = out@;
        if i > 0 {
            proof {
                reveal_strlit(", ");
            }
            out.append(", ");
            assert(out@ =~= before + seq![',', ' ']);
        }
        push_decimal(out, data[i] as u64);
        proof {
            let seen = data@.take(i + 1);
            assert(seen.drop_last() =~= data@.take(i as int));
            if i > 0 {
                assert(out@ =~= open + (byte_items(data@.take(i as int)) + seq![',', ' ']
                    + decimal(data@[i as int] as nat)));
            } else {
                assert(out@ =~= open + decimal(data@[i as int] as nat));
            }
        }
        i = i + 1;
    }
    assert(data@.take(data@.len() as int) =~= data@);
    out.append("]");
    assert(out@ =~= old(out)@ + byte_list(data@));
}

/// A chunk as the handler for chunks shows it: text in quotes where it
/// reads like text; else its size where it looks like a message to the
/// relaxed probe, and the list of its bytes where it does not.
pub open spec fn chunk_text(data: Seq<u8>) -> Seq<char> {
    if data.len() == 0 {
        seq!['e', 'm', 'p', 't', 'y', ' ', 'c', 'h', 'u', 'n', 'k']
    } else if valid_utf8(data) && probable_string(decode_utf8(data), data.len()) {
        quoted_text(decode_utf8(data))
    } else if looks_like_message(data) == Ok::<bool, crate::guesser::GuesserError>(true) {
        seq!['m', 'e', 's', 's', 'a', 'g', 'e', ' ', '('] + decimal(data.len()) + seq![
            ' ',
            'b',
            'y',
            't',
            'e',
            's',
            ')',
        ]
    } else {
        seq!['b', 'y', 't', 'e', 's', ' ', '('] + byte_list(data) + seq![')']
    }
}

/// A chunk of unknown kind: text, a nested message or bytes.
pub struct ChunkHandler;

impl TypeHandler for ChunkHandler {
    open spec fn parsed(&self, data: Seq<u8>) -> Result<Seq<char>, Error> {
        Ok(chunk_text(data))
    }

    open spec fn kind(&self) -> WireType {
        WireType::Chunk
    }

    open spec fn usable(&self) -> bool {
        true
    }

    fn parse(&self, data: &[u8], name: &str) -> (r: Result<String, Error>) {
        proof {
            reveal_strlit("empty chunk");
            reveal_strlit("message (");
            reveal_strlit(" bytes)");
            reveal_strlit("bytes (");
            reveal_strlit(")");
        }
        if data.len() == 0 {
            let out = String::from_str("empty chunk");
            assert(out@ =~= chunk_text(data@));
            return Ok(out);
        }
        match utf8_text(data) {
            Some(text) => {
                proof {
                    encode_utf8_decode_utf8(text@);
                    assert(text.len() == data@.len());
                }
                if is_probable_string(text) {
                    return Ok(show_quoted(text));
                }
            },
            None => {},
        }
        match guess_is_message(data) {
            Ok(true) => {
                let mut out = String::from_str("message (");
                push_decimal(&mut out, data.len() as u64);
                out.append(" bytes)");
                assert(out@ =~= chunk_text(data@));
                Ok(out)
            },
            _ => {
                let mut out = String::from_str("bytes (");
                push_byte_list(&mut out, data);
                out.append(")");
                assert(out@ =~= chunk_text(data@));
                Ok(out)
            },
        }
    }

    fn wire_type(&self) -> (w: WireType) {
        WireType::Chunk
    }
}

/// The text that `format` gives for `bits`: the number of 32 bits
/// (`wide` false) or 64 bits (`wide` true) read as a floating-point
/// number and written out.
pub open spec fn float_text<F: Fn(u64, bool) -> String>(format: F, bits: u64, wide: bool) -> Seq<
    char,
> {
    (choose|out: String| #[trigger] format.ensures((bits, wide), out))@
}

/// Whether `format` can be called on every number and gives a text that
/// depends on its arguments alone.
pub open spec fn formats_floats<F: Fn(u64, bool) -> String>(format: F) -> bool {
    &&& forall|bits: u64, wide: bool| #[trigger] format.requires((bits, wide))
    &&& forall|bits: u64, wide: bool, a: String, b: String|
        #[trigger] format.ensures((bits, wide), a) && #[trigger] format.ensures((bits, wide), b)
            ==> a@ == b@
}

/// Asks `format` for the text of `bits`.
fn show_float<F: Fn(u64, bool) -> String>(format: &F, bits: u64, wide: bool) -> (out: String)
    requires
        formats_floats(*format),
    ensures
        out@ == float_text(*format, bits, wide),
{
    let out = format(bits, wide);
    proof {
        let chosen = choose|other: String| #[trigger] format.ensures((bits, wide), other);
        assert(format.ensures((bits, wide), out));
        assert(format.ensures((bits, wide), chosen));
    }
    out
}

/// `n` in `width` hexadecimal digits, upper case: the low digits of `n`,
/// with zeros in front of a smaller number.
pub open spec fn hex_fixed(n: nat, width: nat) -> Seq<char>
    decreases width,
{
    if width == 0 {
        Seq::empty()
    } else {
        hex_fixed(n / 16, (width - 1) as nat).push(crate::formatter::digit_char(n % 16))
    }
}

/// Appends `n` in `width` hexadecimal digits, upper case.
fn push_hex_fixed(out: &mut String, n: u64, width: usize)
    ensures
        final(out)@ == old(out)@ + hex_fixed(n as nat, width as nat),
    decreases width,
{
    if width > 0 {
        push_hex_fixed(out, n / 16, width - 1);
        crate::formatter::push_hex_digit(out, (n % 16) as u8);
        assert(final(out)@ =~= old(out)@ + hex_fixed(n as nat, width as nat));
    } else {
        assert(final(out)@ =~= old(out)@ + hex_fixed(n as nat, width as nat));
    }
}

/// A fixed value of `width` bytes as it is shown where its type is not
/// known: in hexadecimal, as a signed number and as a floating-point
/// number.
pub open spec fn raw_fixed_text<F: Fn(u64, bool) -> String>(format: F, data: Seq<u8>) -> Seq<char> {
    "0x"@ + hex_fixed(le_value(data), 2 * data.len()) + " / "@ + signed_decimal(le_signed(data))
        + " / "@ + float_text(format, le_value(data) as u64, data.len() == 8)
}

/// Shows a fixed value of four or eight bytes in its three readings.
fn show_raw_fixed<F: Fn(u64, bool) -> String>(format: &F, data: &[u8]) -> (out: String)
    requires
        formats_floats(*format),
        data@.len() == 4 || data@.len() == 8,
    ensures
        out@ == raw_fixed_text(*format, data@),
{
    proof {
        reveal_with_fuel(le_bound, 9);
    }
    let wide = data.len() == 8;
    let bits: u64 = if wide {
        read_le_u64(data)
    } else {
        read_le_u32(data) as u64
    };
    let signed: i64 = if wide {
        to_signed(bits)
    } else {
        to_signed_32(bits as u32)
    };
    let mut out = String::from_str("0x");
    push_hex_fixed(&mut out, bits, 2 * data.len());
    out.append(" / ");
    push_signed_decimal(&mut out, signed);
    out.append(" / ");
    let floating = show_float(format, bits, wide);
    out.append(floating.as_str());
    assert(out@ =~= raw_fixed_text(*format, data@));
    out
}

/// Four bytes of unknown type, shown in hexadecimal, as a signed number
/// and as a floating-point number.
pub struct Bit32Handler<F> {
    pub float_text: F,
}

impl<F: Fn(u64, bool) -> String> TypeHandler for Bit32Handler<F> {
    open spec fn parsed(&self, data: Seq<u8>) -> Result<Seq<char>, Error> {
        if data.len() != 4 {
            Err(Error::Eof)
        } else {
            Ok(raw_fixed_text(self.float_text, data))
        }
    }

    open spec fn kind(&self) -> WireType {
        WireType::Bit32
    }

    open spec fn usable(&self) -> bool {
        formats_floats(self.float_text)
    }

    fn parse(&self, data: &[u8], name: &str) -> (r: Result<String, Error>) {
        if data.len() != 4 {
            return Err(Error::Eof);
        }
        Ok(show_raw_fixed(&self.float_text, data))
    }

    fn wire_type(&self) -> (w: WireType) {
        WireType::Bit32
    }
}

/// Eight bytes of unknown type, shown in hexadecimal, as a signed number
/// and as a floating-point number.
pub struct Bit64Handler<F> {
    pub float_text: F,
}

impl<F: Fn(u64, bool) -> String> TypeHandler for Bit64Handler<F> {
    open spec fn parsed(&self, data: Seq<u8>) -> Result<Seq<char>, Error> {
        if data.len() != 8 {
            Err(Error::Eof)
        } else {
            Ok(raw_fixed_text(self.float_text, data))
        }
    }

    open spec fn kind(&self) -> WireType {
        WireType::Bit64
    }

    open spec fn usable(&self) -> bool {
        formats_floats(self.float_text)
    }

    fn parse(&self, data: &[u8], name: &str) -> (r: Result<String, Error>) {
        if data.len() != 8 {
            return Err(Error::Eof);
        }
        Ok(show_raw_fixed(&self.float_text, data))
    }

    fn wire_type(&self) -> (w: WireType) {
        WireType::Bit64
    }
}

/// A floating-point number of 32 bits.
pub struct FloatHandler<F> {
    pub float_text: F,
}

impl<F: Fn(u64, bool) -> String> TypeHandler for FloatHandler<F> {
    open spec fn parsed(&self, data: Seq<u8>) -> Result<Seq<char>, Error> {
        if data.len() != 4 {
            Err(Error::Eof)
        } else {
            Ok(bold_text(foreground_text(3, float_text(self.float_text, le_value(data) as u64, false))))
        }
    }

    open spec fn kind(&self) -> WireType {
        WireType::Bit32
    }

    open spec fn usable(&self) -> bool {
        formats_floats(self.float_text)
    }

    fn parse(&self, data: &[u8], name: &str) -> (r: Result<String, Error>) {
        if data.len() != 4 {
            return Err(Error::Eof);
        }
        proof {
            reveal_with_fuel(le_bound, 9);
        }
        let val = show_float(&self.float_text, read_le_u32(data) as u64, false);
        Ok(foreground_bold(3, val.as_str()))
    }

    fn wire_type(&self) -> (w: WireType) {
        WireType::Bit32
    }
}

/// A floating-point number of 64 bits.
pub struct DoubleHandler<F> {
    pub float_text: F,
}

impl<F: Fn(u64, bool) -> String> TypeHandler for DoubleHandler<F> {
    open spec fn parsed(&self, data: Seq<u8>) -> Result<Seq<char>, Error> {
        if data.len() != 8 {
            Err(Error::Eof)
        } else {
            Ok(bold_text(foreground_text(3, float_text(self.float_text, le_value(data) as u64, true))))
        }
    }

    open spec fn kind(&self) -> WireType {
        WireType::Bit64
    }

    open spec fn usable(&self) -> bool {
        formats_floats(self.float_text)
    }

    fn parse(&self, data: &[u8], name: &str) -> (r: Result<String, Error>) {
        if data.len() != 8 {
            return Err(Error::Eof);
        }
        proof {
            reveal_with_fuel(le_bound, 9);
        }
        let val = show_float(&self.float_text, read_le_u64(data), true);
        Ok(foreground_bold(3, val.as_str()))
    }

    fn wire_type(&self) -> (w: WireType) {
        WireType::Bit64
    }
}

} // verus!
