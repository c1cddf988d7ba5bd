use protoscan::codec::{
    parse_varint_bytes, read_identifier, read_value, read_varint, zigzag_decode, Error,
};
use protoscan::cursor::DataReader;
use protoscan::formatter::{
    bold, dim, foreground, foreground_bold, foreground_color, hex_dump, indent,
};
use protoscan::guesser::{guess_is_message, GuesserError};
use protoscan::text::{contains_text, count_lines, first_word, same_text};
use protoscan::types::{
    is_probable_string, BoolHandler, BytesHandler, ChunkHandler, Fixed32Handler, Fixed64Handler,
    Int32Handler, Int64Handler, SFixed32Handler, SFixed64Handler, SInt32Handler, SInt64Handler,
    StringHandler, TypeHandler, UInt32Handler, UInt64Handler, VarintHandler, WireType,
};

fn number(text: &str) -> String {
    format!("\x1b[1m\x1b[33m{}\x1b[m\x1b[m", text)
}

#[test]
fn guesser_test_guess_is_message() {
    assert_eq!(guess_is_message(b"\x0a\x08POKECOIN"), Ok(true));
    // three fields without an odd value: the relaxed probe asks for no control character
    assert_eq!(guess_is_message(b"POKECOIN"), Ok(true));
    assert_eq!(guess_is_message(b""), Ok(false));
    // ten bytes that all ask for more are no number
    assert_eq!(
        guess_is_message(b"\xff\xff\xff\xff\xff\xff\xff\xff\xff\xff"),
        Err(GuesserError::InvalidData)
    );
}

#[test]
fn relaxed_probe_chunk_limit_is_five_hundred() {
    let mut body = vec![0x0a, 0xf4, 0x03];
    body.extend(std::iter::repeat(b'x').take(500));
    body.extend([0x12, 0x00]);
    // the chunk of 500 bytes is ordinary, the empty chunk is the one odd value
    assert_eq!(guess_is_message(&body), Ok(true));
    let mut body = vec![0x0a, 0xf5, 0x03];
    body.extend(std::iter::repeat(b'x').take(501));
    body.extend([0x12, 0x00]);
    assert_eq!(guess_is_message(&body), Ok(false));
}

#[test]
fn relaxed_probe_counts_odd_values_and_fields() {
    assert_eq!(guess_is_message(b"\x0a\x00"), Ok(true));
    assert_eq!(guess_is_message(b"\x0a\x00\x12\x00"), Ok(false));
    assert_eq!(guess_is_message(b"\x09\x01\x02\x03\x04\x05\x06\x07\x00"), Ok(true));
    assert_eq!(guess_is_message(b"\x09\x01\x02\x03\x04\x05\x06\x07\x08\x0a\x00"), Ok(false));
    // only three fields are read
    assert_eq!(guess_is_message(b"\x08\x01\x10\x02\x18\x03\x00"), Ok(true));
}

#[test]
fn relaxed_probe_errors() {
    assert_eq!(guess_is_message(b"\x00"), Err(GuesserError::InvalidData));
    assert_eq!(guess_is_message(b"\xc0\xa3\x09\x01"), Err(GuesserError::InvalidData));
    assert_eq!(guess_is_message(b"\x0e"), Err(GuesserError::InvalidData));
    assert_eq!(guess_is_message(b"\x0d\x01\x02"), Err(GuesserError::Eof));
    assert_eq!(guess_is_message(b"\x09\x01\x02"), Err(GuesserError::Eof));
    assert_eq!(guess_is_message(b"\x0a\x05abc"), Err(GuesserError::Eof));
    assert_eq!(guess_is_message(b"\x08"), Err(GuesserError::Eof));
    assert_eq!(guess_is_message(b"\x08\x80"), Err(GuesserError::Eof));
    // a number with a needless zero at its end
    assert_eq!(guess_is_message(b"\x08\x80\x00"), Err(GuesserError::InvalidData));
    assert_eq!(guess_is_message(b"\x88"), Err(GuesserError::InvalidData));
    assert_eq!(GuesserError::from(Error::Eof), GuesserError::InvalidData);
}

#[test]
fn display_varint_reads_shortest_form_only() {
    let mut r = DataReader::new(b"");
    assert!(matches!(read_varint(&mut r), Ok(None)));
    let mut r = DataReader::new(b"\x96\x01\xff");
    assert!(matches!(read_varint(&mut r), Ok(Some(150))));
    assert_eq!(r.position(), 2);
    let mut r = DataReader::new(b"\x96");
    assert!(matches!(read_varint(&mut r), Err(Error::Eof)));
    let mut r = DataReader::new(b"\x00");
    assert!(matches!(read_varint(&mut r), Ok(Some(0))));
    let mut r = DataReader::new(b"\x80\x00");
    assert!(matches!(read_varint(&mut r), Err(Error::InvalidVarint)));
    let mut r = DataReader::new(b"\xff\xff\xff\xff\xff\xff\xff\xff\xff\x01");
    assert!(matches!(read_varint(&mut r), Ok(Some(u64::MAX))));
    let mut r = DataReader::new(b"\xff\xff\xff\xff\xff\xff\xff\xff\xff\xff\x01");
    assert!(matches!(read_varint(&mut r), Err(Error::InvalidVarint)));
}

#[test]
fn display_identifier_is_not_checked() {
    let mut r = DataReader::new(b"\x0a");
    assert!(matches!(read_identifier(&mut r), Ok(Some((1, 2)))));
    let mut r = DataReader::new(b"\x07");
    assert!(matches!(read_identifier(&mut r), Ok(Some((0, 7)))));
    let mut r = DataReader::new(b"");
    assert!(matches!(read_identifier(&mut r), Ok(None)));
    // the field number is cut to 32 bits: 2^32 + 5 becomes 5
    let mut r = DataReader::new(b"\xa8\x80\x80\x80\x80\x01");
    assert!(matches!(read_identifier(&mut r), Ok(Some((5, 0)))));
}

#[test]
fn display_values_by_wire_type() {
    let mut r = DataReader::new(b"\x96\x01\x07");
    assert_eq!(read_value(&mut r, 0).unwrap(), Some(vec![0x96, 0x01]));
    let mut r = DataReader::new(b"\x96");
    assert!(matches!(read_value(&mut r, 0), Err(Error::Eof)));
    let mut r = DataReader::new(b"");
    assert!(matches!(read_value(&mut r, 0), Ok(None)));
    let mut r = DataReader::new(b"\x01\x02\x03\x04\x05\x06\x07\x08\x09");
    assert_eq!(read_value(&mut r, 1).unwrap(), Some(vec![1, 2, 3, 4, 5, 6, 7, 8]));
    let mut r = DataReader::new(b"\x01\x02\x03");
    assert!(matches!(read_value(&mut r, 1), Ok(None)));
    let mut r = DataReader::new(b"\x03abcd");
    assert_eq!(read_value(&mut r, 2).unwrap(), Some(b"abc".to_vec()));
    assert_eq!(r.position(), 4);
    let mut r = DataReader::new(b"\x05abc");
    assert!(matches!(read_value(&mut r, 2), Ok(None)));
    let mut r = DataReader::new(b"");
    assert!(matches!(read_value(&mut r, 2), Ok(None)));
    let mut r = DataReader::new(b"\x00");
    assert_eq!(read_value(&mut r, 2).unwrap(), Some(vec![]));
    let mut r = DataReader::new(b"abc");
    assert_eq!(read_value(&mut r, 3).unwrap(), Some(vec![3]));
    assert_eq!(read_value(&mut r, 4).unwrap(), Some(vec![4]));
    assert_eq!(r.position(), 0);
    let mut r = DataReader::new(b"\x01\x02\x03\x04\x05");
    assert_eq!(read_value(&mut r, 5).unwrap(), Some(vec![1, 2, 3, 4]));
    assert!(matches!(read_value(&mut r, 5), Ok(None)));
    assert!(matches!(read_value(&mut r, 6), Err(Error::InvalidWireType)));
    assert!(matches!(read_value(&mut r, 255), Err(Error::InvalidWireType)));
}

#[test]
fn display_parse_varint_bytes() {
    assert!(matches!(parse_varint_bytes(b"\x01"), Ok(1)));
    assert!(matches!(parse_varint_bytes(b"\x96\x01"), Ok(150)));
    assert!(matches!(parse_varint_bytes(b"\x96\x01\xff\xff"), Ok(150)));
    assert!(matches!(parse_varint_bytes(b""), Err(Error::InvalidVarint)));
    assert!(matches!(parse_varint_bytes(b"\x96"), Err(Error::InvalidVarint)));
    assert!(matches!(parse_varint_bytes(b"\x96\x00"), Err(Error::InvalidVarint)));
}

#[test]
fn zigzag_values() {
    assert_eq!(zigzag_decode(0), 0);
    assert_eq!(zigzag_decode(1), -1);
    assert_eq!(zigzag_decode(2), 1);
    assert_eq!(zigzag_decode(3), -2);
    assert_eq!(zigzag_decode(4294967294), 2147483647);
    assert_eq!(zigzag_decode(4294967295), -2147483648);
    assert_eq!(zigzag_decode(u64::MAX - 1), i64::MAX);
    assert_eq!(zigzag_decode(u64::MAX), i64::MIN);
}

#[test]
fn colours() {
    assert_eq!(foreground(1, "x"), "\x1b[31mx\x1b[m");
    assert_eq!(foreground(0, ""), "\x1b[30m\x1b[m");
    assert_eq!(foreground(255, "ab"), "\x1b[3255mab\x1b[m");
    assert_eq!(bold("x"), "\x1b[1mx\x1b[m");
    assert_eq!(dim("x"), "\x1b[2mx\x1b[m");
    assert_eq!(foreground_bold(4, "12"), "\x1b[1m\x1b[34m12\x1b[m\x1b[m");
    let green = foreground_color(2);
    assert_eq!(green("ok"), "\x1b[32mok\x1b[m");
    assert_eq!(green("é"), foreground(2, "é"));
}

#[test]
fn indent_lines() {
    assert_eq!(indent("a", None), "    a");
    assert_eq!(indent("a\nb", None), "    a\n    b");
    assert_eq!(indent("a\n\nb", None), "    a\n\n    b");
    assert_eq!(indent("a\n", None), "    a");
    assert_eq!(indent("a\r\nb\r\n", None), "    a\n    b");
    assert_eq!(indent("a\rb", None), "    a\rb");
    assert_eq!(indent("a\r", None), "    a\r");
    assert_eq!(indent("", None), "");
    assert_eq!(indent("\n", None), "");
    assert_eq!(indent("\n\n", None), "\n");
    assert_eq!(indent("\na", None), "\n    a");
    assert_eq!(indent("x\ny", Some("> ")), "> x\n> y");
    assert_eq!(indent("x\ny", Some("")), "x\ny");
    assert_eq!(indent("größe\n日本", Some("\t")), "\tgröße\n\t日本");
}

fn expected_hex_dump(data: &[u8]) -> String {
    let mut lines = Vec::new();
    let mut offset = 0;
    for chunk in data.chunks(24) {
        let hexdump: String =
            chunk.iter().map(|&b| format!("{:02X}", b)).collect::<Vec<_>>().join(" ");
        let padded = format!("{}{}", hexdump, "   ".repeat(24 - chunk.len()));
        let printable: String =
            chunk.iter().map(|&b| if b >= 0x20 && b < 0x7F { b as char } else { '.' }).collect();
        lines.push(format!("{:04x}   {}  {}", offset, padded, printable));
        offset += chunk.len();
    }
    lines.join("\n")
}

#[test]
fn hex_dump_lines() {
    assert_eq!(hex_dump(b""), "");
    let one = hex_dump(b"A");
    assert_eq!(one, format!("0000   41{}  A", " ".repeat(69)));
    assert_eq!(one, expected_hex_dump(b"A"));
    let full: Vec<u8> = (0u8..24).collect();
    assert_eq!(hex_dump(&full), expected_hex_dump(&full));
    assert!(!hex_dump(&full).contains('\n'));
    let more: Vec<u8> = (0u8..=255).collect();
    let dump = hex_dump(&more);
    assert_eq!(dump, expected_hex_dump(&more));
    assert_eq!(dump.lines().count(), 11);
    assert!(dump.lines().nth(1).unwrap().starts_with("0018   18 19 1A"));
    assert!(dump.lines().nth(10).unwrap().starts_with("00f0   F0 F1"));
    let text = b"Hello, world! \x7f\x80~ ";
    assert_eq!(hex_dump(text), expected_hex_dump(text));
}

#[test]
fn hex_dump_offsets_beyond_four_digits() {
    // 2731 full lines and one of 16 bytes, which begins at offset 65544
    let big = vec![0u8; 0x10000 + 24];
    let dump = hex_dump(&big);
    assert_eq!(dump, expected_hex_dump(&big));
    assert!(dump.lines().nth(2730).unwrap().starts_with("fff0   00 "));
    assert!(dump.lines().last().unwrap().starts_with("10008   00 "));
}

#[test]
fn text_questions() {
    assert!(same_text("chunk", "chunk"));
    assert!(!same_text("chunk", "chunks"));
    assert!(!same_text("", "a"));
    assert!(contains_text("an ERROR here", "ERROR"));
    assert!(contains_text("ERROR", "ERROR"));
    assert!(!contains_text("ERRO", "ERROR"));
    assert!(!contains_text("error", "ERROR"));
    assert!(contains_text("abc", ""));
    assert!(contains_text("", ""));
    assert!(contains_text("aab", "ab"));
    assert!(contains_text("日本語", "本"));
    assert_eq!(count_lines(""), 0);
    assert_eq!(count_lines("a"), 1);
    assert_eq!(count_lines("a\n"), 1);
    assert_eq!(count_lines("a\nb"), 2);
    assert_eq!(count_lines("\n\n"), 2);
    assert_eq!(count_lines("a\r\nb\nc"), 3);
    assert_eq!(first_word("int32"), "int32");
    assert_eq!(first_word("  packed int32  "), "packed");
    assert_eq!(first_word("packed\tint32"), "packed");
    assert_eq!(first_word("enum\u{3000}x"), "enum");
    assert_eq!(first_word("x1 y"), "x1");
    assert_eq!(first_word(""), "");
    assert_eq!(first_word("   "), "   ");
}

#[test]
fn probable_strings() {
    assert!(is_probable_string("hello world"));
    // eight letters in 24 bytes: the letters are held against the number of bytes
    assert!(!is_probable_string("日本語のテキスト"));
    assert!(!is_probable_string(""));
    // four of five bytes printable is enough, less is not
    assert!(is_probable_string("abcd-"));
    assert!(!is_probable_string("abc--"));
    // one control character in twenty bytes is let through, one in nineteen is not
    assert!(is_probable_string("abcdefghijklmnopqrs\x01"));
    assert!(!is_probable_string("abcdefghijklmnopqr\x01"));
    assert!(!is_probable_string("abcdefghijklmnopqr\x7f"));
    // tabs and line ends are no control characters and count as printable
    assert!(is_probable_string("a\tb\nc\r\n"));
    assert!(!is_probable_string("!!!!"));
    // letters of more than one byte are held against the number of bytes
    assert!(!is_probable_string("ééé"));
}

#[test]
fn varint_handlers() {
    assert_eq!(VarintHandler.parse(b"\x96\x01", "varint").unwrap(), number("150"));
    assert_eq!(VarintHandler.wire_type(), WireType::Varint);
    assert!(matches!(VarintHandler.parse(b"", "varint"), Err(Error::InvalidVarint)));
    assert_eq!(UInt64Handler.parse(b"\x00", "uint64").unwrap(), number("0"));
    assert_eq!(
        UInt64Handler.parse(b"\xff\xff\xff\xff\xff\xff\xff\xff\xff\x01", "uint64").unwrap(),
        number("18446744073709551615")
    );
    assert_eq!(UInt32Handler.parse(b"\xff\xff\xff\xff\x0f", "uint32").unwrap(), number("4294967295"));
    assert!(matches!(
        UInt32Handler.parse(b"\x80\x80\x80\x80\x10", "uint32"),
        Err(Error::InvalidVarint)
    ));
    assert_eq!(BoolHandler.parse(b"\x00", "bool").unwrap(), number("0"));
    assert_eq!(BoolHandler.parse(b"\x01", "bool").unwrap(), number("1"));
    assert!(matches!(BoolHandler.parse(b"\x02", "bool"), Err(Error::InvalidVarint)));
    assert_eq!(SInt32Handler.parse(b"\x01", "sint32").unwrap(), number("-1"));
    assert_eq!(SInt32Handler.parse(b"\x02", "sint32").unwrap(), number("1"));
    assert_eq!(SInt64Handler.parse(b"\x03", "sint64").unwrap(), number("-2"));
    assert_eq!(
        SInt64Handler.parse(b"\xff\xff\xff\xff\xff\xff\xff\xff\xff\x01", "sint64").unwrap(),
        number("-9223372036854775808")
    );
    for h in [
        SInt32Handler.wire_type(),
        SInt64Handler.wire_type(),
        Int32Handler.wire_type(),
        Int64Handler.wire_type(),
        UInt32Handler.wire_type(),
        UInt64Handler.wire_type(),
        BoolHandler.wire_type(),
    ] {
        assert_eq!(h, WireType::Varint);
    }
}

#[test]
fn signed_varint_handlers() {
    assert_eq!(Int64Handler.parse(b"\x05", "int64").unwrap(), number("5"));
    assert_eq!(
        Int64Handler.parse(b"\xff\xff\xff\xff\xff\xff\xff\xff\xff\x01", "int64").unwrap(),
        number("-1")
    );
    assert_eq!(
        Int64Handler.parse(b"\x80\x80\x80\x80\x80\x80\x80\x80\x80\x01", "int64").unwrap(),
        number("-9223372036854775808")
    );
    assert_eq!(Int32Handler.parse(b"\xff\xff\xff\xff\x07", "int32").unwrap(), number("2147483647"));
    assert!(matches!(
        Int32Handler.parse(b"\x80\x80\x80\x80\x08", "int32"),
        Err(Error::InvalidVarint)
    ));
    assert_eq!(
        Int32Handler.parse(b"\xff\xff\xff\xff\xff\xff\xff\xff\xff\x01", "int32").unwrap(),
        number("-1")
    );
    // u64::MAX - 20000 is the first value that is let through as a negative number
    let allowed = protoscan::wire::encode_varint(u64::MAX - 20000);
    assert_eq!(Int32Handler.parse(&allowed, "int32").unwrap(), number("-20001"));
    let refused = protoscan::wire::encode_varint(u64::MAX - 20001);
    assert!(matches!(Int32Handler.parse(&refused, "int32"), Err(Error::InvalidVarint)));
}

#[test]
fn fixed_handlers() {
    assert_eq!(Fixed32Handler.parse(&[1, 0, 0, 0], "fixed32").unwrap(), number("1"));
    assert_eq!(Fixed32Handler.parse(&[0xff, 0xff, 0xff, 0xff], "fixed32").unwrap(), number("-1"));
    assert_eq!(
        Fixed32Handler.parse(&[0, 0, 0, 0x80], "fixed32").unwrap(),
        number("-2147483648")
    );
    assert_eq!(
        SFixed32Handler.parse(&[0xff, 0xff, 0xff, 0xff], "sfixed32").unwrap(),
        number("4294967295")
    );
    assert_eq!(
        SFixed32Handler.parse(&[0x78, 0x56, 0x34, 0x12], "sfixed32").unwrap(),
        number("305419896")
    );
    assert!(matches!(Fixed32Handler.parse(&[1, 2, 3], "fixed32"), Err(Error::Eof)));
    assert!(matches!(SFixed32Handler.parse(&[1, 2, 3, 4, 5], "sfixed32"), Err(Error::Eof)));
    assert_eq!(Fixed64Handler.parse(&[0xff; 8], "fixed64").unwrap(), number("-1"));
    assert_eq!(
        Fixed64Handler.parse(&[0, 0, 0, 0, 0, 0, 0, 0x80], "fixed64").unwrap(),
        number("-9223372036854775808")
    );
    assert_eq!(
        Fixed64Handler.parse(&[0xef, 0xcd, 0xab, 0x89, 0x67, 0x45, 0x23, 0x01], "fixed64").unwrap(),
        number("81985529216486895")
    );
    assert_eq!(
        SFixed64Handler.parse(&[0xff; 8], "sfixed64").unwrap(),
        number("18446744073709551615")
    );
    assert!(matches!(Fixed64Handler.parse(&[0; 4], "fixed64"), Err(Error::Eof)));
    assert!(matches!(SFixed64Handler.parse(&[0; 9], "sfixed64"), Err(Error::Eof)));
    assert_eq!(Fixed32Handler.wire_type(), WireType::Bit32);
    assert_eq!(SFixed32Handler.wire_type(), WireType::Bit32);
    assert_eq!(Fixed64Handler.wire_type(), WireType::Bit64);
    assert_eq!(SFixed64Handler.wire_type(), WireType::Bit64);
}

#[test]
fn chunk_handlers() {
    assert_eq!(StringHandler.parse(b"abc", "string").unwrap(), "\x1b[32m\"abc\"\x1b[m");
    assert_eq!(
        StringHandler.parse("größe".as_bytes(), "string").unwrap(),
        "\x1b[32m\"größe\"\x1b[m"
    );
    assert_eq!(StringHandler.parse(b"", "string").unwrap(), "\x1b[32m\"\"\x1b[m");
    assert!(matches!(StringHandler.parse(b"\xff\xfe", "string"), Err(Error::Eof)));
    assert!(matches!(StringHandler.parse(b"\xc3", "string"), Err(Error::Eof)));
    assert_eq!(BytesHandler.parse(b"", "bytes").unwrap(), "bytes (0)");
    assert_eq!(
        BytesHandler.parse(b"AB", "bytes").unwrap(),
        format!("bytes (2)\n    0000   41 42{}  AB", " ".repeat(66))
    );
    let long: Vec<u8> = (0u8..30).collect();
    assert_eq!(
        BytesHandler.parse(&long, "bytes").unwrap(),
        format!("bytes (30)\n{}", indent(&expected_hex_dump(&long), None))
    );
    assert_eq!(ChunkHandler.parse(b"", "chunk").unwrap(), "empty chunk");
    assert_eq!(ChunkHandler.parse(b"hello", "chunk").unwrap(), "\x1b[32m\"hello\"\x1b[m");
    // no text, but a message to the relaxed probe: one number field
    assert_eq!(ChunkHandler.parse(b"\x08\x01", "chunk").unwrap(), "message (2 bytes)");
    // no text and no message
    assert_eq!(ChunkHandler.parse(b"\x00\x01\xff", "chunk").unwrap(), "bytes ([0, 1, 255])");
    assert_eq!(ChunkHandler.parse(b"\x00", "chunk").unwrap(), "bytes ([0])");
    assert_eq!(StringHandler.wire_type(), WireType::Chunk);
    assert_eq!(BytesHandler.wire_type(), WireType::Chunk);
    assert_eq!(ChunkHandler.wire_type(), WireType::Chunk);
}
