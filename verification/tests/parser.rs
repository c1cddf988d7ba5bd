use protoscan::codec::Error;
use protoscan::parser::{parse_main, FieldInfo, Native, Parser, TypeInfo};
use protoscan::types::{
    Bit32Handler, Bit64Handler, DoubleHandler, FloatHandler, TypeHandler, WireType,
};

/// Writes a floating-point number out with its sign.
fn float_text(bits: u64, wide: bool) -> String {
    if wide {
        format!("{:+#?}", f64::from_bits(bits))
    } else {
        format!("{:+#?}", f32::from_bits(bits as u32))
    }
}

/// Another way to write floating-point numbers out.
fn bare_float_text(bits: u64, wide: bool) -> String {
    if wide {
        format!("{}", f64::from_bits(bits))
    } else {
        format!("{}", f32::from_bits(bits as u32))
    }
}

fn key(n: u32) -> String {
    format!("\x1b[1m\x1b[34m{}\x1b[m\x1b[m", n)
}

fn number(text: &str) -> String {
    format!("\x1b[1m\x1b[33m{}\x1b[m\x1b[m", text)
}

fn quoted(text: &str) -> String {
    format!("\x1b[32m\"{}\"\x1b[m", text)
}

fn field(key: u32, type_str: &str, field_str: &str) -> FieldInfo {
    FieldInfo { key, type_str: type_str.to_string(), field_str: field_str.to_string() }
}

#[test]
fn new_parser_knows_the_handlers_of_the_library() {
    let parser = Parser::new(float_text);
    assert!(!parser.wire_types_not_matching);
    let names: Vec<&str> = parser.native_types.iter().map(|n| n.name.as_str()).collect();
    assert_eq!(
        names,
        vec![
            "varint", "int32", "int64", "uint32", "uint64", "sint32", "sint64", "bool", "enum",
            "32bit", "64bit", "chunk", "bytes", "string", "message", "packed", "float", "double",
            "fixed32", "sfixed32", "fixed64", "sfixed64"
        ]
    );
    let types: Vec<&str> = parser.types.iter().map(|t| t.name.as_str()).collect();
    assert_eq!(types, vec!["message", "root"]);
    assert!(parser.types.iter().all(|t| t.fields.is_empty()));
}

#[test]
fn match_native_type_goes_by_the_first_word() {
    let parser = Parser::new(float_text);
    assert_eq!(parser.match_native_type("int32").wire_type(), WireType::Varint);
    assert_eq!(parser.match_native_type("string").wire_type(), WireType::Chunk);
    assert_eq!(parser.match_native_type("fixed64 packed").wire_type(), WireType::Bit64);
    assert_eq!(parser.match_native_type("  sfixed32").wire_type(), WireType::Bit32);
    // an unknown name falls back on the handler for messages
    assert_eq!(parser.match_native_type("Position").wire_type(), WireType::Chunk);
    assert_eq!(parser.match_native_type("").wire_type(), WireType::Chunk);
    assert_eq!(
        parser.match_native_type("sint64").parse(b"\x03", "sint64").unwrap(),
        number("-2")
    );
    assert_eq!(parser.match_native_type("enum").parse(b"\x03", "enum").unwrap(), number("3"));
}

#[test]
fn registered_handlers_replace_and_extend() {
    let mut parser = Parser::new(float_text as fn(u64, bool) -> String);
    assert_eq!(parser.native_types.len(), 22);
    parser.register_native_type("money", Native::SInt64);
    assert_eq!(parser.native_types.len(), 23);
    assert_eq!(parser.native_types[22].name, "money");
    assert_eq!(parser.match_native_type("money").parse(b"\x03", "money").unwrap(), number("-2"));
    parser.register_native_type("bool", Native::Text);
    assert_eq!(parser.native_types.len(), 23);
    assert_eq!(parser.native_types[7].name, "bool");
    assert_eq!(parser.match_native_type("bool").wire_type(), WireType::Chunk);
    parser.register_native_type(
        "float",
        Native::Float(FloatHandler { float_text: bare_float_text as fn(u64, bool) -> String }),
    );
    assert_eq!(parser.native_types.len(), 23);
    assert_eq!(
        parser.match_native_type("float").parse(&[0, 0, 0x80, 0x3f], "float").unwrap(),
        number("1")
    );
}

#[test]
fn float_handlers() {
    let one = [0u8, 0, 0x80, 0x3f];
    assert_eq!(Bit32Handler { float_text }.parse(&one, "32bit").unwrap(), "0x3F800000 / 1065353216 / +1.0");
    assert_eq!(
        Bit32Handler { float_text }.parse(&[0xff, 0xff, 0xff, 0xff], "32bit").unwrap(),
        format!("0xFFFFFFFF / -1 / {:+#?}", f32::from_bits(u32::MAX))
    );
    assert_eq!(
        Bit32Handler { float_text }.parse(&[1, 0, 0, 0], "32bit").unwrap(),
        format!("0x00000001 / 1 / {:+#?}", f32::from_bits(1))
    );
    assert!(matches!(Bit32Handler { float_text }.parse(&[1, 2, 3], "32bit"), Err(Error::Eof)));
    let minus_two = (-2.0f64).to_le_bytes();
    assert_eq!(
        Bit64Handler { float_text }.parse(&minus_two, "64bit").unwrap(),
        "0xC000000000000000 / -4611686018427387904 / -2.0"
    );
    assert_eq!(
        Bit64Handler { float_text }.parse(&[0x10, 0, 0, 0, 0, 0, 0, 0], "64bit").unwrap(),
        format!("0x0000000000000010 / 16 / {:+#?}", f64::from_bits(16))
    );
    assert!(matches!(Bit64Handler { float_text }.parse(&one, "64bit"), Err(Error::Eof)));
    assert_eq!(FloatHandler { float_text }.parse(&one, "float").unwrap(), number("+1.0"));
    assert_eq!(
        FloatHandler { float_text }.parse(&1.5f32.to_le_bytes(), "float").unwrap(),
        number("+1.5")
    );
    assert!(matches!(FloatHandler { float_text }.parse(&minus_two, "float"), Err(Error::Eof)));
    assert_eq!(DoubleHandler { float_text }.parse(&minus_two, "double").unwrap(), number("-2.0"));
    assert_eq!(
        DoubleHandler { float_text }.parse(&0.1f64.to_le_bytes(), "double").unwrap(),
        number("+0.1")
    );
    assert!(matches!(DoubleHandler { float_text }.parse(&one, "double"), Err(Error::Eof)));
    assert_eq!(Bit32Handler { float_text }.wire_type(), WireType::Bit32);
    assert_eq!(Bit64Handler { float_text }.wire_type(), WireType::Bit64);
    assert_eq!(FloatHandler { float_text }.wire_type(), WireType::Bit32);
    assert_eq!(DoubleHandler { float_text }.wire_type(), WireType::Bit64);
}

#[test]
fn wire_type_names() {
    let parser = Parser::new(float_text);
    let names: Vec<&str> = (0u8..7).map(|w| parser.get_wire_type_name(w)).collect();
    assert_eq!(
        names,
        vec!["varint", "64bit", "chunk", "startgroup", "endgroup", "32bit", "message"]
    );
    assert_eq!(parser.get_wire_type_name(255), "message");
}

#[test]
fn field_type_info() {
    let mut parser = Parser::new(float_text);
    assert_eq!(parser.get_field_type_info("root", 1), ("message".to_string(), String::new()));
    assert_eq!(parser.get_field_type_info("nowhere", 1), ("message".to_string(), String::new()));
    parser.types[1].fields.push(field(1, "int32", "count"));
    parser.types[1].fields.push(field(2, "string", "name"));
    parser.types.push(TypeInfo { name: "Point".to_string(), fields: vec![field(1, "sint32", "x")] });
    assert_eq!(parser.get_field_type_info("root", 1), ("int32".to_string(), "count".to_string()));
    assert_eq!(parser.get_field_type_info("root", 2), ("string".to_string(), "name".to_string()));
    assert_eq!(parser.get_field_type_info("root", 3), ("message".to_string(), String::new()));
    assert_eq!(parser.get_field_type_info("Point", 1), ("sint32".to_string(), "x".to_string()));
    assert_eq!(parser.get_field_type_info("message", 1), ("message".to_string(), String::new()));
}

#[test]
fn shows_numbers_of_unknown_fields() {
    let mut parser = Parser::new(float_text);
    let shown = parser.parse_message(b"\x08\x96\x01", "root").unwrap();
    assert_eq!(shown, format!("root:\n    {} <varint> = {}", key(1), number("150")));
    let shown = parser.parse_message(b"\x08\x01\x10\x02", "root").unwrap();
    assert_eq!(
        shown,
        format!(
            "root:\n    {} <varint> = {}\n    {} <varint> = {}",
            key(1),
            number("1"),
            key(2),
            number("2")
        )
    );
    assert!(!parser.wire_types_not_matching);
}

#[test]
fn shows_an_empty_message() {
    let mut parser = Parser::new(float_text);
    assert_eq!(parser.parse_message(b"", "root").unwrap(), "root:\n    empty");
    assert_eq!(parser.parse_message(b"", "Thing").unwrap(), "Thing:\n    empty");
}

#[test]
fn shows_group_markers() {
    let mut parser = Parser::new(float_text);
    let shown = parser.parse_message(b"\x0b\x0c", "root").unwrap();
    assert_eq!(
        shown,
        format!(
            "root:\n    {} <startgroup> = group (end {})\n    {} <endgroup> = group (end {})",
            key(1),
            key(1),
            key(1),
            key(1)
        )
    );
    assert_eq!(
        parser.handle_group_type(7, 4).unwrap().unwrap(),
        format!("{} <endgroup> = group (end {})", key(7), key(7))
    );
}

#[test]
fn shows_text_and_known_fields() {
    let mut parser = Parser::new(float_text);
    parser.types[1].fields.push(field(1, "sint32", "delta"));
    parser.types[1].fields.push(field(2, "string", "name"));
    let shown = parser.parse_message(b"\x08\x03\x12\x02hi", "root").unwrap();
    assert_eq!(
        shown,
        format!("root:\n    {} delta = {}\n    {} name = {}", key(1), number("-2"), key(2), quoted("hi"))
    );
    assert!(!parser.wire_types_not_matching);
}

#[test]
fn a_short_chunk_that_reads_as_a_message_is_shown_as_one() {
    let mut parser = Parser::new(float_text);
    // field 1: a chunk of three bytes that hold the number field 1 = 150
    let shown = parser.parse_message(b"\x0a\x03\x08\x96\x01", "root").unwrap();
    assert_eq!(
        shown,
        format!("root:\n    {} <chunk> = message:\n        {} <varint> = {}", key(1), key(1), number("150"))
    );
    // a chunk of two bytes is too short to be tried
    let shown = parser.parse_message(b"\x0a\x02\x08\x01", "root").unwrap();
    assert_eq!(shown, format!("root:\n    {} <chunk> = message (2 bytes)", key(1)));
    // text stays text where it does not read as a message
    let shown = parser.parse_message(b"\x0a\x05hello", "root").unwrap();
    assert_eq!(shown, format!("root:\n    {} <chunk> = {}", key(1), quoted("hello")));
}

#[test]
fn notes_wire_types_that_do_not_match() {
    let mut parser = Parser::new(float_text);
    // the same field as a number and as a chunk
    parser.parse_message(b"\x08\x01\x0a\x01a", "root").unwrap();
    assert!(parser.wire_types_not_matching);
    let mut parser = Parser::new(float_text);
    parser.parse_message(b"\x08\x01\x08\x02", "root").unwrap();
    assert!(!parser.wire_types_not_matching);
    // a field known as a string that comes as a number
    let mut parser = Parser::new(float_text);
    parser.types[1].fields.push(field(1, "string", "name"));
    let shown = parser.parse_message(b"\x08\x41", "root").unwrap();
    assert_eq!(shown, format!("root:\n    {} name = {}", key(1), quoted("A")));
    assert!(parser.wire_types_not_matching);
}

#[test]
fn handler_failures_count_as_invalid_numbers() {
    let mut parser = Parser::new(float_text);
    parser.types[1].fields.push(field(1, "bool", "flag"));
    assert!(matches!(parser.parse_message(b"\x08\x02", "root"), Err(Error::InvalidVarint)));
    let mut parser = Parser::new(float_text);
    parser.types[1].fields.push(field(1, "string", "name"));
    assert!(matches!(parser.parse_message(b"\x0a\x01\xff", "root"), Err(Error::InvalidVarint)));
}

#[test]
fn reading_failures_are_handed_on() {
    let mut parser = Parser::new(float_text);
    assert!(matches!(parser.parse_message(b"\x08", "root"), Err(Error::Eof)));
    assert!(matches!(parser.parse_message(b"\x0a\x05ab", "root"), Err(Error::Eof)));
    assert!(matches!(parser.parse_message(b"\x0d\x01", "root"), Err(Error::Eof)));
    assert!(matches!(parser.parse_message(b"\x0e", "root"), Err(Error::InvalidWireType)));
    assert!(matches!(parser.parse_message(b"\x80\x00", "root"), Err(Error::InvalidVarint)));
    assert!(matches!(parser.parse_message(b"\x88", "root"), Err(Error::Eof)));
}

#[test]
fn nothing_is_shown_below_ten_messages() {
    let mut parser = Parser::new(float_text);
    assert_eq!(parser.parse_message_with_depth(b"\x08\x01", "root", 11).unwrap(), "recursion depth exceeded");
    assert_eq!(
        parser.parse_message_with_depth(b"\x08\x01", "root", 10).unwrap(),
        format!("root:\n    {} <varint> = {}", key(1), number("1"))
    );
}

#[test]
fn shows_fixed_fields_of_unknown_type_in_three_readings() {
    let mut parser = Parser::new(float_text);
    let shown = parser.parse_message(b"\x0d\x00\x00\x80\x3f", "root").unwrap();
    assert_eq!(shown, format!("root:\n    {} <32bit> = 0x3F800000 / 1065353216 / +1.0", key(1)));
    let mut data = vec![0x11];
    data.extend_from_slice(&(-2.0f64).to_le_bytes());
    let shown = parser.parse_message(&data, "root").unwrap();
    assert_eq!(
        shown,
        format!("root:\n    {} <64bit> = 0xC000000000000000 / -4611686018427387904 / -2.0", key(2))
    );
    assert!(!parser.wire_types_not_matching);
}

#[test]
fn shows_known_floats() {
    let mut parser = Parser::new(float_text);
    parser.types[1].fields.push(field(1, "float", "ratio"));
    parser.types[1].fields.push(field(2, "double", "weight"));
    let mut data = vec![0x0d];
    data.extend_from_slice(&0.5f32.to_le_bytes());
    data.push(0x11);
    data.extend_from_slice(&(-2.0f64).to_le_bytes());
    let shown = parser.parse_message(&data, "root").unwrap();
    assert_eq!(
        shown,
        format!("root:\n    {} ratio = {}\n    {} weight = {}", key(1), number("+0.5"), key(2), number("-2.0"))
    );
    assert!(!parser.wire_types_not_matching);
}

#[test]
fn parse_main_shows_the_root_message() {
    assert_eq!(
        parse_main(b"\x08\x96\x01", float_text).unwrap(),
        format!("root:\n    {} <varint> = {}", key(1), number("150"))
    );
    assert_eq!(parse_main(b"", float_text).unwrap(), "root:\n    empty");
    assert!(matches!(parse_main(b"\x08", float_text), Err(Error::Eof)));
}
