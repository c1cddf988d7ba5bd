use protoscan::classifier::guess_is_message;
use protoscan::context::{MessageContext, ParserContext};
use protoscan::cursor::DataReader;
use protoscan::tokenizer::{find_next_chunk, read_next_token_raw, ProtobufParser};
use protoscan::wire::Error;

const PROTOBUF_EXAMPLE: &[u8] = b"\x08\x8f\x81\xeb\xcf\xe0*\x12\x08kotlin46:\x05\x00\x01\x03\x04\x07B\x00H\xfa\x01U\x00\x00HCr\n\n\x08POKECOINr\x0c\n\x08STARDUST\x10d";

/// A varint, a fixed32, the chunk "abc", a fixed64 and the chunk "hi".
const FLAT_STREAM: &[u8] =
    b"\x08\x96\x01\x15\x01\x02\x03\x04\x1a\x03abc\x21\x01\x02\x03\x04\x05\x06\x07\x08\x2a\x02hi";

fn tokens_of_slices(slices: &[&[u8]]) -> (Vec<Vec<u8>>, ParserContext) {
    let mut context = ParserContext::new();
    let mut tokens: Vec<Vec<u8>> = Vec::new();
    for slice in slices {
        let mut parser = ProtobufParser { reader: DataReader::new(slice), context };
        while let Some(token) = parser.next_token() {
            tokens.push(token.to_vec());
        }
        context = parser.context;
    }
    (tokens, context)
}

#[test]
fn test_guess_is_message() {
    assert_eq!(guess_is_message(DataReader::new(b"\x0a\x08POKECOIN")), Ok(true));
    assert_eq!(guess_is_message(DataReader::new(b"POKECOIN")), Ok(false));
}

#[test]
fn test_find_next_chunk() {
    let mut message_context = MessageContext::new(0, None);
    let mut data = DataReader::new(b"\x0a\x07\x53\x55\x43\x43\x45\x53\x53");
    let result = find_next_chunk(&mut data, &mut message_context);
    assert!(matches!(result, Ok(Some(7))), "{result:?}");

    let mut data = DataReader::new(PROTOBUF_EXAMPLE);
    let result = find_next_chunk(&mut data, &mut message_context);
    assert!(matches!(result, Ok(Some(8))), "{result:?}");
    let mut data = DataReader::new(&PROTOBUF_EXAMPLE[..3]);
    let result = find_next_chunk(&mut data, &mut message_context);
    assert!(matches!(result, Err(Error::VarintEof)), "{result:?}");
    let mut data = DataReader::new(&PROTOBUF_EXAMPLE[..6]);
    let result = find_next_chunk(&mut data, &mut message_context);
    assert!(matches!(result, Err(Error::VarintEof)), "{result:?}");
    let mut data = DataReader::new(&PROTOBUF_EXAMPLE[..7]);
    let result = find_next_chunk(&mut data, &mut message_context);
    assert!(matches!(result, Ok(None)), "{result:?}");
}

#[test]
fn test_parser() {
    let mut parser =
        ProtobufParser { reader: DataReader::new(PROTOBUF_EXAMPLE), context: ParserContext::new() };
    assert_eq!(parser.next_token(), Some(b"kotlin46" as &[u8]));
    assert_eq!(parser.next_token(), Some(b"\x00\x01\x03\x04\x07" as &[u8]));
    assert_eq!(parser.next_token(), Some(b"" as &[u8]));
    assert_eq!(parser.next_token(), Some(b"POKECOIN" as &[u8]));
    assert_eq!(parser.next_token(), Some(b"STARDUST" as &[u8]));
    assert_eq!(parser.next_token(), None);
}

#[test]
fn end_to_end_first_tokens_in_order() {
    let stream: &[u8] = b"\x08\x8f\x81\xeb\xcf\xe0\x2a\x12\x08kotlin46\x3a\x05\x00\x01\x03\x04\x07\x42\x00\x4a\x02ok";
    let mut parser =
        ProtobufParser { reader: DataReader::new(stream), context: ParserContext::new() };
    assert_eq!(parser.next_token(), Some(b"kotlin46" as &[u8]));
    assert_eq!(parser.next_token(), Some(&[0x00u8, 0x01, 0x03, 0x04, 0x07][..]));
    assert_eq!(parser.next_token(), Some(&[][..]));
    assert_eq!(parser.next_token(), Some(b"ok" as &[u8]));
    assert_eq!(parser.next_token(), None);
    assert_eq!(parser.context.error(), None);
    assert_eq!(parser.context.depth(), 1);
}

#[test]
fn strict_probe_wants_a_control_character() {
    assert_eq!(guess_is_message(DataReader::new(b"\x0a\x08POKECOIN")), Ok(true));
    assert_eq!(guess_is_message(DataReader::new(b"POKECOIN")), Ok(false));
    // two varint fields, no byte below 0x20 in any window
    assert_eq!(guess_is_message(DataReader::new(b"\x20\x21\x28\x29")), Ok(false));
    // the line feed does not count as a control character
    assert_eq!(guess_is_message(DataReader::new(b"\x50\x0a")), Ok(false));
    assert_eq!(guess_is_message(DataReader::new(b"\x50\x0b")), Ok(true));
}

#[test]
fn strict_probe_counts_odd_values() {
    // one empty chunk: one odd value is let through
    assert_eq!(guess_is_message(DataReader::new(b"\x0a\x00")), Ok(true));
    // two empty chunks: two odd values are not
    assert_eq!(guess_is_message(DataReader::new(b"\x0a\x00\x12\x00")), Ok(false));
    // a 64-bit value that ends in 0x00 or 0xff is ordinary
    assert_eq!(guess_is_message(DataReader::new(b"\x09\x01\x02\x03\x04\x05\x06\x07\x00\x0a\x00")), Ok(true));
    assert_eq!(guess_is_message(DataReader::new(b"\x09\x01\x02\x03\x04\x05\x06\x07\xff\x0a\x00")), Ok(true));
    // one that ends otherwise is odd
    assert_eq!(guess_is_message(DataReader::new(b"\x09\x01\x02\x03\x04\x05\x06\x07\x08\x0a\x00")), Ok(false));
}

#[test]
fn strict_probe_chunk_limit_is_one_hundred() {
    let mut body = vec![0x0a, 100];
    body.extend(std::iter::repeat(b'x').take(100));
    body.extend([0x12, 0x00]);
    // a chunk of 100 bytes is ordinary, so the empty chunk is the only odd value
    assert_eq!(guess_is_message(DataReader::new(&body)), Ok(true));
    let mut body = vec![0x0a, 101];
    body.extend(std::iter::repeat(b'x').take(101));
    body.extend([0x12, 0x00]);
    assert_eq!(guess_is_message(DataReader::new(&body)), Ok(false));
}

#[test]
fn strict_probe_reads_three_fields_only() {
    // three good fields, then a tag with field number 0
    assert_eq!(guess_is_message(DataReader::new(b"\x08\x01\x10\x02\x18\x03\x00")), Ok(true));
    // the bad tag as third field is found
    assert_eq!(guess_is_message(DataReader::new(b"\x08\x01\x10\x02\x00")), Err(Error::InvalidData));
}

#[test]
fn strict_probe_hands_on_failures() {
    assert_eq!(guess_is_message(DataReader::new(b"")), Err(Error::VarintEof));
    assert_eq!(guess_is_message(DataReader::new(b"\x08")), Err(Error::VarintEof));
    assert_eq!(guess_is_message(DataReader::new(b"\x0d\x01\x02")), Err(Error::InvalidData));
    assert_eq!(guess_is_message(DataReader::new(b"\x09\x01\x02")), Err(Error::InvalidData));
    assert_eq!(guess_is_message(DataReader::new(b"\x0a\x05abc")), Err(Error::InvalidData));
    assert_eq!(guess_is_message(DataReader::new(b"\x0f")), Err(Error::InvalidData));
}

#[test]
fn context_stack_operations() {
    let mut context = ParserContext::new();
    assert_eq!(context.depth(), 1);
    assert_eq!(context.peek(), MessageContext::new(0, None));
    assert_eq!(context.pop(), None);
    context.push(5, 20);
    context.push(9, 12);
    assert_eq!(context.depth(), 3);
    assert_eq!(context.peek(), MessageContext::new(9, Some(12)));
    assert!(context.can_rebase(3));
    assert!(!context.can_rebase(4));
    context.rebase(3);
    assert_eq!(context.pop(), Some(MessageContext::new(0, Some(0))));
    assert_eq!(context.pop(), Some(MessageContext::new(0, Some(12))));
    assert_eq!(context.pop(), None);
    assert_eq!(context.depth(), 1);
}

#[test]
fn innermost_context_can_be_changed_in_place() {
    let mut context = ParserContext::new();
    context.push(5, 20);
    context.peek_mut().shift(2);
    assert_eq!(context.peek(), MessageContext::new(0, Some(13)));
    assert_eq!(context.depth(), 2);
    assert_eq!(context.pop(), Some(MessageContext::new(0, Some(13))));
    assert_eq!(context.peek(), MessageContext::new(0, None));
}

#[test]
fn message_context_shift() {
    let mut bounded = MessageContext::new(4, Some(30));
    bounded.shift(6);
    assert_eq!(bounded, MessageContext::new(0, Some(20)));
    let mut root = MessageContext::new(0, None);
    root.shift(6);
    assert_eq!(root, MessageContext::new(0, None));
}

#[test]
fn prepare_for_next_slice_keeps_a_given_up_stream() {
    let mut context = ParserContext::new();
    context.prepare_for_next_slice(0, Some(Error::VarintEof));
    assert_eq!(context.error(), Some(Error::VarintEof));
    context.prepare_for_next_slice(0, Some(Error::InvalidData));
    assert_eq!(context.error(), Some(Error::InvalidData));
    context.prepare_for_next_slice(0, None);
    assert_eq!(context.error(), Some(Error::InvalidData));
}

#[test]
fn backtracking_yields_the_whole_chunk() {
    // the body passes the probe (three good fields, control characters), but its fourth field
    // has field number 0
    let body: &[u8] = b"\x08\x01\x10\x02\x18\x03\x00\x05";
    let mut stream = vec![0x0a, body.len() as u8];
    stream.extend_from_slice(body);
    stream.extend_from_slice(b"\x12\x02hi");
    let mut parser =
        ProtobufParser { reader: DataReader::new(&stream), context: ParserContext::new() };
    assert_eq!(parser.next_token(), Some(body));
    assert_eq!(parser.context.depth(), 1);
    assert_eq!(parser.reader.position(), 2 + body.len());
    assert_eq!(parser.next_token(), Some(b"hi" as &[u8]));
    assert_eq!(parser.next_token(), None);
    assert_eq!(parser.context.error(), None);
}

#[test]
fn backtracking_after_a_wire_type_violation() {
    // fourth field: wire-type code 7
    let body: &[u8] = b"\x08\x01\x10\x02\x18\x03\x0f";
    let mut stream = vec![0x0a, body.len() as u8];
    stream.extend_from_slice(body);
    let mut parser =
        ProtobufParser { reader: DataReader::new(&stream), context: ParserContext::new() };
    assert_eq!(parser.next_token(), Some(body));
    assert_eq!(parser.next_token(), None);
}

#[test]
fn backtracking_after_overrunning_the_chunk() {
    // the fourth field of the body runs two bytes past the end of the chunk
    let body: &[u8] = b"\x08\x01\x10\x02\x18\x03\x25\x01\x02";
    let mut stream = vec![0x0a, body.len() as u8];
    stream.extend_from_slice(body);
    stream.extend_from_slice(b"\x03\x04\x08\x01");
    let mut parser =
        ProtobufParser { reader: DataReader::new(&stream), context: ParserContext::new() };
    assert_eq!(parser.next_token(), Some(body));
    assert_eq!(parser.reader.position(), 2 + body.len());
}

#[test]
fn inner_tokens_come_before_the_chunk_is_taken_back() {
    // body: a chunk "abc", two numbers, then field number 0
    let body: &[u8] = b"\x0a\x03abc\x10\x02\x18\x03\x00";
    let mut stream = vec![0x0a, body.len() as u8];
    stream.extend_from_slice(body);
    let mut parser =
        ProtobufParser { reader: DataReader::new(&stream), context: ParserContext::new() };
    assert_eq!(parser.next_token(), Some(b"abc" as &[u8]));
    assert_eq!(parser.context.depth(), 2);
    assert_eq!(parser.next_token(), Some(body));
    assert_eq!(parser.context.depth(), 1);
    assert_eq!(parser.next_token(), None);
}

#[test]
fn nested_message_that_parses_yields_only_its_leaves() {
    let stream: &[u8] = b"\x0a\x0a\x0a\x03abc\x12\x03def\x12\x02hi";
    let mut parser =
        ProtobufParser { reader: DataReader::new(stream), context: ParserContext::new() };
    assert_eq!(parser.next_token(), Some(b"abc" as &[u8]));
    assert_eq!(parser.next_token(), Some(b"def" as &[u8]));
    assert_eq!(parser.next_token(), Some(b"hi" as &[u8]));
    assert_eq!(parser.context.depth(), 1);
    assert_eq!(parser.next_token(), None);
}

#[test]
fn whole_flat_stream() {
    let (tokens, context) = tokens_of_slices(&[FLAT_STREAM]);
    assert_eq!(tokens, vec![b"abc".to_vec(), b"hi".to_vec()]);
    assert_eq!(context.error(), None);
}

#[test]
fn resumption_at_field_boundaries_and_inside_numbers() {
    let (whole, _) = tokens_of_slices(&[FLAT_STREAM]);
    // between fields, inside the varint, behind the tag of a number, inside the fixed fields
    for split in [0usize, 1, 2, 3, 4, 5, 6, 7, 8, 13, 14, 15, 18, 21, 22, FLAT_STREAM.len()] {
        let (head, tail) = FLAT_STREAM.split_at(split);
        let (tokens, context) = tokens_of_slices(&[head, tail]);
        assert_eq!(tokens, whole, "split at {split}");
        assert_eq!(context.error(), None, "split at {split}");
    }
}

#[test]
fn resumption_state_after_the_first_slice() {
    let (_, context) = tokens_of_slices(&[&FLAT_STREAM[..2]]);
    assert_eq!(context.error(), Some(Error::VarintEof));
    let (_, context) = tokens_of_slices(&[&FLAT_STREAM[..3]]);
    assert_eq!(context.error(), None);
    let (_, context) = tokens_of_slices(&[&FLAT_STREAM[..4]]);
    assert_eq!(context.error(), Some(Error::Eof(4)));
    let (_, context) = tokens_of_slices(&[&FLAT_STREAM[..7]]);
    assert_eq!(context.error(), Some(Error::Eof(1)));
    let (_, context) = tokens_of_slices(&[&FLAT_STREAM[..16]]);
    assert_eq!(context.error(), Some(Error::Eof(6)));
}

#[test]
fn a_chunk_cut_by_the_slice_is_skipped() {
    // "abc" lies at offsets 10 to 12; one byte of it is in the first slice
    let (head, tail) = FLAT_STREAM.split_at(11);
    let (tokens, context) = tokens_of_slices(&[head]);
    assert_eq!(tokens, Vec::<Vec<u8>>::new());
    assert_eq!(context.error(), Some(Error::Eof(2)));
    let (tokens, context) = tokens_of_slices(&[head, tail]);
    assert_eq!(tokens, vec![b"hi".to_vec()]);
    assert_eq!(context.error(), None);
}

#[test]
fn owed_bytes_carry_over_more_than_one_slice() {
    // a fixed64 field in pieces of 1 + 3 + 3 + 2 bytes, then the chunk "hi"
    let slices: [&[u8]; 4] = [b"\x21", b"\x01\x02\x03", b"\x04\x05\x06", b"\x07\x08\x2a\x02hi"];
    let (_, context) = tokens_of_slices(&slices[..1]);
    assert_eq!(context.error(), Some(Error::Eof(8)));
    let (_, context) = tokens_of_slices(&slices[..2]);
    assert_eq!(context.error(), Some(Error::Eof(5)));
    let (_, context) = tokens_of_slices(&slices[..3]);
    assert_eq!(context.error(), Some(Error::Eof(2)));
    let (tokens, context) = tokens_of_slices(&slices);
    assert_eq!(tokens, vec![b"hi".to_vec()]);
    assert_eq!(context.error(), None);
}

#[test]
fn corruption_at_the_root_is_sticky() {
    let mut context = ParserContext::new();
    let mut reader = DataReader::new(b"\x0a\x02hi\x00\x0a\x02no");
    assert_eq!(read_next_token_raw(&mut reader, &mut context), Some(b"hi" as &[u8]));
    assert_eq!(read_next_token_raw(&mut reader, &mut context), None);
    assert_eq!(context.error(), Some(Error::InvalidData));
    // the rest of the slice is abandoned
    assert_eq!(read_next_token_raw(&mut reader, &mut context), None);
    // and so is every later slice, however well formed
    for slice in [&b"\x0a\x03abc"[..], &b"\x12\x02hi"[..], &b""[..]] {
        let mut reader = DataReader::new(slice);
        assert_eq!(read_next_token_raw(&mut reader, &mut context), None);
        assert_eq!(reader.position(), 0);
        assert_eq!(context.error(), Some(Error::InvalidData));
        assert_eq!(context.depth(), 1);
    }
}

#[test]
fn reserved_field_number_at_the_root_gives_the_stream_up() {
    // field number 19000, wire type 0
    let (tokens, context) = tokens_of_slices(&[b"\xc0\xa3\x09\x01", b"\x0a\x02hi"]);
    assert_eq!(tokens, Vec::<Vec<u8>>::new());
    assert_eq!(context.error(), Some(Error::InvalidData));
}

#[test]
fn empty_slice_is_the_end_of_the_stream() {
    let (tokens, context) = tokens_of_slices(&[b""]);
    assert_eq!(tokens, Vec::<Vec<u8>>::new());
    assert_eq!(context.error(), None);
    assert_eq!(context.depth(), 1);
}
