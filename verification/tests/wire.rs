use protoscan::cursor::DataReader;
use protoscan::types::WireType;
use protoscan::wire::{
    encode_varint, read_tag, read_tagged_data, read_varint, Error, MapError, TaggedData,
};

const PROTOBUF_EXAMPLE: &[u8] = b"\x08\x8f\x81\xeb\xcf\xe0*\x12\x08kotlin46:\x05\x00\x01\x03\x04\x07B\x00H\xfa\x01U\x00\x00HCr\n\n\x08POKECOINr\x0c\n\x08STARDUST\x10d";

#[test]
fn test_read_varint() {
    let mut data = DataReader::new(b"\x01");
    let result = read_varint(&mut data);
    assert!(matches!(result, Ok(1)), "{result:?}");
    let mut data = DataReader::new(b"\x96\x01");
    let result = read_varint(&mut data);
    assert!(matches!(result, Ok(150)), "{result:?}");
    let mut data = DataReader::new(b"\xb5\x81\xd5\xc8\x06");
    let result = read_varint(&mut data);
    assert!(matches!(result, Ok(1763000501)), "{result:?}");
}

#[test]
fn test_read_tag() {
    let mut data = DataReader::new(b"\x0a");
    let result = read_tag(&mut data);
    assert!(matches!(result, Ok((1, WireType::Chunk))), "{result:?}");
    let mut data = DataReader::new(b"\x18");
    let result = read_tag(&mut data);
    assert!(matches!(result, Ok((3, WireType::Varint))), "{result:?}");
}

#[test]
fn test_read_tagged_data() {
    let mut data = DataReader::new(b"\x18\xb5\x81\xd5\xc8\x06");
    let result = read_tagged_data(&mut data);
    assert!(matches!(result, Ok(TaggedData::Others)), "{result:?}");
    let mut data = DataReader::new(b"\x0a\x07\x53\x55\x43\x43\x45\x53\x53");
    let result = read_tagged_data(&mut data);
    assert!(matches!(result, Ok(TaggedData::ChunkMetadata { length: 7 })), "{result:?}");
    let mut data = DataReader::new(b"\x0a\x00");
    let result = read_tagged_data(&mut data);
    assert!(matches!(result, Ok(TaggedData::ChunkMetadata { length: 0 })), "{result:?}");
    let mut data = DataReader::new(&PROTOBUF_EXAMPLE[..7]);
    let result = read_tagged_data(&mut data);
    assert!(matches!(result, Ok(TaggedData::Others)), "{result:?}");
}

#[test]
fn cursor_reads_in_order() {
    let mut reader = DataReader::new(b"abcdef");
    assert_eq!(reader.position(), 0);
    assert_eq!(reader.remains(), 6);
    assert!(!reader.eof());
    assert_eq!(reader.read1().unwrap(), b'a');
    assert_eq!(reader.peek(2).unwrap(), b"bc");
    assert_eq!(reader.position(), 1);
    assert_eq!(reader.read(2).unwrap(), b"bc");
    assert_eq!(reader.position(), 3);
    assert!(reader.skip(1).is_ok());
    assert_eq!(reader.remains(), 2);
    assert!(reader.seek(1).is_ok());
    assert_eq!(reader.read(5).unwrap(), b"bcdef");
    assert!(reader.eof());
}

#[test]
fn cursor_fails_without_partial_reads() {
    let mut reader = DataReader::new(b"abc");
    assert_eq!(reader.peek(4).unwrap_err().available, 3);
    assert_eq!(reader.read(4).unwrap_err().available, 3);
    assert_eq!(reader.position(), 0);
    assert_eq!(reader.seek(4).unwrap_err().available, 3);
    assert_eq!(reader.position(), 0);
    assert!(reader.seek(3).is_ok());
    assert_eq!(reader.read1().unwrap_err().available, 0);
    assert_eq!(reader.position(), 3);
}

#[test]
fn cursor_failed_skip_moves_to_the_end() {
    let mut reader = DataReader::new(b"abcde");
    assert!(reader.skip(2).is_ok());
    let e = reader.skip(7).unwrap_err();
    assert_eq!(e.available, 3);
    assert!(reader.eof());
    assert_eq!(reader.position(), 5);
}

#[test]
fn varint_of_one_byte_and_of_ten() {
    let mut data = DataReader::new(b"\x00");
    assert_eq!(read_varint(&mut data), Ok(0));
    let mut data = DataReader::new(b"\x7f\xff");
    assert_eq!(read_varint(&mut data), Ok(127));
    assert_eq!(data.position(), 1);
    let mut data = DataReader::new(b"\xff\xff\xff\xff\xff\xff\xff\xff\xff\x01");
    assert_eq!(read_varint(&mut data), Ok(u64::MAX));
    assert_eq!(data.position(), 10);
}

#[test]
fn varint_drops_bits_above_64() {
    let mut data = DataReader::new(b"\x80\x80\x80\x80\x80\x80\x80\x80\x80\x7f");
    assert_eq!(read_varint(&mut data), Ok(1u64 << 63));
    let mut data = DataReader::new(b"\x81\x80\x80\x80\x80\x80\x80\x80\x80\x02");
    assert_eq!(read_varint(&mut data), Ok(1));
}

#[test]
fn varint_truncated() {
    let mut data = DataReader::new(b"");
    assert_eq!(read_varint(&mut data), Err(Error::VarintEof));
    let mut data = DataReader::new(b"\x80\x80");
    assert_eq!(read_varint(&mut data), Err(Error::VarintEof));
    assert!(data.eof());
    let mut data = DataReader::new(b"\xff\xff\xff\xff\xff\xff\xff\xff\xff");
    assert_eq!(read_varint(&mut data), Err(Error::VarintEof));
}

#[test]
fn varint_too_long() {
    let mut data = DataReader::new(b"\xff\xff\xff\xff\xff\xff\xff\xff\xff\xff\x01");
    assert_eq!(read_varint(&mut data), Err(Error::InvalidData));
    assert_eq!(data.position(), 10);
    let mut data = DataReader::new(b"\x80\x80\x80\x80\x80\x80\x80\x80\x80\x80");
    assert_eq!(read_varint(&mut data), Err(Error::InvalidData));
}

#[test]
fn varint_round_trip_on_shortest_form() {
    let values: [u64; 12] = [
        0,
        1,
        127,
        128,
        150,
        300,
        16383,
        16384,
        1763000501,
        u32::MAX as u64,
        (1u64 << 63) - 1,
        u64::MAX,
    ];
    for v in values {
        let bytes = encode_varint(v);
        let mut data = DataReader::new(&bytes);
        assert_eq!(read_varint(&mut data), Ok(v));
        assert!(data.eof());
        assert_eq!(encode_varint(v), bytes);
    }
    assert_eq!(encode_varint(0), vec![0x00]);
    assert_eq!(encode_varint(150), vec![0x96, 0x01]);
    assert_eq!(encode_varint(1763000501), vec![0xb5, 0x81, 0xd5, 0xc8, 0x06]);
    assert_eq!(encode_varint(u64::MAX).len(), 10);
}

#[test]
fn varint_reencoding_shortens_padded_form() {
    let padded: &[u8] = b"\x96\x81\x80\x00";
    let mut data = DataReader::new(padded);
    let v = read_varint(&mut data).unwrap();
    assert_eq!(v, 150);
    assert_eq!(data.position(), 4);
    assert_eq!(encode_varint(v), vec![0x96, 0x01]);
}

#[test]
fn tag_rejects_field_number_zero_for_every_wire_type() {
    for code in 0u8..8 {
        let bytes = [code];
        let mut data = DataReader::new(&bytes);
        assert_eq!(read_tag(&mut data), Err(Error::InvalidData));
    }
}

#[test]
fn tag_rejects_reserved_field_numbers_for_every_wire_type() {
    for field in [18999u64, 19000, 19500, 19999, 20000] {
        for code in 0u64..8 {
            let bytes = encode_varint(field << 3 | code);
            let mut data = DataReader::new(&bytes);
            let result = read_tag(&mut data);
            if (19000..=19999).contains(&field) || code > 5 {
                assert_eq!(result, Err(Error::InvalidData));
            } else {
                assert_eq!(result.unwrap().0, field as u32);
            }
        }
    }
}

#[test]
fn tag_rejects_wire_type_codes_above_five() {
    let mut data = DataReader::new(b"\x0e");
    assert_eq!(read_tag(&mut data), Err(Error::InvalidData));
    let mut data = DataReader::new(b"\x0f");
    assert_eq!(read_tag(&mut data), Err(Error::InvalidData));
    let mut data = DataReader::new(b"\x0d");
    assert_eq!(read_tag(&mut data), Ok((1, WireType::Bit32)));
}

#[test]
fn tag_field_number_must_fit_32_bits() {
    let bytes = encode_varint((u32::MAX as u64) << 3);
    let mut data = DataReader::new(&bytes);
    assert_eq!(read_tag(&mut data), Ok((u32::MAX, WireType::Varint)));
    let bytes = encode_varint((u32::MAX as u64 + 1) << 3);
    let mut data = DataReader::new(&bytes);
    assert_eq!(read_tag(&mut data), Err(Error::InvalidData));
}

#[test]
fn tagged_data_fixed_fields_report_what_is_owed() {
    let mut data = DataReader::new(b"\x0d\x01\x02\x03\x04\xff");
    assert_eq!(read_tagged_data(&mut data), Ok(TaggedData::Others));
    assert_eq!(data.position(), 5);
    let mut data = DataReader::new(b"\x0d\x01\x02");
    assert_eq!(read_tagged_data(&mut data), Err(Error::Eof(2)));
    assert!(data.eof());
    let mut data = DataReader::new(b"\x0d");
    assert_eq!(read_tagged_data(&mut data), Err(Error::Eof(4)));
    let mut data = DataReader::new(b"\x09\x01\x02\x03\x04\x05");
    assert_eq!(read_tagged_data(&mut data), Err(Error::Eof(3)));
    let mut data = DataReader::new(b"\x09\x01\x02\x03\x04\x05\x06\x07\x08");
    assert_eq!(read_tagged_data(&mut data), Ok(TaggedData::Others));
    assert!(data.eof());
}

#[test]
fn tagged_data_groups_take_no_value() {
    let mut data = DataReader::new(b"\x0b\x0c");
    assert_eq!(read_tagged_data(&mut data), Ok(TaggedData::Others));
    assert_eq!(data.position(), 1);
    assert_eq!(read_tagged_data(&mut data), Ok(TaggedData::Others));
    assert_eq!(data.position(), 2);
}

#[test]
fn tagged_data_chunk_body_is_left_unread() {
    let mut data = DataReader::new(b"\x0a\x03abc");
    assert_eq!(read_tagged_data(&mut data), Ok(TaggedData::ChunkMetadata { length: 3 }));
    assert_eq!(data.position(), 2);
    let mut data = DataReader::new(b"\x0a");
    assert_eq!(read_tagged_data(&mut data), Err(Error::VarintEof));
}

#[test]
fn map_custom_err_replaces_every_error() {
    let ok: Result<u8, &str> = Ok(7);
    assert_eq!(ok.map_custom_err(), Ok(7));
    let bad: Result<u8, &str> = Err("no");
    assert_eq!(bad.map_custom_err(), Err(Error::InvalidData));
}

#[test]
fn wire_type_codes() {
    assert_eq!(WireType::from_u8(0), Some(WireType::Varint));
    assert_eq!(WireType::from_u8(1), Some(WireType::Bit64));
    assert_eq!(WireType::from_u8(2), Some(WireType::Chunk));
    assert_eq!(WireType::from_u8(3), Some(WireType::StartGroup));
    assert_eq!(WireType::from_u8(4), Some(WireType::EndGroup));
    assert_eq!(WireType::from_u8(5), Some(WireType::Bit32));
    assert_eq!(WireType::from_u8(6), None);
    assert_eq!(WireType::from_u8(255), None);
    assert_eq!(WireType::try_from(2), Ok(WireType::Chunk));
    assert_eq!(WireType::try_from(7), Err(()));
}
