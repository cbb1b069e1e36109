use iso8583::bit_block::BitBlock;
use iso8583::error::IsoError;
use iso8583::iso_field::{FieldCharType, FieldPayload, FieldSizeType, IsoField};
use iso8583::iso_msg::IsoMsg;
use iso8583::numeral::{
    bit_is_set, decimal_digits, hex_digit, push_hex_group, push_padded_decimal, read_hex_group,
    read_three_digits, upper_hex,
};

fn small_spec() -> Vec<IsoField> {
    vec![
        IsoField::new("MTI", FieldCharType::Iso8583_ns, 4, FieldSizeType::Fixed),
        IsoField::new("Bitmap", FieldCharType::Iso8583_bmps, 16, FieldSizeType::BitMap),
        IsoField::new("PAN", FieldCharType::Iso8583_ns, 19, FieldSizeType::LlVar),
        IsoField::new("ProcCode", FieldCharType::Iso8583_ns, 6, FieldSizeType::Fixed),
    ]
}

fn wide_spec(count: usize) -> Vec<IsoField> {
    let mut spec = vec![
        IsoField::new("MTI", FieldCharType::Iso8583_ns, 4, FieldSizeType::Fixed),
        IsoField::new("Bitmap", FieldCharType::Iso8583_bmp, 16, FieldSizeType::BitMap),
    ];
    while spec.len() < count {
        spec.push(IsoField::new("F", FieldCharType::Iso8583_ns, 2, FieldSizeType::Fixed));
    }
    spec
}

fn read(msg: &IsoMsg, index: usize) -> Result<Vec<u8>, IsoError> {
    let mut buffer = [0xEEu8; 2048];
    let n = msg.get_field(index, &mut buffer)?;
    assert!(buffer[n..].iter().all(|b| *b == 0xEE));
    Ok(buffer[..n].to_vec())
}

fn pan_payload(bitmap: &str) -> String {
    format!("{}{}{}{}{}", "0100", bitmap, "016", "1234567890123456", "003000")
}

#[test]
fn scenario_reads_mti_and_pan() {
    let spec = small_spec();
    let payload = pan_payload("4000000000000000");
    let msg = IsoMsg::from_handle(&spec, payload.as_bytes()).unwrap();
    assert_eq!(read(&msg, 0).unwrap(), b"0100");
    assert_eq!(read(&msg, 2).unwrap(), b"1234567890123456");
    assert_eq!(read(&msg, 3), Err(IsoError::FieldAbsent));
}

#[test]
fn scenario_reserved_flag_announces_a_second_block() {
    // The first digit 8 sets the reserved flag: sixteen more digits belong
    // to the bitmap, and no flag for the two fields after it is set.
    let spec = small_spec();
    let payload = pan_payload("8000000000000000");
    let msg = IsoMsg::from_handle(&spec, payload.as_bytes()).unwrap();
    assert_eq!(read(&msg, 0).unwrap(), b"0100");
    assert_eq!(read(&msg, 1).unwrap(), b"80000000000000000161234567890123");
    assert_eq!(read(&msg, 2), Err(IsoError::FieldAbsent));
    assert_eq!(read(&msg, 3), Err(IsoError::FieldAbsent));
}

#[test]
fn scenario_write_mti_then_encode() {
    let spec = small_spec();
    let payload = pan_payload("4000000000000000");
    let mut msg = IsoMsg::from_handle(&spec, payload.as_bytes()).unwrap();
    assert_eq!(msg.set_field(0, b"0110"), Ok(()));
    let mut out = [0u8; 64];
    let n = msg.to_byte_array(&mut out).unwrap();
    let decoded = &payload.as_bytes()[..39];
    assert_eq!(n, 39);
    assert_eq!(&out[..4], b"0110");
    assert_eq!(&out[4..n], &decoded[4..]);
}

#[test]
fn scenario_remove_pan_then_encode() {
    let spec = small_spec();
    let payload = pan_payload("4000000000000000");
    let mut msg = IsoMsg::from_handle(&spec, payload.as_bytes()).unwrap();
    let before = msg.encode();
    assert_eq!(before, payload.as_bytes()[..39].to_vec());
    assert_eq!(msg.remove_field(2), Ok(()));
    let after = msg.encode();
    assert_eq!(after, b"01000000000000000000".to_vec());
    assert_eq!(after.len() + 19, before.len());
}

#[test]
fn round_trip_of_canonical_payloads() {
    let spec = small_spec();
    for payload in [
        format!("{}{}", "0100", "0000000000000000"),
        format!("{}{}{}{}", "0100", "4000000000000000", "000", ""),
        format!("{}{}{}", "0100", "2000000000000000", "003000"),
        format!("{}{}{}{}{}", "0100", "6000000000000000", "016", "1234567890123456", "003000"),
    ] {
        let msg = IsoMsg::from_handle(&spec, payload.as_bytes()).unwrap();
        assert_eq!(msg.encode(), payload.as_bytes().to_vec());
    }
}

#[test]
fn encoding_makes_the_bitmap_canonical() {
    let spec = small_spec();
    // Lower-case digits, a flag for a position that the specification does
    // not have, and bytes after the last field.
    let payload = format!("{}{}{}{}", "0100", "200000000000000a", "003000", "trailing");
    let msg = IsoMsg::from_handle(&spec, payload.as_bytes()).unwrap();
    assert_eq!(read(&msg, 1).unwrap(), b"200000000000000a");
    assert_eq!(msg.encode(), b"01002000000000000000003000".to_vec());
}

#[test]
fn write_then_read_gives_the_content_back() {
    let spec = small_spec();
    let payload = pan_payload("4000000000000000");
    let mut msg = IsoMsg::from_handle(&spec, payload.as_bytes()).unwrap();
    assert_eq!(msg.set_field(3, b"112233"), Ok(()));
    assert_eq!(read(&msg, 3).unwrap(), b"112233");
    assert_eq!(msg.set_field(2, b""), Ok(()));
    assert_eq!(read(&msg, 2).unwrap(), b"");
    assert_eq!(msg.set_field(2, b"1234567890123456789"), Ok(()));
    assert_eq!(read(&msg, 2).unwrap(), b"1234567890123456789");
    let mut raw = [0u8; 32];
    assert_eq!(msg.get_field_raw(2, &mut raw), Ok((22, 3)));
    assert_eq!(&raw[..22], b"0191234567890123456789");
    assert_eq!(msg.encode(), b"01006000000000000000".iter().chain(b"0191234567890123456789").chain(b"112233").cloned().collect::<Vec<u8>>());
}

#[test]
fn remove_then_write_makes_the_field_readable_again() {
    let spec = small_spec();
    let payload = pan_payload("4000000000000000");
    let mut msg = IsoMsg::from_handle(&spec, payload.as_bytes()).unwrap();
    assert_eq!(msg.remove_field(2), Ok(()));
    assert_eq!(read(&msg, 2), Err(IsoError::FieldAbsent));
    assert_eq!(msg.set_field(2, b"42"), Ok(()));
    assert_eq!(read(&msg, 2).unwrap(), b"42");
}

#[test]
fn bitmap_flags_follow_presence() {
    let spec = wide_spec(129);
    let payload = format!("{}{}", "0200", "0000000000000000");
    let mut msg = IsoMsg::from_handle(&spec, payload.as_bytes()).unwrap();
    for index in [2usize, 33, 64, 65, 66, 128] {
        assert_eq!(msg.set_field(index, b"ab"), Ok(()));
    }
    assert_eq!(msg.remove_field(33), Ok(()));
    let out = msg.encode();
    let text = std::str::from_utf8(&out[4..36]).unwrap();
    assert_eq!(text, "C000000000000001C000000000000001");
    assert_eq!(&out[36..], b"ababababab");
    let again = IsoMsg::from_handle(&spec, &out).unwrap();
    for index in 2..129 {
        let present = [2usize, 64, 65, 66, 128].contains(&index);
        assert_eq!(read(&again, index).is_ok(), present, "{}", index);
    }
    assert_eq!(again.encode(), out);
}

#[test]
fn second_block_goes_with_the_fields_from_the_64th_on() {
    let spec = wide_spec(129);
    let payload = format!("{}{}", "0200", "0000000000000000");
    let mut msg = IsoMsg::from_handle(&spec, payload.as_bytes()).unwrap();
    assert_eq!(msg.set_field(64, b"ab"), Ok(()));
    assert_eq!(msg.encode(), b"02000000000000000001ab".to_vec());
    assert_eq!(msg.set_field(65, b"cd"), Ok(()));
    assert_eq!(
        msg.encode(),
        b"020080000000000000018000000000000000abcd".to_vec()
    );
    assert_eq!(msg.remove_field(65), Ok(()));
    assert_eq!(msg.encode(), b"02000000000000000001ab".to_vec());
}

#[test]
fn fields_before_and_without_a_bitmap_are_present() {
    let spec = vec![
        IsoField::new("A", FieldCharType::Iso8583_n, 2, FieldSizeType::Fixed),
        IsoField::new("B", FieldCharType::Iso8583_n, 9, FieldSizeType::LllVar),
        IsoField::new("C", FieldCharType::Iso8583_n, 0, FieldSizeType::Fixed),
    ];
    let mut msg = IsoMsg::from_handle(&spec, b"xy002hi").unwrap();
    assert_eq!(read(&msg, 0).unwrap(), b"xy");
    assert_eq!(read(&msg, 1).unwrap(), b"hi");
    assert_eq!(read(&msg, 2).unwrap(), b"");
    assert_eq!(msg.encode(), b"xy002hi".to_vec());
    assert_eq!(msg.remove_field(0), Ok(()));
    assert_eq!(msg.encode(), b"002hi".to_vec());
}

#[test]
fn decode_errors() {
    let spec = small_spec();
    let decode = |payload: &str| IsoMsg::from_handle(&spec, payload.as_bytes()).err();
    assert_eq!(decode(""), Some(IsoError::DecodeError));
    assert_eq!(decode("010"), Some(IsoError::DecodeError));
    assert_eq!(decode("0100400000000000000"), Some(IsoError::DecodeError));
    assert_eq!(decode("01004000000000G00000000"), Some(IsoError::DecodeError));
    assert_eq!(decode("0100+000000000000000000"), Some(IsoError::DecodeError));
    assert_eq!(decode("0100C000000000000000"), Some(IsoError::DecodeError));
    assert_eq!(decode("0100400000000000000001"), Some(IsoError::DecodeError));
    assert_eq!(decode("01004000000000000000+12ab"), Some(IsoError::DecodeError));
    assert_eq!(decode("010040000000000000000x2ab"), Some(IsoError::DecodeError));
    assert_eq!(decode("01004000000000000000003ab"), Some(IsoError::DecodeError));
    assert_eq!(decode("0100200000000000000000300"), Some(IsoError::DecodeError));
    assert_eq!(decode("01004000000000000000003abc"), None);
}

#[test]
fn specification_wider_than_the_bitmap_is_refused() {
    let payload = format!("{}{}", "0200", "0000000000000000");
    let fits = wide_spec(129);
    assert!(IsoMsg::from_handle(&fits, payload.as_bytes()).is_ok());
    let wide = wide_spec(130);
    assert_eq!(
        IsoMsg::from_handle(&wide, payload.as_bytes()).err(),
        Some(IsoError::InvalidPosition)
    );
    assert_eq!(IsoMsg::new(&wide, payload.as_bytes()).err(), Some(IsoError::InvalidPosition));
    let mut fields = vec![FieldPayload::default()];
    assert_eq!(
        IsoMsg::from_byte_array(&wide, &mut fields, payload.as_bytes()),
        Err(IsoError::InvalidPosition)
    );
    assert_eq!(fields.len(), 1);
    assert_eq!(IsoMsg::decode_fields(&fits, &mut fields, payload.as_bytes()), Ok(()));
    assert_eq!(fields.len(), 130);
    assert!(fields[1].exist && fields[2].exist && !fields[3].exist);
    assert_eq!((fields[2].index, fields[2].len), (4, 16));
}

#[test]
fn accessor_errors() {
    let spec = small_spec();
    let payload = pan_payload("4000000000000000");
    let mut msg = IsoMsg::from_handle(&spec, payload.as_bytes()).unwrap();
    let mut buffer = [7u8; 15];
    assert_eq!(msg.get_field(4, &mut buffer), Err(IsoError::InvalidPosition));
    assert_eq!(msg.get_field(3, &mut buffer), Err(IsoError::FieldAbsent));
    assert_eq!(msg.get_field(2, &mut buffer), Err(IsoError::BufferTooSmall));
    assert_eq!(msg.get_field_raw(2, &mut buffer), Err(IsoError::BufferTooSmall));
    assert_eq!(msg.get_field_raw(9, &mut buffer), Err(IsoError::InvalidPosition));
    assert_eq!(buffer, [7u8; 15]);
    let mut exact = [7u8; 16];
    assert_eq!(msg.get_field(2, &mut exact), Ok(16));
    assert_eq!(msg.set_field(4, b"x"), Err(IsoError::InvalidPosition));
    assert_eq!(msg.set_field(3, b"1234567"), Err(IsoError::FieldTooLong));
    assert_eq!(msg.set_field(2, b"12345678901234567890"), Err(IsoError::FieldTooLong));
    assert_eq!(msg.remove_field(4), Err(IsoError::InvalidPosition));
    assert_eq!(msg.get_field_length_prefix(2), Ok(3));
    assert_eq!(msg.get_field_length_prefix(3), Ok(0));
    assert_eq!(msg.get_field_length_prefix(1), Ok(0));
    assert_eq!(msg.get_field_length_prefix(4), Err(IsoError::InvalidPosition));
    let mut small = [7u8; 38];
    assert_eq!(msg.to_byte_array(&mut small), Err(IsoError::BufferTooSmall));
    assert_eq!(small, [7u8; 38]);
    let mut fits = [7u8; 40];
    assert_eq!(msg.to_byte_array(&mut fits), Ok(39));
    assert_eq!(fits[39], 7);
}

#[test]
fn a_prefix_of_four_digits_is_read_as_three() {
    let spec = vec![IsoField::new("Big", FieldCharType::Iso8583_ans, 2000, FieldSizeType::LllVar)];
    let mut msg = IsoMsg::from_handle(&spec, b"001x").unwrap();
    let content = vec![b'z'; 1000];
    assert_eq!(msg.set_field(0, &content), Ok(()));
    let wire = msg.encode();
    assert_eq!(&wire[..4], b"1000");
    assert_eq!(wire.len(), 1004);
    let got = read(&msg, 0).unwrap();
    assert_eq!(got.len(), 1001);
    assert_eq!(got[0], b'0');
    let short = vec![b'z'; 999];
    assert_eq!(msg.set_field(0, &short), Ok(()));
    assert_eq!(read(&msg, 0).unwrap(), short);
    assert_eq!(&msg.encode()[..3], b"999");
}

#[test]
fn field_lengths() {
    let fixed = IsoField::new("F", FieldCharType::Iso8583_n, 12, FieldSizeType::Fixed);
    let var = IsoField::new("V", FieldCharType::Iso8583_n, 99, FieldSizeType::LlllVar);
    let map = IsoField::new("M", FieldCharType::Iso8583_bmp, 16, FieldSizeType::BitMap);
    assert_eq!(IsoMsg::get_field_length(&fixed, b""), Ok(12));
    assert_eq!(IsoMsg::get_field_length(&var, b"0421"), Ok(45));
    assert_eq!(IsoMsg::get_field_length(&var, b"999"), Ok(1002));
    assert_eq!(IsoMsg::get_field_length(&var, b"04"), Err(IsoError::DecodeError));
    assert_eq!(IsoMsg::get_field_length(&var, b" 42"), Err(IsoError::DecodeError));
    assert_eq!(IsoMsg::get_field_length(&map, b"zz"), Ok(0));
}

#[test]
fn bitmap_blocks() {
    let spec = small_spec();
    let (blocks, len) =
        IsoMsg::process_bitmap(&spec, 4, b"0100F2246481087088360000000000000004rest").unwrap();
    assert_eq!(len, 32);
    assert_eq!(blocks.len(), 1);
    let block: &BitBlock = &blocks[0];
    let set: Vec<usize> = (0..200).filter(|k| block.is_set(*k)).collect();
    assert_eq!(
        set,
        vec![1, 2, 3, 6, 10, 13, 17, 18, 21, 24, 31, 36, 41, 42, 43, 48, 52, 58, 59, 61, 62, 125]
    );
    let (blocks, len) = IsoMsg::process_bitmap(&spec, 0, b"7fffffffFFFFFFFFffff").unwrap();
    assert_eq!(len, 16);
    let set: Vec<usize> = (0..200).filter(|k| blocks[0].is_set(*k)).collect();
    assert_eq!(set, (1..64).collect::<Vec<usize>>());
    assert_eq!(
        IsoMsg::process_bitmap(&spec, 1, b"7fffffffFFFFFFFF").err(),
        Some(IsoError::DecodeError)
    );
    assert_eq!(
        IsoMsg::process_bitmap(&spec, 0, b"ffffffffFFFFFFFF0000").err(),
        Some(IsoError::DecodeError)
    );
    assert_eq!(
        IsoMsg::process_bitmap(&spec, usize::MAX, b"ffffffffFFFFFFFF0000").err(),
        Some(IsoError::DecodeError)
    );
}

#[test]
fn bits_and_bytes() {
    assert!(IsoMsg::is_bit_set(0x8000_0000, 31));
    assert!(!IsoMsg::is_bit_set(0x8000_0000, 30));
    assert!(IsoMsg::is_bit_set(5, 0) && !IsoMsg::is_bit_set(5, 1) && IsoMsg::is_bit_set(5, 2));
    assert!(!IsoMsg::is_bit_set(u32::MAX, 32));
    assert!(!IsoMsg::is_bit_set(u32::MAX, 255));
    assert!(bit_is_set(2, 1));
    assert_eq!(IsoMsg::convert_u32_be(&[0x12, 0x34, 0x56, 0x78]), 0x1234_5678);
    assert_eq!(IsoMsg::convert_u32_le(&[0x12, 0x34, 0x56, 0x78]), 0x7856_3412);
    assert_eq!(IsoMsg::convert_u32_be(&[0xFF, 0xFF, 0xFF, 0xFF]), u32::MAX);
    assert_eq!(IsoMsg::convert_u32_le(&[0, 0, 0, 0x80]), 0x8000_0000);
}

#[test]
fn numerals() {
    assert_eq!(decimal_digits(0), b"0".to_vec());
    assert_eq!(decimal_digits(1234), b"1234".to_vec());
    let mut out = b">".to_vec();
    push_padded_decimal(&mut out, 7, 3);
    push_padded_decimal(&mut out, 42, 0);
    push_padded_decimal(&mut out, 1000, 3);
    push_padded_decimal(&mut out, 0, 2);
    assert_eq!(out, b">00742100000".to_vec());
    assert_eq!(read_three_digits(b"ab042", 2), Some(42));
    assert_eq!(read_three_digits(b"ab042", 3), None);
    assert_eq!(read_three_digits(b"0 2", 0), None);
    assert_eq!(read_three_digits(b"999", usize::MAX), None);
    assert_eq!(hex_digit(b'0'), Some(0));
    assert_eq!(hex_digit(b'9'), Some(9));
    assert_eq!(hex_digit(b'A'), Some(10));
    assert_eq!(hex_digit(b'f'), Some(15));
    assert_eq!(hex_digit(b'g'), None);
    assert_eq!(hex_digit(b'/'), None);
    assert_eq!(hex_digit(b':'), None);
    assert_eq!(hex_digit(b'@'), None);
    assert_eq!(hex_digit(b'G'), None);
    assert_eq!(hex_digit(b'`'), None);
    assert_eq!(upper_hex(0), b'0');
    assert_eq!(upper_hex(11), b'B');
    assert_eq!(read_hex_group(b"xxF2246481", 2), Some(0xF224_6481));
    assert_eq!(read_hex_group(b"0000000a", 0), Some(10));
    assert_eq!(read_hex_group(b"0000000", 0), None);
    assert_eq!(read_hex_group(b"+0000001", 0), None);
    let mut text = Vec::new();
    push_hex_group(&mut text, 0x0A70_8836);
    push_hex_group(&mut text, 0);
    push_hex_group(&mut text, u32::MAX);
    assert_eq!(text, b"0A70883600000000FFFFFFFF".to_vec());
}

#[test]
fn locators() {
    let absent = FieldPayload::default();
    assert!(!absent.exist);
    assert_eq!((absent.index, absent.len), (0, 0));
    assert_eq!(absent.get_new_payload_length(), 0);
    let written = FieldPayload { exist: true, index: 3, len: 9, new_payload: Some(vec![1, 2, 3]) };
    assert_eq!(written.get_new_payload_length(), 3);
}

#[test]
fn tokens_name_their_classes() {
    let classes = [
        (FieldCharType::Iso8583_n, "n"),
        (FieldCharType::Iso8583_ns, "ns"),
        (FieldCharType::Iso8583_xn, "xs"),
        (FieldCharType::ISO8583_a, "a"),
        (FieldCharType::Iso8583_an, "an"),
        (FieldCharType::Iso8583_ans, "ans"),
        (FieldCharType::Iso8583_ansb, "ansb"),
        (FieldCharType::Iso8583_anp, "anp"),
        (FieldCharType::Iso8583_b, "b"),
        (FieldCharType::ISO8583_z, "z"),
        (FieldCharType::Iso8583_bmp, "bmp"),
        (FieldCharType::Iso8583_bmps, "bmps"),
    ];
    for (class, token) in classes {
        assert_eq!(class.as_str(), token);
        assert_eq!(FieldCharType::parse(token), Ok(class));
        assert_eq!(class.is_bitmap(), token.starts_with("bmp"));
    }
    assert_eq!(FieldCharType::parse("xn"), Err(()));
    assert_eq!(FieldCharType::parse(""), Err(()));
    let lengths = [
        (FieldSizeType::Fixed, "fixed", 0),
        (FieldSizeType::LlVar, "llvar", 3),
        (FieldSizeType::LllVar, "lllvar", 3),
        (FieldSizeType::LlllVar, "llllvar", 3),
        (FieldSizeType::BitMap, "bitmap", 0),
    ];
    for (class, token, prefix) in lengths {
        assert_eq!(class.as_str(), token);
        assert_eq!(FieldSizeType::parse(token), Ok(class));
        assert_eq!(FieldSizeType::parse(&token.to_uppercase()), Ok(class));
        assert_eq!(FieldSizeType::parse_lower(token), Ok(class));
        assert_eq!(FieldSizeType::parse_lower(&token.to_uppercase()), Err(()));
        assert_eq!(class.prefix_len(), prefix);
    }
    assert_eq!(FieldSizeType::parse("LLVAR "), Err(()));
    assert_eq!(FieldSizeType::parse("lvar"), Err(()));
}
