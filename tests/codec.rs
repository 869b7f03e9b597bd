use rmpp::{pack, unpack, write_value, BasicTypes, MsgPackEntry, MsgPackError, MsgPackValue, MsgValue};

fn entry(marker: u8, value: MsgPackValue) -> MsgPackEntry {
    MsgPackEntry::new(marker, value)
}

#[test]
fn decodes_true() {
    let e = unpack(&[0xC3]).unwrap();
    assert_eq!(e.raw_marker, 195);
    assert_eq!(e.basic_type, BasicTypes::Bool);
    assert_eq!(e.data, MsgPackValue::Bool(true));
    assert_eq!(pack(&e), vec![0xC3]);
}

#[test]
fn decodes_null() {
    let e = unpack(&[0xC0]).unwrap();
    assert_eq!(e, MsgPackEntry { raw_marker: 192, basic_type: BasicTypes::Null, data: MsgPackValue::Null });
}

#[test]
fn decodes_fixpos() {
    let e = unpack(&[0x01]).unwrap();
    assert_eq!(e.data, MsgPackValue::FixPos(1));
    assert_eq!(e.basic_type, BasicTypes::Number);
    assert_eq!(pack(&e), vec![0x01]);
}

#[test]
fn decodes_fixneg() {
    let e = unpack(&[0xFF]).unwrap();
    assert_eq!(e.data, MsgPackValue::FixNeg(-1));
    assert_eq!(pack(&e), vec![0xFF]);
    let low = unpack(&[0xE0]).unwrap();
    assert_eq!(low.data, MsgPackValue::FixNeg(-32));
    assert_eq!(pack(&low), vec![0xE0]);
}

#[test]
fn decodes_fixstr() {
    let input = [0xA3, 0x66, 0x6F, 0x6F];
    let e = unpack(&input).unwrap();
    assert_eq!(e.data, MsgPackValue::FixStr("foo".to_string()));
    assert_eq!(e.basic_type, BasicTypes::String);
    assert_eq!(pack(&e), input.to_vec());
}

#[test]
fn decodes_fixarray() {
    let input = [0x92, 0xC0, 0xC3];
    let e = unpack(&input).unwrap();
    assert_eq!(
        e.data,
        MsgPackValue::FixArray(vec![entry(0xC0, MsgPackValue::Null), entry(0xC3, MsgPackValue::Bool(true))])
    );
    assert_eq!(e.basic_type, BasicTypes::Array);
    assert_eq!(pack(&e), input.to_vec());
}

#[test]
fn truncated_u8_fails() {
    assert_eq!(unpack(&[0xCC]), Err(MsgPackError::UnexpectedEof));
}

#[test]
fn extension_marker_fails() {
    assert_eq!(unpack(&[0xD4, 0x01, 0x02]), Err(MsgPackError::Unsupported(0xD4)));
    assert_eq!(unpack(&[0xC7, 0x00, 0x01]), Err(MsgPackError::Unsupported(0xC7)));
}

#[test]
fn reserved_marker_fails() {
    assert_eq!(unpack(&[0xC1]), Err(MsgPackError::Reserved(0xC1)));
}

#[test]
fn empty_input_fails() {
    assert_eq!(unpack(&[]), Err(MsgPackError::UnexpectedEof));
}

#[test]
fn invalid_utf8_fails() {
    assert_eq!(unpack(&[0xA2, 0xC3, 0x28]), Err(MsgPackError::InvalidUtf8));
}

#[test]
fn truncated_payloads_fail() {
    assert_eq!(unpack(&[0xA3, 0x66]), Err(MsgPackError::UnexpectedEof));
    assert_eq!(unpack(&[0xDA, 0x00]), Err(MsgPackError::UnexpectedEof));
    assert_eq!(unpack(&[0x92, 0xC0]), Err(MsgPackError::UnexpectedEof));
    assert_eq!(unpack(&[0x81, 0xC0]), Err(MsgPackError::UnexpectedEof));
}

#[test]
fn trailing_bytes_are_ignored() {
    let e = unpack(&[0xC2, 0xFF, 0xFF]).unwrap();
    assert_eq!(e.data, MsgPackValue::Bool(false));
    assert_eq!(pack(&e), vec![0xC2]);
}

#[test]
fn sized_integers_round_trip() {
    let cases: Vec<Vec<u8>> = vec![
        vec![0xCC, 0xFF],
        vec![0xCD, 0x12, 0x34],
        vec![0xCE, 0xDE, 0xAD, 0xBE, 0xEF],
        vec![0xCF, 0xFF, 0xFF, 0xFF, 0xFF, 0xFF, 0xFF, 0xFF, 0xFF],
        vec![0xD0, 0x80],
        vec![0xD1, 0xFF, 0xFE],
        vec![0xD2, 0x80, 0x00, 0x00, 0x00],
        vec![0xD3, 0x80, 0, 0, 0, 0, 0, 0, 0],
        vec![0xCA, 0x3F, 0x80, 0x00, 0x00],
        vec![0xCB, 0x40, 0x09, 0x21, 0xFB, 0x54, 0x44, 0x2D, 0x18],
    ];
    for bytes in cases {
        let e = unpack(&bytes).unwrap();
        assert_eq!(e.basic_type, BasicTypes::Number);
        assert_eq!(pack(&e), bytes);
    }
}

#[test]
fn sized_integer_values() {
    assert_eq!(unpack(&[0xCD, 0x12, 0x34]).unwrap().data, MsgPackValue::U16(0x1234));
    assert_eq!(unpack(&[0xD0, 0x80]).unwrap().data, MsgPackValue::I8(-128));
    assert_eq!(unpack(&[0xD1, 0xFF, 0xFE]).unwrap().data, MsgPackValue::I16(-2));
    assert_eq!(unpack(&[0xD2, 0x00, 0x00, 0x01, 0x00]).unwrap().data, MsgPackValue::I32(256));
    assert_eq!(unpack(&[0xD3, 0x80, 0, 0, 0, 0, 0, 0, 0]).unwrap().data, MsgPackValue::I64(i64::MIN));
    let f = unpack(&[0xCA, 0x3F, 0x80, 0x00, 0x00]).unwrap();
    assert_eq!(f.data, MsgPackValue::F32(1.0f32.to_bits()));
}

#[test]
fn encodes_signed_integers() {
    assert_eq!(pack(&entry(0xD0, MsgPackValue::I8(-1))), vec![0xD0, 0xFF]);
    assert_eq!(pack(&entry(0xD1, MsgPackValue::I16(-300))), vec![0xD1, 0xFE, 0xD4]);
    assert_eq!(pack(&entry(0xD2, MsgPackValue::I32(-1))), vec![0xD2, 0xFF, 0xFF, 0xFF, 0xFF]);
    assert_eq!(
        pack(&entry(0xD3, MsgPackValue::I64(i64::MIN + 1))),
        vec![0xD3, 0x80, 0, 0, 0, 0, 0, 0, 1]
    );
    assert_eq!(pack(&entry(0xCB, MsgPackValue::F64(2.5f64.to_bits()))), vec![0xCB, 0x40, 0x04, 0, 0, 0, 0, 0, 0]);
}

#[test]
fn width_is_kept_not_shortest() {
    let e = entry(0xDA, MsgPackValue::Str16("hi".to_string()));
    assert_eq!(pack(&e), vec![0xDA, 0x00, 0x02, b'h', b'i']);
    let d = unpack(&pack(&e)).unwrap();
    assert_eq!(d, e);
    let s8 = entry(0xD9, MsgPackValue::Str8("é".to_string()));
    assert_eq!(pack(&s8), vec![0xD9, 0x02, 0xC3, 0xA9]);
    assert_eq!(unpack(&pack(&s8)).unwrap(), s8);
}

#[test]
fn binary_round_trip() {
    let e = entry(0xC5, MsgPackValue::Bin16(vec![0x00, 0xFF, 0x80]));
    let bytes = pack(&e);
    assert_eq!(bytes, vec![0xC5, 0x00, 0x03, 0x00, 0xFF, 0x80]);
    let d = unpack(&bytes).unwrap();
    assert_eq!(d.basic_type, BasicTypes::Bin);
    assert_eq!(d, e);
}

#[test]
fn map_keeps_order_and_duplicates() {
    let input = [0x82, 0x01, 0xC2, 0x01, 0xC3];
    let e = unpack(&input).unwrap();
    assert_eq!(e.basic_type, BasicTypes::Mapping);
    assert_eq!(
        e.data,
        MsgPackValue::FixMap(vec![
            (entry(0x01, MsgPackValue::FixPos(1)), entry(0xC2, MsgPackValue::Bool(false))),
            (entry(0x01, MsgPackValue::FixPos(1)), entry(0xC3, MsgPackValue::Bool(true))),
        ])
    );
    assert_eq!(pack(&e), input.to_vec());
}

#[test]
fn length_field_counts_children() {
    let a = entry(
        0xDC,
        MsgPackValue::Array16(vec![
            entry(0xC0, MsgPackValue::Null),
            entry(0x05, MsgPackValue::FixPos(5)),
            entry(0xC3, MsgPackValue::Bool(true)),
        ]),
    );
    assert_eq!(pack(&a), vec![0xDC, 0x00, 0x03, 0xC0, 0x05, 0xC3]);
    let m = entry(0xDF, MsgPackValue::Map32(vec![(entry(0xC0, MsgPackValue::Null), entry(0xC0, MsgPackValue::Null))]));
    assert_eq!(pack(&m), vec![0xDF, 0, 0, 0, 1, 0xC0, 0xC0]);
    let empty = entry(0x90, MsgPackValue::FixArray(vec![]));
    assert_eq!(pack(&empty), vec![0x90]);
}

#[test]
fn nested_round_trip() {
    let inner = entry(0x81, MsgPackValue::FixMap(vec![(
        entry(0xA1, MsgPackValue::FixStr("k".to_string())),
        entry(0xC4, MsgPackValue::Bin8(vec![1, 2])),
    )]));
    let outer = entry(0xDD, MsgPackValue::Array32(vec![inner, entry(0xCD, MsgPackValue::U16(513))]));
    let bytes = pack(&outer);
    assert_eq!(
        bytes,
        vec![0xDD, 0, 0, 0, 2, 0x81, 0xA1, b'k', 0xC4, 0x02, 1, 2, 0xCD, 0x02, 0x01]
    );
    assert_eq!(unpack(&bytes).unwrap(), outer);
}

#[test]
fn basic_type_is_derived() {
    assert_eq!(entry(0xC0, MsgPackValue::Null).basic_type, BasicTypes::Null);
    assert_eq!(entry(0xC2, MsgPackValue::Bool(false)).basic_type, BasicTypes::Bool);
    assert_eq!(entry(0xCB, MsgPackValue::F64(0)).basic_type, BasicTypes::Number);
    assert_eq!(entry(0xDB, MsgPackValue::Str32(String::new())).basic_type, BasicTypes::String);
    assert_eq!(entry(0xC6, MsgPackValue::Bin32(vec![])).basic_type, BasicTypes::Bin);
    assert_eq!(entry(0x90, MsgPackValue::FixArray(vec![])).basic_type, BasicTypes::Array);
    assert_eq!(entry(0xDE, MsgPackValue::Map16(vec![])).basic_type, BasicTypes::Mapping);
}

#[test]
fn write_value_takes_entry_or_value() {
    let e = entry(0xC3, MsgPackValue::Bool(true));
    let mut a: Vec<u8> = vec![0x00];
    write_value(&mut a, &e);
    assert_eq!(a, vec![0x00, 0xC3]);
    let mut b: Vec<u8> = vec![];
    write_value(&mut b, e.get_value());
    write_value(&mut b, &MsgPackValue::Null);
    assert_eq!(b, vec![0xC3, 0xC0]);
}

#[test]
fn error_messages() {
    assert!(MsgPackError::UnexpectedEof.message().contains("IO error"));
    assert!(MsgPackError::InvalidUtf8.message().contains("UTF-8"));
    assert!(MsgPackError::Unsupported(0xD4).message().contains("Unsupported"));
}
