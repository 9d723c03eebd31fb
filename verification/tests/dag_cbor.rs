use ipld::cbor::CborValue;
use ipld::dag_cbor::{
    decode, decode_ignoring_tags, encode, ipld_from_cbor, ipld_from_cbor_ignoring_tags, DecodeError,
    EncodeError,
};
use ipld::{Ipld, IpldMap};

fn contact() -> Ipld {
    let mut map = IpldMap::new();
    map.insert("name".to_string(), Ipld::String("Hello World!".to_string()));
    map.insert("details".to_string(), Ipld::Link(vec![7, 8, 9]));
    Ipld::Dict(map)
}

#[test]
fn lib_encode_struct() {
    let contact = contact();

    let contact_encoded = encode(&contact).unwrap();
    println!("encoded: {:02x?}", contact_encoded);
    let expected_encoded = vec![
        0xa2, 0x67, 0x64, 0x65, 0x74, 0x61, 0x69, 0x6c, 0x73, 0xd8, 0x2a, 0x43, 0x07, 0x08, 0x09,
        0x64, 0x6e, 0x61, 0x6d, 0x65, 0x6c, 0x48, 0x65, 0x6c, 0x6c, 0x6f, 0x20, 0x57, 0x6f, 0x72,
        0x6c, 0x64, 0x21,
    ];
    println!("expected: {:02x?}", expected_encoded);
    assert_eq!(contact_encoded, expected_encoded);

    let contact_decoded: Ipld = decode(&contact_encoded).unwrap();
    assert_eq!(contact_decoded, contact);
}

#[test]
fn struct_order_bytes_decode_to_ipld() {
    // The same contact with its fields in declaration order, as a serde
    // struct writes them.
    let bytes = vec![
        0xa2, 0x64, 0x6e, 0x61, 0x6d, 0x65, 0x6c, 0x48, 0x65, 0x6c, 0x6c, 0x6f, 0x20, 0x57, 0x6f,
        0x72, 0x6c, 0x64, 0x21, 0x67, 0x64, 0x65, 0x74, 0x61, 0x69, 0x6c, 0x73, 0xd8, 0x2a, 0x43,
        0x07, 0x08, 0x09,
    ];
    assert_eq!(decode_ignoring_tags(&bytes).unwrap(), contact());
    assert_eq!(decode(&bytes).unwrap(), contact());
}

fn enc(x: Ipld) -> Vec<u8> {
    encode(&x).unwrap()
}

#[test]
fn scalars_encode() {
    assert_eq!(enc(Ipld::Null), vec![0xf6]);
    assert_eq!(enc(Ipld::Bool(true)), vec![0xf5]);
    assert_eq!(enc(Ipld::Bool(false)), vec![0xf4]);
    assert_eq!(enc(Ipld::String("a".to_string())), vec![0x61, 0x61]);
    assert_eq!(enc(Ipld::Bytes(vec![])), vec![0x40]);
    assert_eq!(enc(Ipld::List(vec![])), vec![0x80]);
    assert_eq!(enc(Ipld::Dict(IpldMap::new())), vec![0xa0]);
    assert_eq!(enc(Ipld::Link(vec![1])), vec![0xd8, 0x2a, 0x41, 0x01]);
}

#[test]
fn integers_encode_in_shortest_form() {
    assert_eq!(enc(Ipld::Integer(0)), vec![0x00]);
    assert_eq!(enc(Ipld::Integer(23)), vec![0x17]);
    assert_eq!(enc(Ipld::Integer(24)), vec![0x18, 0x18]);
    assert_eq!(enc(Ipld::Integer(255)), vec![0x18, 0xff]);
    assert_eq!(enc(Ipld::Integer(256)), vec![0x19, 0x01, 0x00]);
    assert_eq!(enc(Ipld::Integer(65536)), vec![0x1a, 0x00, 0x01, 0x00, 0x00]);
    assert_eq!(
        enc(Ipld::Integer(1 << 32)),
        vec![0x1b, 0x00, 0x00, 0x00, 0x01, 0x00, 0x00, 0x00, 0x00]
    );
    assert_eq!(enc(Ipld::Integer(-1)), vec![0x20]);
    assert_eq!(enc(Ipld::Integer(-25)), vec![0x38, 0x18]);
    assert_eq!(enc(Ipld::Integer(u64::MAX as i128)), vec![0x1b, 0xff, 0xff, 0xff, 0xff, 0xff, 0xff, 0xff, 0xff]);
    assert_eq!(enc(Ipld::Integer(-(1i128 << 64))), vec![0x3b, 0xff, 0xff, 0xff, 0xff, 0xff, 0xff, 0xff, 0xff]);
}

#[test]
fn integers_out_of_range_are_refused() {
    assert_eq!(encode(&Ipld::Integer(1i128 << 64)), Err(EncodeError::IntegerOutOfRange));
    assert_eq!(encode(&Ipld::Integer(-(1i128 << 64) - 1)), Err(EncodeError::IntegerOutOfRange));
    let nested = Ipld::List(vec![Ipld::Null, Ipld::List(vec![Ipld::Integer(i128::MAX)])]);
    assert_eq!(encode(&nested), Err(EncodeError::IntegerOutOfRange));
}

#[test]
fn floats_encode_in_shortest_exact_form() {
    assert_eq!(enc(Ipld::Float(1.5f64.to_bits())), vec![0xf9, 0x3e, 0x00]);
    assert_eq!(enc(Ipld::Float(100000.0f64.to_bits())), vec![0xfa, 0x47, 0xc3, 0x50, 0x00]);
    assert_eq!(
        enc(Ipld::Float(1.1f64.to_bits())),
        vec![0xfb, 0x3f, 0xf1, 0x99, 0x99, 0x99, 0x99, 0x99, 0x9a]
    );
    assert_eq!(enc(Ipld::Float(f64::NAN.to_bits())), vec![0xf9, 0x7e, 0x00]);
    assert_eq!(enc(Ipld::Float(f64::INFINITY.to_bits())), vec![0xf9, 0x7c, 0x00]);
}

#[test]
fn nested_values_roundtrip() {
    let mut inner = IpldMap::new();
    inner.insert("z".to_string(), Ipld::Float(2.5f64.to_bits()));
    inner.insert("a".to_string(), Ipld::Bytes(vec![1, 2, 3]));
    inner.insert("ab".to_string(), Ipld::Integer(-300));
    let mut outer = IpldMap::new();
    outer.insert("list".to_string(), Ipld::List(vec![Ipld::Dict(inner), Ipld::Null, Ipld::Bool(true)]));
    outer.insert("é".to_string(), Ipld::String("ünïcode".to_string()));
    outer.insert("link".to_string(), Ipld::Link(vec![0; 40]));
    let x = Ipld::Dict(outer);
    let bytes = encode(&x).unwrap();
    assert_eq!(decode(&bytes).unwrap(), x);
    assert_eq!(decode_ignoring_tags(&bytes).unwrap(), x);
}

#[test]
fn map_entries_are_written_in_key_order() {
    let mut m = IpldMap::new();
    m.insert("b".to_string(), Ipld::Integer(2));
    m.insert("aa".to_string(), Ipld::Integer(1));
    assert_eq!(enc(Ipld::Dict(m)), vec![0xa2, 0x62, 0x61, 0x61, 0x01, 0x61, 0x62, 0x02]);
}

#[test]
fn malformed_bytes_are_refused() {
    assert_eq!(decode(&[]), Err(DecodeError::Malformed));
    assert_eq!(decode(&[0x62, 0x61]), Err(DecodeError::Malformed));
    assert_eq!(decode(&[0xff]), Err(DecodeError::Malformed));
}

#[test]
fn bytes_after_the_first_item_are_not_read() {
    assert_eq!(decode(&[0xf6, 0xff]), Ok(Ipld::Null));
    assert_eq!(decode(&[0xf6, 0xf6]), Ok(Ipld::Null));
    assert_eq!(decode_ignoring_tags(&[0x01, 0x62]), Ok(Ipld::Integer(1)));
    let x = contact();
    let mut bytes = encode(&x).unwrap();
    bytes.extend_from_slice(&[0x00, 0x01, 0xff]);
    assert_eq!(decode(&bytes).unwrap(), x);
}

#[test]
fn non_text_keys_are_refused() {
    // {1: 2}
    assert_eq!(decode(&[0xa1, 0x01, 0x02]), Err(DecodeError::NonTextKey));
}

#[test]
fn links_must_be_bytes() {
    // 42("a")
    assert_eq!(decode(&[0xd8, 0x2a, 0x61, 0x61]), Err(DecodeError::LinkNotBytes));
    assert_eq!(decode_ignoring_tags(&[0xd8, 0x2a, 0x61, 0x61]), Err(DecodeError::LinkNotBytes));
}

#[test]
fn other_tags() {
    // 1(5)
    assert_eq!(decode(&[0xc1, 0x05]), Err(DecodeError::UnexpectedTag(1)));
    assert_eq!(decode_ignoring_tags(&[0xc1, 0x05]), Ok(Ipld::Integer(5)));
    // 2(42(h'07'))
    assert_eq!(decode_ignoring_tags(&[0xc2, 0xd8, 0x2a, 0x41, 0x07]), Ok(Ipld::Link(vec![7])));
}

#[test]
fn later_duplicate_key_wins() {
    // {"a": 1, "a": 2}
    let mut m = IpldMap::new();
    m.insert("a".to_string(), Ipld::Integer(2));
    assert_eq!(decode(&[0xa2, 0x61, 0x61, 0x01, 0x61, 0x61, 0x02]), Ok(Ipld::Dict(m)));
}

#[test]
fn cbor_values_convert() {
    let v = CborValue::Tag(42, Box::new(CborValue::Bytes(vec![1, 2])));
    assert_eq!(ipld_from_cbor(v), Ok(Ipld::Link(vec![1, 2])));
    let v = CborValue::Tag(7, Box::new(CborValue::Text("x".to_string())));
    assert_eq!(ipld_from_cbor(v), Err(DecodeError::UnexpectedTag(7)));
    let v = CborValue::Tag(7, Box::new(CborValue::Text("x".to_string())));
    assert_eq!(ipld_from_cbor_ignoring_tags(v), Ok(Ipld::String("x".to_string())));
    let v = CborValue::Dict(vec![
        (CborValue::Text("b".to_string()), CborValue::Integer(1)),
        (CborValue::Text("a".to_string()), CborValue::Null),
    ]);
    let mut m = IpldMap::new();
    m.insert("a".to_string(), Ipld::Null);
    m.insert("b".to_string(), Ipld::Integer(1));
    assert_eq!(ipld_from_cbor(v), Ok(Ipld::Dict(m)));
}

#[test]
fn deep_nesting_is_refused_by_the_reader() {
    let mut x = Ipld::Null;
    for _ in 0..127 {
        x = Ipld::List(vec![x]);
    }
    let bytes = encode(&x).unwrap();
    assert_eq!(decode(&bytes).unwrap(), x);
    let y = Ipld::List(vec![x]);
    let bytes = encode(&y).unwrap();
    assert_eq!(decode(&bytes), Err(DecodeError::Malformed));
}

#[test]
fn decoded_values_encode_again() {
    // [-(2^64), 2^64 - 1, {"a": 1}]
    let mut bytes = vec![0x83, 0x3b, 0xff, 0xff, 0xff, 0xff, 0xff, 0xff, 0xff, 0xff];
    bytes.extend_from_slice(&[0x1b, 0xff, 0xff, 0xff, 0xff, 0xff, 0xff, 0xff, 0xff]);
    bytes.extend_from_slice(&[0xa1, 0x61, 0x61, 0x01]);
    let x = decode(&bytes).unwrap();
    assert_eq!(encode(&x).unwrap(), bytes);
}

#[test]
fn byte_string_keys_holding_utf8_are_read_as_strings() {
    // {h'61': 1}
    let mut m = IpldMap::new();
    m.insert("a".to_string(), Ipld::Integer(1));
    assert_eq!(decode(&[0xa1, 0x41, 0x61, 0x01]), Ok(Ipld::Dict(m)));
    // {h'c3a9': null}
    let mut m = IpldMap::new();
    m.insert("é".to_string(), Ipld::Null);
    assert_eq!(decode_ignoring_tags(&[0xa1, 0x42, 0xc3, 0xa9, 0xf6]), Ok(Ipld::Dict(m)));
    // {h'ff': 1}: not UTF-8
    assert_eq!(decode(&[0xa1, 0x41, 0xff, 0x01]), Err(DecodeError::NonTextKey));
    assert_eq!(decode_ignoring_tags(&[0xa1, 0x41, 0xff, 0x01]), Err(DecodeError::NonTextKey));
}
