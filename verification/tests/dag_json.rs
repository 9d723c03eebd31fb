use ipld::dag_json::encode;
use ipld::{Ipld, IpldMap};

#[test]
fn test_encode_struct() {
    // Create a contact object that looks like:
    // Contact { name: "Hello World", details: CID }
    let mut map = IpldMap::new();
    map.insert("name".to_string(), Ipld::String("Hello World!".to_string()));
    map.insert("details".to_string(), Ipld::Link(vec![7, 8, 9]));
    let contact = Ipld::Dict(map);

    let contact_encoded = encode(&contact).unwrap();
    println!("encoded: {:02x?}", contact_encoded);
    println!("encoded string {}", std::str::from_utf8(&contact_encoded).unwrap());

    assert_eq!(
        std::str::from_utf8(&contact_encoded).unwrap(),
        r#"{"details":{"/":"BwgJ"},"name":"Hello World!"}"#
    );
}

fn json(x: Ipld) -> String {
    String::from_utf8(encode(&x).unwrap()).unwrap()
}

#[test]
fn scalars_as_json() {
    assert_eq!(json(Ipld::Null), "null");
    assert_eq!(json(Ipld::Bool(true)), "true");
    assert_eq!(json(Ipld::Bool(false)), "false");
    assert_eq!(json(Ipld::Integer(-1234)), "-1234");
    assert_eq!(json(Ipld::Integer(0)), "0");
    assert_eq!(json(Ipld::Integer(i128::MIN)), "-170141183460469231731687303715884105728");
    assert_eq!(json(Ipld::Bytes(vec![0, 10, 255])), "[0,10,255]");
    assert_eq!(json(Ipld::Bytes(vec![])), "[]");
}

#[test]
fn floats_as_json() {
    assert_eq!(json(Ipld::Float(1.5f64.to_bits())), "1.5");
    assert_eq!(json(Ipld::Float(f64::NAN.to_bits())), "null");
    assert_eq!(json(Ipld::Float(f64::NEG_INFINITY.to_bits())), "null");
}

#[test]
fn strings_are_escaped() {
    assert_eq!(json(Ipld::String("a\"b\\c\n\u{1}é".to_string())), "\"a\\\"b\\\\c\\n\\u0001é\"");
}

#[test]
fn links_as_base64() {
    assert_eq!(json(Ipld::Link(vec![])), r#"{"/":""}"#);
    assert_eq!(json(Ipld::Link(vec![0xff])), r#"{"/":"/w=="}"#);
    assert_eq!(json(Ipld::Link(vec![0xfb, 0xff])), r#"{"/":"+/8="}"#);
    assert_eq!(json(Ipld::Link(b"hello".to_vec())), r#"{"/":"aGVsbG8="}"#);
}

#[test]
fn lists_and_maps_as_json() {
    let mut m = IpldMap::new();
    m.insert("b".to_string(), Ipld::List(vec![Ipld::Integer(1), Ipld::Null]));
    m.insert("a".to_string(), Ipld::Dict(IpldMap::new()));
    assert_eq!(json(Ipld::Dict(m)), r#"{"a":{},"b":[1,null]}"#);
    assert_eq!(json(Ipld::List(vec![])), "[]");
}

#[test]
fn link_and_slash_map_are_written_alike() {
    let l = vec![1u8, 2, 3, 250];
    let mut m = IpldMap::new();
    m.insert("/".to_string(), Ipld::String("AQID+g==".to_string()));
    assert_eq!(encode(&Ipld::Link(l)).unwrap(), encode(&Ipld::Dict(m)).unwrap());
}

#[test]
fn containers_are_written_from_their_parts() {
    let a = Ipld::Integer(-7);
    let b = Ipld::String("x\"y".to_string());
    let text = |x: &Ipld| String::from_utf8(encode(x).unwrap()).unwrap();
    let list = Ipld::List(vec![a.clone(), b.clone()]);
    assert_eq!(text(&list), format!("[{},{}]", text(&a), text(&b)));
    assert_eq!(text(&Ipld::List(vec![])), "[]");
    let mut m = IpldMap::new();
    m.insert("k2".to_string(), b.clone());
    m.insert("k1".to_string(), a.clone());
    let map = Ipld::Dict(m);
    assert_eq!(
        text(&map),
        format!(
            "{{{}:{},{}:{}}}",
            text(&Ipld::String("k1".to_string())),
            text(&a),
            text(&Ipld::String("k2".to_string())),
            text(&b)
        )
    );
    assert_eq!(text(&Ipld::Dict(IpldMap::new())), "{}");
}
