use ipld::{Ipld, IpldMap};

#[test]
fn get_after_insert() {
    let mut m = IpldMap::new();
    assert_eq!(m.insert("k".to_string(), Ipld::Integer(1)), None);
    assert_eq!(m.insert("j".to_string(), Ipld::Integer(2)), None);
    assert_eq!(m.get("k"), Some(&Ipld::Integer(1)));
    assert_eq!(m.get("j"), Some(&Ipld::Integer(2)));
    assert_eq!(m.get("x"), None);
    assert_eq!(m.insert("k".to_string(), Ipld::Null), Some(Ipld::Integer(1)));
    assert_eq!(m.get("k"), Some(&Ipld::Null));
    assert_eq!(m.len(), 2);
}

#[test]
fn entries_are_in_key_order() {
    let mut m = IpldMap::new();
    for k in ["name", "details", "b", "aa", "é", "Z"] {
        m.insert(k.to_string(), Ipld::Null);
    }
    let keys: Vec<String> = (0..m.len()).map(|i| m.entry(i).0.clone()).collect();
    assert_eq!(keys, vec!["Z", "aa", "b", "details", "name", "é"]);
    assert!(m.keys_in_order());
}

#[test]
fn clone_gives_an_equal_value() {
    let mut inner = IpldMap::new();
    inner.insert("b".to_string(), Ipld::Bytes(vec![1, 2]));
    inner.insert("a".to_string(), Ipld::Link(vec![3]));
    let x = Ipld::List(vec![Ipld::Dict(inner.clone()), Ipld::String("s".to_string()), Ipld::Float(1.5f64.to_bits())]);
    let y = x.clone();
    assert_eq!(x, y);
    let copy = inner.clone();
    assert_eq!(copy, inner);
    assert_eq!(copy.entry(0).0, "a");
}

#[test]
fn every_value_has_maps_in_key_order() {
    let mut inner = IpldMap::new();
    inner.insert("z".to_string(), Ipld::Null);
    inner.insert("a".to_string(), Ipld::Null);
    let mut outer = IpldMap::new();
    outer.insert("l".to_string(), Ipld::List(vec![Ipld::Dict(inner)]));
    assert!(Ipld::Dict(outer).maps_in_key_order());
    assert!(Ipld::Integer(3).maps_in_key_order());
}
