use graphstore::codec::{
    build_datetime_value, build_edge_key, build_edge_prop_key, build_range_key, build_type_value,
    build_vertex_key, build_vertex_prop_key, decode_datetime_value, decode_edge_key,
    decode_edge_prop_key, decode_range_key, decode_type_value, decode_vertex_key,
    decode_vertex_prop_key,
};
use graphstore::types::{Datetime, Id, Type};

fn id_a() -> Id {
    Id::new([0x11; 16])
}

fn id_b() -> Id {
    Id::new([0x22; 16])
}

fn ty(s: &str) -> Type {
    Type::new(s.as_bytes().to_vec()).unwrap()
}

#[test]
fn range_key_is_42_bytes() {
    let k = build_range_key(&id_a(), &ty("t"), Datetime::new(1000), &id_b());
    assert_eq!(k.len(), 16 + 1 + 1 + 8 + 16);
}

#[test]
fn range_key_component_offsets() {
    let base = build_range_key(&id_a(), &ty("t"), Datetime::new(1000), &id_b());
    // a different first id changes bytes only inside [0, 16)
    let k = build_range_key(&id_b(), &ty("t"), Datetime::new(1000), &id_b());
    assert!(base[..16] != k[..16]);
    assert_eq!(&base[16..], &k[16..]);
    // a different type changes the byte at offset 17 (after the length byte)
    let k = build_range_key(&id_a(), &ty("u"), Datetime::new(1000), &id_b());
    assert_eq!(&base[..17], &k[..17]);
    assert_ne!(base[17], k[17]);
    assert_eq!(&base[18..], &k[18..]);
    // a different instant changes bytes only inside [18, 26)
    let k = build_range_key(&id_a(), &ty("t"), Datetime::new(1001), &id_b());
    assert_eq!(&base[..18], &k[..18]);
    assert!(base[18..26] != k[18..26]);
    assert_eq!(&base[26..], &k[26..]);
    // a different second id changes bytes only inside [26, 42)
    let k = build_range_key(&id_a(), &ty("t"), Datetime::new(1000), &id_a());
    assert_eq!(&base[..26], &k[..26]);
    assert!(base[26..] != k[26..]);
}

#[test]
fn range_key_round_trip() {
    let k = build_range_key(&id_a(), &ty("follows"), Datetime::new(1_700_000_000_000), &id_b());
    let (f, t, d, s) = decode_range_key(&k).unwrap();
    assert_eq!(f, id_a());
    assert_eq!(t, ty("follows"));
    assert_eq!(d, Datetime::new(1_700_000_000_000));
    assert_eq!(s, id_b());
}

#[test]
fn edge_key_round_trip() {
    let k = build_edge_key(&id_a(), &ty("follows"), &id_b());
    let (o, t, i) = decode_edge_key(&k).unwrap();
    assert_eq!(o, id_a());
    assert_eq!(t, ty("follows"));
    assert_eq!(i, id_b());
}

#[test]
fn vertex_key_round_trip() {
    let k = build_vertex_key(&id_a());
    assert_eq!(decode_vertex_key(&k).unwrap(), id_a());
}

#[test]
fn property_key_round_trips() {
    let k = build_vertex_prop_key(&id_a(), &b"name".to_vec());
    let (v, name) = decode_vertex_prop_key(&k).unwrap();
    assert_eq!(v, id_a());
    assert_eq!(name, b"name".to_vec());

    let k = build_edge_prop_key(&id_a(), &ty("follows"), &id_b(), &b"weight".to_vec());
    let (o, t, i, name) = decode_edge_prop_key(&k).unwrap();
    assert_eq!(o, id_a());
    assert_eq!(t, ty("follows"));
    assert_eq!(i, id_b());
    assert_eq!(name, b"weight".to_vec());
}

#[test]
fn value_round_trips() {
    let v = build_type_value(&ty("user"));
    assert_eq!(decode_type_value(&v).unwrap(), ty("user"));
    let v = build_datetime_value(Datetime::new(1000));
    assert_eq!(v.len(), 8);
    assert_eq!(decode_datetime_value(&v).unwrap(), Datetime::new(1000));
}

#[test]
fn datetime_encoding_is_exact() {
    let v = build_datetime_value(Datetime::new(1000));
    assert_eq!(v, vec![0, 0, 0, 0, 0, 0, 0x03, 0xe8]);
    let v = build_datetime_value(Datetime::new(u64::MAX));
    assert_eq!(v, vec![0xff; 8]);
}

#[test]
fn datetime_byte_order_is_time_order() {
    let early = build_datetime_value(Datetime::new(999));
    let late = build_datetime_value(Datetime::new(1000));
    let much_later = build_datetime_value(Datetime::new(1 << 40));
    assert!(early < late);
    assert!(late < much_later);
}

#[test]
fn tuple_order_follows_byte_order() {
    let t = ty("t");
    let k1 = build_range_key(&id_a(), &t, Datetime::new(5), &id_b());
    let k2 = build_range_key(&id_a(), &t, Datetime::new(6), &id_a());
    let k3 = build_range_key(&id_b(), &t, Datetime::new(0), &id_a());
    assert!(k1 < k2);
    assert!(k2 < k3);
}

#[test]
fn malformed_keys_are_rejected() {
    assert!(decode_vertex_key(&vec![0x11; 15]).is_none());
    assert!(decode_vertex_key(&vec![0x11; 17]).is_none());
    // a type length byte of zero is illegal
    let mut k = build_edge_key(&id_a(), &ty("t"), &id_b());
    k[16] = 0;
    assert!(decode_edge_key(&k).is_none());
    // truncated range key
    let mut k = build_range_key(&id_a(), &ty("t"), Datetime::new(7), &id_b());
    k.pop();
    assert!(decode_range_key(&k).is_none());
    // a malformed stored value
    assert!(decode_datetime_value(&vec![1, 2, 3]).is_none());
    assert!(decode_type_value(&vec![0, b'x']).is_none());
}

#[test]
fn type_label_bounds() {
    assert!(Type::new(Vec::new()).is_none());
    assert!(Type::new(vec![b'a'; 255]).is_some());
    assert!(Type::new(vec![b'a'; 256]).is_none());
}
