use byteseek::encode::{
    array_to_tlv, json_from_text, tlv_dims, value_to_tlv, write_map, JsonInput, JsonNumber, KvWrite,
    TlvRequest,
};
use byteseek::json::{
    build_value, snapshot_readable, split_array_name, tlv_to_json, JsonValue, KvEntry, KvLeaf,
    KvNode,
};
use byteseek::tlv::{read_int, text_of, TlvHead};
use serde_json::Value;
use std::collections::BTreeMap;

/// A stored value laid out with its body at offset 0, as the head decoder
/// would describe it.
fn stored(kind: &str, raw: &[u8], arr_len: usize) -> KvLeaf {
    let dims = if arr_len > 1 { vec![arr_len as i32] } else { Vec::new() };
    KvLeaf {
        data: raw.to_vec(),
        head: Some(TlvHead {
            kind: kind.to_string(),
            dims,
            body_offset: 0,
            body_len: raw.len() as i64,
        }),
    }
}

fn i64_leaf(vals: &[i64]) -> KvLeaf {
    let mut raw = Vec::new();
    for v in vals {
        raw.extend_from_slice(&v.to_le_bytes());
    }
    stored("int64", &raw, vals.len())
}

fn leaf(name: &str, l: KvLeaf) -> KvEntry {
    KvEntry { name: name.to_string(), node: KvNode::Leaf(l) }
}

fn dir(name: &str, children: Vec<KvEntry>) -> KvEntry {
    KvEntry { name: name.to_string(), node: KvNode::Dir(children) }
}

fn to_serde(v: &JsonValue) -> Value {
    match v {
        JsonValue::Bool(b) => Value::Bool(*b),
        JsonValue::Int(i) => Value::from(*i),
        JsonValue::Float32(b) => Value::from(f32::from_bits(*b) as f64),
        JsonValue::Float64(b) => Value::from(f64::from_bits(*b)),
        JsonValue::Str(s) => Value::String(s.clone()),
        JsonValue::Array(a) => Value::Array(a.iter().map(to_serde).collect()),
        JsonValue::Object(m) => {
            let mut map = serde_json::Map::new();
            for (k, v) in m {
                map.insert(k.clone(), to_serde(v));
            }
            Value::Object(map)
        }
    }
}

/// Stands in for kvspace: each key holds what its request encodes.
fn apply(writes: &[KvWrite]) -> BTreeMap<String, (String, Vec<u8>, usize)> {
    let mut store = BTreeMap::new();
    for w in writes {
        if let KvWrite::SetTlv(key, req) = w {
            match req {
                TlvRequest::Encode { kind, raw, arr_len } => {
                    store.insert(key.clone(), (kind.clone(), raw.clone(), *arr_len));
                }
                TlvRequest::CharBytes(b) => {
                    store.insert(key.clone(), ("char/utf8".to_string(), b.clone(), 1));
                }
                TlvRequest::Empty => {}
            }
        }
    }
    store
}

#[test]
fn roundtrip() {
    let data = vec![
        leaf("age", i64_leaf(&[42])),
        leaf("name", stored("char/utf8", b"alice", 1)),
        leaf("score", stored("float64", &3.14f64.to_le_bytes(), 1)),
        leaf("active", stored("bool", &[1], 1)),
        dir("grp/", vec![leaf("c", i64_leaf(&[1])), leaf("d", i64_leaf(&[2]))]),
        leaf("cont", i64_leaf(&[10, 20, 30])),
        leaf("scat[0]", i64_leaf(&[10])),
        leaf("scat[1]", i64_leaf(&[20])),
        leaf("scat[2]", i64_leaf(&[30])),
    ];
    assert!(snapshot_readable(&data));
    let j = to_serde(&build_value(&data)).to_string();
    assert_eq!(
        j,
        r#"{"active":true,"age":42,"cont":[10,20,30],"grp":{"c":1,"d":2},"name":"alice","scat":[10,20,30],"score":3.14}"#
    );

    let writes = json_from_text("/data2", &j);
    let store = apply(&writes);
    let (kind, raw, _) = &store["/data2/age"];
    assert_eq!(kind, "int64");
    assert_eq!(read_int(raw), 42);
    let (kind, raw, _) = &store["/data2/name"];
    assert_eq!(text_of(kind, raw), "alice");
    let (_, raw, _) = &store["/data2/cont"];
    assert_eq!(read_int(&raw[0..8]), 10);
    assert_eq!(read_int(&raw[16..24]), 30);
    assert!(writes.iter().any(|w| matches!(w, KvWrite::MkIndex(p) if p == "/data2/grp/")));
}

#[test]
fn scattered_indices_are_sorted_and_missing_elements_read_empty() {
    let data = vec![
        leaf("v[2]", i64_leaf(&[30])),
        leaf("v[0]", i64_leaf(&[10])),
        leaf("v[01]", i64_leaf(&[99])),
    ];
    let j = to_serde(&build_value(&data)).to_string();
    // "v[01]" reads as index 1, whose key "v[1]" holds nothing.
    assert_eq!(j, r#"{"v":[10,"",30]}"#);
}

#[test]
fn later_members_replace_earlier_ones() {
    let data = vec![leaf("x", i64_leaf(&[1])), leaf("x[0]", i64_leaf(&[5])), dir("y//", vec![])];
    let j = to_serde(&build_value(&data)).to_string();
    assert_eq!(j, r#"{"x":[5],"y":{}}"#);
}

#[test]
fn split_array_name_cases() {
    assert_eq!(split_array_name("scat[0]"), Some(("scat".to_string(), 0)));
    assert_eq!(split_array_name("a[+5]"), Some(("a".to_string(), 5)));
    assert_eq!(split_array_name("a[x][2]"), Some(("a[x]".to_string(), 2)));
    assert_eq!(split_array_name("[3]"), None);
    assert_eq!(split_array_name("a[]"), None);
    assert_eq!(split_array_name("a[b]"), None);
    assert_eq!(split_array_name("a[1]x"), None);
    assert_eq!(split_array_name("plain"), None);
    assert_eq!(split_array_name("a[-1]"), None);
    assert_eq!(split_array_name("a[999999999999999999999999]"), None);
}

#[test]
fn tlv_to_json_kinds() {
    assert!(matches!(tlv_to_json("bool", &[0, 2, 1], 3), JsonValue::Array(ref a) if a.len() == 3));
    assert!(matches!(tlv_to_json("bool", &[], 1), JsonValue::Bool(false)));
    assert!(matches!(tlv_to_json("uint8", &[255], 1), JsonValue::Int(-1)));
    assert!(matches!(tlv_to_json("int16", &[0x34, 0x12], 1), JsonValue::Int(0x1234)));
    assert!(matches!(tlv_to_json("int32", &[1, 0, 0], 1), JsonValue::Int(0)));
    assert!(matches!(tlv_to_json("float32", &1.5f32.to_le_bytes(), 1), JsonValue::Float32(b) if b == 1.5f32.to_bits()));
    assert!(matches!(tlv_to_json("float64", &[1, 2], 1), JsonValue::Float64(0)));
    let mut utf32 = Vec::new();
    for c in "héllo".chars() {
        utf32.extend_from_slice(&(c as u32).to_le_bytes());
    }
    assert!(matches!(tlv_to_json("char/utf32", &utf32, 1), JsonValue::Str(ref s) if s == "héllo"));
    assert!(matches!(tlv_to_json("mystery", b"x\xffy", 1), JsonValue::Str(ref s) if s == "x\u{FFFD}y"));
    match tlv_to_json("int16", &[1, 0, 0xff, 0xff], 2) {
        JsonValue::Array(a) => {
            assert!(matches!(a[0], JsonValue::Int(1)));
            assert!(matches!(a[1], JsonValue::Int(-1)));
        }
        _ => panic!("expected an array"),
    }
}

#[test]
fn snapshot_readable_flags_short_bodies() {
    let short = KvLeaf {
        data: vec![1, 0],
        head: Some(TlvHead { kind: "bool".to_string(), dims: vec![3], body_offset: 0, body_len: 2 }),
    };
    assert!(!snapshot_readable(&vec![leaf("b", short)]));
    let huge = KvLeaf {
        data: vec![1],
        head: Some(TlvHead {
            kind: "bool".to_string(),
            dims: vec![i32::MAX, i32::MAX, i32::MAX],
            body_offset: 0,
            body_len: 1,
        }),
    };
    assert!(!snapshot_readable(&vec![dir("d/", vec![leaf("b", huge)])]));
    assert!(snapshot_readable(&vec![leaf("s", stored("char/utf8", b"ok", 1))]));
    // Only what reading reads counts: `v[01]` is read through the key `v[1]`.
    let short3 = || KvLeaf {
        data: vec![1],
        head: Some(TlvHead { kind: "bool".to_string(), dims: vec![3], body_offset: 0, body_len: 1 }),
    };
    assert!(snapshot_readable(&vec![leaf("v[01]", short3())]));
    assert!(!snapshot_readable(&vec![leaf("v[01]", i64_leaf(&[1])), leaf("v[1]", short3())]));
    assert!(snapshot_readable(&vec![leaf("d/", short3())]));
}

#[test]
fn value_and_array_requests() {
    let int = JsonInput::Number(JsonNumber { as_i64: Some(-2), f64_bits: (-2.0f64).to_bits() });
    let float = JsonInput::Number(JsonNumber { as_i64: None, f64_bits: 2.5f64.to_bits() });
    match value_to_tlv(&int) {
        TlvRequest::Encode { kind, raw, arr_len } => {
            assert_eq!(kind, "int64");
            assert_eq!(raw, (-2i64).to_le_bytes().to_vec());
            assert_eq!(arr_len, 1);
        }
        _ => panic!("expected an encoding"),
    }
    match value_to_tlv(&JsonInput::Str("é".to_string())) {
        TlvRequest::CharBytes(b) => assert_eq!(b, "é".as_bytes().to_vec()),
        _ => panic!("expected char bytes"),
    }
    assert!(matches!(value_to_tlv(&JsonInput::Null), TlvRequest::Empty));
    match array_to_tlv(&[int, float, JsonInput::Str("x".to_string())]) {
        TlvRequest::Encode { kind, raw, arr_len } => {
            assert_eq!(kind, "float64");
            assert_eq!(arr_len, 3);
            assert_eq!(&raw[8..16], &2.5f64.to_le_bytes());
            assert_eq!(&raw[16..24], &[0u8; 8]);
        }
        _ => panic!("expected an encoding"),
    }
    match array_to_tlv(&[JsonInput::Bool(true), JsonInput::Null]) {
        TlvRequest::Encode { kind, raw, arr_len } => {
            assert_eq!(kind, "bool");
            assert_eq!(raw, vec![1, 0]);
            assert_eq!(arr_len, 2);
        }
        _ => panic!("expected an encoding"),
    }
    assert!(matches!(array_to_tlv(&[]), TlvRequest::Empty));
    assert!(matches!(array_to_tlv(&[JsonInput::Str("s".to_string())]), TlvRequest::Empty));
}

#[test]
fn write_map_only_writes_objects() {
    assert!(write_map("/r", &JsonInput::Bool(true)).is_empty());
    let w = json_from_text("/r", r#"{"a":{"b":[true,false]},"n":null}"#);
    assert_eq!(w.len(), 3);
    assert!(matches!(&w[0], KvWrite::MkIndex(p) if p == "/r/a/"));
    assert!(matches!(&w[1], KvWrite::SetTlv(k, TlvRequest::Encode { .. }) if k == "/r/a/b"));
    assert!(matches!(&w[2], KvWrite::SetTlv(k, TlvRequest::Empty) if k == "/r/n"));
}

#[test]
fn stored_scalars_read_back() {
    let cases = [
        JsonInput::Number(JsonNumber { as_i64: Some(i64::MIN), f64_bits: 0 }),
        JsonInput::Number(JsonNumber { as_i64: None, f64_bits: 0.125f64.to_bits() }),
        JsonInput::Bool(true),
    ];
    for c in &cases {
        match value_to_tlv(c) {
            TlvRequest::Encode { kind, raw, arr_len } => {
                let back = tlv_to_json(&kind, &raw, arr_len);
                match (c, back) {
                    (JsonInput::Number(n), JsonValue::Int(i)) => assert_eq!(Some(i), n.as_i64),
                    (JsonInput::Number(n), JsonValue::Float64(b)) => assert_eq!(b, n.f64_bits),
                    (JsonInput::Bool(x), JsonValue::Bool(y)) => assert_eq!(*x, y),
                    _ => panic!("read back a different kind of value"),
                }
            }
            _ => panic!("expected an encoding"),
        }
    }
}

/// A kvspace subtree as the writes of `write_map` leave it.
enum Node {
    Dir(BTreeMap<String, Node>),
    Val(String, Vec<u8>, usize),
}

fn put(tree: &mut BTreeMap<String, Node>, path: &[&str], node: Node) {
    if path.len() == 1 {
        match (tree.get(path[0]), &node) {
            (Some(Node::Dir(_)), Node::Dir(_)) => {}
            _ => {
                tree.insert(path[0].to_string(), node);
            }
        }
        return;
    }
    let sub = tree.entry(path[0].to_string()).or_insert_with(|| Node::Dir(BTreeMap::new()));
    if let Node::Dir(children) = sub {
        put(children, &path[1..], node);
    }
}

fn listing(tree: &BTreeMap<String, Node>) -> Vec<KvEntry> {
    tree.iter()
        .map(|(name, node)| match node {
            Node::Dir(children) => dir(&format!("{name}/"), listing(children)),
            Node::Val(kind, raw, n) => leaf(name, stored(kind, raw, *n)),
        })
        .collect()
}

fn store_under(root: &str, writes: &[KvWrite]) -> Vec<KvEntry> {
    let mut tree = BTreeMap::new();
    for w in writes {
        match w {
            KvWrite::MkIndex(p) => {
                let rel = p.strip_prefix(root).unwrap().trim_matches('/');
                put(&mut tree, &rel.split('/').collect::<Vec<_>>(), Node::Dir(BTreeMap::new()));
            }
            KvWrite::SetTlv(k, req) => {
                let rel = k.strip_prefix(root).unwrap().trim_start_matches('/');
                let path: Vec<&str> = rel.split('/').collect();
                match req {
                    TlvRequest::Encode { kind, raw, arr_len } => {
                        put(&mut tree, &path, Node::Val(kind.clone(), raw.clone(), *arr_len))
                    }
                    TlvRequest::CharBytes(b) => {
                        put(&mut tree, &path, Node::Val("char/utf8".to_string(), b.clone(), 1))
                    }
                    TlvRequest::Empty => {}
                }
            }
        }
    }
    listing(&tree)
}

#[test]
fn object_roundtrip_reads_back_what_was_written() {
    let text = r#"{"a":{"b":[true,false],"e":{}},"f":1.5,"i":[7],"m":[1,2.5],"n":null,"s":"x","z":[]}"#;
    let entries = store_under("/r", &json_from_text("/r", text));
    assert!(snapshot_readable(&entries));
    let back = to_serde(&build_value(&entries)).to_string();
    // null and the empty array leave nothing; a one-element array reads back
    // as its element; numbers of a mixed array read back as floats.
    assert_eq!(back, r#"{"a":{"b":[true,false],"e":{}},"f":1.5,"i":7,"m":[1.0,2.5],"s":"x"}"#);
}

#[test]
fn json_text_that_is_no_object_writes_nothing() {
    assert!(json_from_text("/r", "not json").is_empty());
    assert!(json_from_text("/r", "[1,2]").is_empty());
    assert!(json_from_text("/r", "{\"a\":").is_empty());
    let w = json_from_text("/r", r#"{"big":18446744073709551615,"neg":-3}"#);
    assert_eq!(w.len(), 2);
    match &w[0] {
        KvWrite::SetTlv(k, TlvRequest::Encode { kind, raw, arr_len }) => {
            assert_eq!(k, "/r/big");
            assert_eq!(kind, "float64");
            assert_eq!(raw, &(18446744073709551615u64 as f64).to_le_bytes().to_vec());
            assert_eq!(*arr_len, 1);
        }
        _ => panic!("expected an encoding"),
    }
    match &w[1] {
        KvWrite::SetTlv(k, TlvRequest::Encode { kind, raw, .. }) => {
            assert_eq!(k, "/r/neg");
            assert_eq!(kind, "int64");
            assert_eq!(raw, &(-3i64).to_le_bytes().to_vec());
        }
        _ => panic!("expected an encoding"),
    }
}

#[test]
fn encoding_dimensions() {
    assert!(tlv_dims(0).is_empty());
    assert!(tlv_dims(1).is_empty());
    assert_eq!(tlv_dims(3), vec![3]);
}
