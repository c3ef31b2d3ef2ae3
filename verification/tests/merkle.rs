use rezzy::collections::TextMap;
use rezzy::json::Json;
use rezzy::merkle::{
    canonical_json, component_hash, content_hash, event_root, header_root, leaf_hash,
    leaf_hash_bytes, leaf_path, redactable_content_hash, redacted_content_hash, root, split_content_hashes,
    verify_leaf_path, AuthEventsHash, EventHeaderRoot, Field, Header, MerkleError,
    OtherSignedFieldsHash, PrevEventsHash, Side,
};

fn text(value: &str) -> Json {
    Json::Text(value.to_string())
}

fn object(members: Vec<(&str, Json)>) -> Json {
    let mut map = TextMap::new();
    for (name, value) in members {
        map.insert(name.to_string(), value);
    }
    Json::Object(map)
}

fn node(left: [u8; 32], right: [u8; 32]) -> [u8; 32] {
    let mut input = b"msc4511:node:v1".to_vec();
    input.extend_from_slice(&left);
    input.extend_from_slice(&right);
    <sha3::Sha3_256 as sha3::Digest>::digest(&input).into()
}

fn fields(names: &[&str]) -> Vec<Field> {
    names
        .iter()
        .map(|name| Field::new(name, text(name)))
        .collect()
}

#[test]
fn canonical_json_sorts_keys_and_escapes_text() {
    let value = object(vec![
        ("b", Json::Array(vec![Json::Null, Json::Bool(true), Json::Bool(false)])),
        ("a", Json::Integer(-7)),
        ("c", text("\"\\\n\u{1}é")),
        ("d", Json::Unsigned(9_007_199_254_740_991)),
    ]);
    assert_eq!(
        canonical_json(&value).unwrap(),
        "{\"a\":-7,\"b\":[null,true,false],\"c\":\"\\\"\\\\\\n\\u0001é\",\"d\":9007199254740991}"
            .as_bytes()
    );
}

#[test]
fn canonical_json_refuses_inexact_numbers() {
    assert_eq!(
        canonical_json(&Json::Array(vec![Json::Fraction])),
        Err(MerkleError::UnsupportedNumber)
    );
    assert_eq!(
        canonical_json(&Json::Integer(9_007_199_254_740_992)),
        Err(MerkleError::IntegerRange)
    );
    assert_eq!(
        canonical_json(&Json::Integer(-9_007_199_254_740_992)),
        Err(MerkleError::IntegerRange)
    );
    assert_eq!(
        canonical_json(&Json::Unsigned(u64::MAX)),
        Err(MerkleError::IntegerRange)
    );
    assert!(canonical_json(&Json::Integer(-9_007_199_254_740_991)).is_ok());
}

#[test]
fn field_names_are_checked() {
    assert_eq!(leaf_hash("", b"1"), Err(MerkleError::EmptyFieldName));
    assert_eq!(leaf_hash("a\0b", b"1"), Err(MerkleError::InvalidFieldName));
    assert_eq!(
        leaf_hash_bytes(b"\xff", b"1"),
        Err(MerkleError::InvalidFieldName)
    );
    assert_eq!(leaf_hash_bytes(b"a", b"1"), leaf_hash("a", b"1"));
}

#[test]
fn roots_pair_sorted_leaves() {
    let leaf = |name: &str| component_hash(name, &text(name)).unwrap();
    assert_eq!(root(&fields(&["a"])), Ok(leaf("a")));
    assert_eq!(root(&fields(&["b", "a"])), Ok(node(leaf("a"), leaf("b"))));
    assert_eq!(root(&fields(&["c", "a", "b"])), root(&fields(&["a", "b", "c"])));
    assert_ne!(root(&fields(&["a", "b"])), root(&fields(&["a", "c"])));
}

#[test]
fn roots_refuse_no_fields_and_repeated_ones() {
    assert_eq!(
        root(&fields(&["a", "b", "a"])),
        Err(MerkleError::DuplicateField("a".to_string()))
    );
    assert_eq!(root(&[]), Err(MerkleError::NoLeaves));
    assert_eq!(
        MerkleError::DuplicateField("a".to_string()).message(),
        "merkle: duplicate field: a"
    );
}

#[test]
fn every_leaf_path_verifies() {
    for count in 1..9 {
        let names: Vec<String> = (0..count).map(|i| format!("field{i}")).collect();
        let listed: Vec<&str> = names.iter().map(|name| name.as_str()).collect();
        let all = fields(&listed);
        let top = root(&all).unwrap();
        for name in &listed {
            let (path, found) = leaf_path(&all, name).unwrap();
            assert_eq!(found, top);
            let leaf = component_hash(name, &text(name)).unwrap();
            assert!(verify_leaf_path(leaf, &path, top));
            assert!(!verify_leaf_path([0; 32], &path, top));
        }
    }
    assert_eq!(
        leaf_path(&fields(&["a", "b"]), "c").unwrap_err(),
        MerkleError::FieldNotFound("c".to_string())
    );
}

#[test]
fn leaf_paths_name_the_sibling() {
    let (path, _) = leaf_path(&fields(&["a", "b"]), "a").unwrap();
    assert_eq!(path.len(), 1);
    assert_eq!(path[0].side, Side::Right);
    assert_eq!(path[0].hash, component_hash("b", &text("b")).unwrap());
}

#[test]
fn content_splits_into_two_halves() {
    let kept = object(vec![("membership", text("join"))]);
    let dropped = object(vec![("displayname", text("Alice"))]);
    let (redacted, redactable) = split_content_hashes(&kept, &dropped).unwrap();
    assert_eq!(Ok(redacted), redacted_content_hash(&kept));
    assert_eq!(Ok(redactable), redactable_content_hash(&dropped));
    assert_eq!(content_hash(redacted, redactable).0, node(redacted, redactable));
}

#[test]
fn event_roots_depend_on_every_component() {
    let header = Header {
        room_id: "!room:x".to_string(),
        sender_localpart: "alice".to_string(),
        sender_domain: "x".to_string(),
        event_type: "m.room.member".to_string(),
        state_key: Some("@alice:x".to_string()),
        redacts: None,
        depth: 3,
        origin_server_ts: 7,
    };
    let top = header_root(&header).unwrap();
    let content = content_hash([1; 32], [2; 32]);
    let whole = event_root(
        PrevEventsHash([3; 32]),
        AuthEventsHash([4; 32]),
        top,
        content,
        OtherSignedFieldsHash([5; 32]),
    );
    let changed = event_root(
        PrevEventsHash([3; 32]),
        AuthEventsHash([4; 32]),
        EventHeaderRoot([6; 32]),
        content,
        OtherSignedFieldsHash([5; 32]),
    );
    assert_ne!(whole, changed);
    let unkeyed = Header { state_key: None, ..header };
    assert_ne!(header_root(&unkeyed).unwrap().0, top.0);
}
