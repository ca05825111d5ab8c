use gun_core::codec::{
    build_entry, build_get_frame, build_put_frame, build_reply_frame, decode, encode, join_path,
    keys_filled, path_keys, read_stamp, split_path,
};
use gun_core::ids::{message_id_of, step};
use gun_core::json::find_member;
use gun_core::{Action, GunValue, Json, Node, NodeStore, Numeric};

fn text(s: &str) -> GunValue {
    GunValue::Text(s.to_string())
}

fn object(members: Vec<(&str, Json)>) -> Json {
    Json::Object(members.into_iter().map(|(key, value)| (key.to_string(), value)).collect())
}

fn string(s: &str) -> Json {
    Json::Text(s.to_string())
}

fn whole(n: u64) -> Json {
    Json::Number(Numeric::Unsigned(n))
}

const UNIT: u128 = 1_000_000_000;

fn strings(keys: &[&str]) -> Vec<String> {
    keys.iter().map(|key| key.to_string()).collect()
}

#[test]
fn paths_are_joined_with_slashes() {
    assert_eq!(join_path(&strings(&[])), "");
    assert_eq!(join_path(&strings(&["a"])), "a");
    assert_eq!(join_path(&strings(&["a", "b", "c"])), "a/b/c");
    assert_eq!(join_path(&strings(&["", ""])), "/");
}

#[test]
fn souls_are_cut_at_slashes() {
    assert_eq!(split_path(""), strings(&[""]));
    assert_eq!(split_path("a"), strings(&["a"]));
    assert_eq!(split_path("a/b/c"), strings(&["a", "b", "c"]));
    assert_eq!(split_path("a//b"), strings(&["a", "", "b"]));
    assert_eq!(split_path("/a/"), strings(&["", "a", ""]));
    assert_eq!(split_path("né/日本"), strings(&["né", "日本"]));
}

#[test]
fn the_empty_soul_names_the_root() {
    assert_eq!(path_keys(""), strings(&[]));
    assert_eq!(path_keys("a/b"), strings(&["a", "b"]));
    assert_eq!(path_keys("/"), strings(&["", ""]));
    assert!(keys_filled(&strings(&[])));
    assert!(keys_filled(&strings(&["a", "b"])));
    assert!(!keys_filled(&strings(&["a", "", "b"])));
}

#[test]
fn joining_then_cutting_gives_the_path_back() {
    for path in [strings(&[]), strings(&["a"]), strings(&["a", "b"]), strings(&["x", "yy", "zzz"])]
    {
        assert_eq!(path_keys(&join_path(&path)), path);
    }
}

#[test]
fn values_are_written_as_json() {
    assert_eq!(encode(&GunValue::Null), Json::Null);
    assert_eq!(encode(&GunValue::Bit(true)), Json::Bool(true));
    assert_eq!(encode(&GunValue::Number(Numeric::Signed(-3))), Json::Number(Numeric::Signed(-3)));
    assert_eq!(encode(&text("eagle")), string("eagle"));
    assert_eq!(encode(&GunValue::Link(5)), object(vec![("#", whole(5))]));
    assert_eq!(
        encode(
            &GunValue::Children(
                vec![("x".to_string(), text("1")), ("l".to_string(), GunValue::Link(2))]
            )
        ),
        object(vec![("x", string("1")), ("l", object(vec![("#", whole(2))]))])
    );
}

#[test]
fn json_is_read_as_values() {
    assert_eq!(decode(&Json::Null), Some(GunValue::Null));
    assert_eq!(decode(&Json::Bool(false)), Some(GunValue::Bit(false)));
    assert_eq!(decode(&whole(7)), Some(GunValue::Number(Numeric::Unsigned(7))));
    assert_eq!(
        decode(&Json::Number(Numeric::Real("7.5".to_string()))),
        Some(GunValue::Number(Numeric::Real("7.5".to_string())))
    );
    assert_eq!(decode(&string("eagle")), Some(text("eagle")));
    assert_eq!(decode(&object(vec![("#", whole(5))])), Some(GunValue::Link(5)));
    assert_eq!(decode(&object(vec![])), Some(GunValue::Children(vec![])));
    assert_eq!(
        decode(&object(vec![("x", string("1")), ("#", whole(2))])),
        Some(
            GunValue::Children(
                vec![
                    ("x".to_string(), text("1")),
                    ("#".to_string(), GunValue::Number(Numeric::Unsigned(2))),
                ]
            )
        )
    );
}

#[test]
fn some_json_stands_for_no_value() {
    assert_eq!(decode(&Json::Array(vec![])), None);
    assert_eq!(decode(&Json::Array(vec![whole(1)])), None);
    assert_eq!(decode(&object(vec![("#", string("a/b"))])), None);
    assert_eq!(decode(&object(vec![("#", Json::Number(Numeric::Signed(-1)))])), None);
    assert_eq!(decode(&object(vec![("x", whole(1)), ("y", Json::Array(vec![]))])), None);
    assert_eq!(decode(&object(vec![("x", object(vec![("y", Json::Array(vec![]))]))])), None);
}

#[test]
fn a_value_written_and_read_is_the_value() {
    let values = vec![
        GunValue::Null,
        GunValue::Bit(true),
        GunValue::Number(Numeric::Unsigned(u64::MAX)),
        GunValue::Number(Numeric::Signed(i64::MIN)),
        GunValue::Number(Numeric::Real("0.1".to_string())),
        text(""),
        text("eagle"),
        GunValue::Link(0),
        GunValue::Link(usize::MAX),
        GunValue::Children(vec![]),
        GunValue::Children(
            vec![
                ("a".to_string(), GunValue::Link(1)),
                ("b".to_string(), GunValue::Children(vec![("c".to_string(), text("d"))])),
            ]
        ),
    ];
    for value in values {
        assert_eq!(decode(&encode(&value)), Some(value));
    }
}

#[test]
fn children_that_look_like_a_link_are_read_as_one() {
    let value = GunValue::Children(vec![("#".to_string(), GunValue::Number(Numeric::Unsigned(5)))]);
    assert_eq!(decode(&encode(&value)), Some(GunValue::Link(5)));
}

#[test]
fn numbers_that_are_not_negative_are_times() {
    assert_eq!(read_stamp(&whole(100)), Some(100 * UNIT));
    assert_eq!(read_stamp(&whole(0)), Some(0));
    assert_eq!(read_stamp(&whole(u64::MAX)), Some(u64::MAX as u128 * UNIT));
    assert_eq!(
        read_stamp(&Json::Number(Numeric::Real("100.5".to_string()))),
        Some(100 * UNIT + UNIT / 2)
    );
    assert_eq!(read_stamp(&Json::Number(Numeric::Signed(-1))), None);
    assert_eq!(read_stamp(&Json::Number(Numeric::Real("-100.5".to_string()))), None);
    assert_eq!(read_stamp(&string("100")), None);
    assert_eq!(read_stamp(&Json::Bool(true)), None);
    assert_eq!(read_stamp(&Json::Null), None);
}

#[test]
fn the_last_member_of_a_key_counts() {
    let members = vec![
        ("a".to_string(), whole(1)),
        ("b".to_string(), whole(2)),
        ("a".to_string(), whole(3)),
    ];
    assert_eq!(find_member(&members, "a"), Some(&whole(3)));
    assert_eq!(find_member(&members, "b"), Some(&whole(2)));
    assert_eq!(find_member(&members, "c"), None);
    assert_eq!(find_member(&Vec::new(), "a"), None);
}

#[test]
fn an_entry_names_soul_field_time_and_value() {
    assert_eq!(
        build_entry("a/b", "c", string("v"), 5 * UNIT),
        object(
            vec![
                ("_", object(vec![("#", string("a/b")), (">", object(vec![("c", whole(5))]))])),
                ("c", string("v")),
            ]
        )
    );
}

#[test]
fn a_get_frame_asks_by_key_or_by_soul_and_key() {
    let mut store = NodeStore::new(0);
    let root = Node::new();
    let top = root.get(&mut store, "Meneldor");
    assert_eq!(
        build_get_frame(&top, "abcd1234"),
        object(vec![("get", object(vec![("#", string("Meneldor"))])), ("#", string("abcd1234"))])
    );
    let deep = top.get(&mut store, "wings").get(&mut store, "left");
    assert_eq!(
        build_get_frame(&deep, "abcd1234"),
        object(
            vec![
                ("get", object(vec![("#", string("Meneldor/wings")), (".", string("left"))])),
                ("#", string("abcd1234")),
            ]
        )
    );
}

#[test]
fn a_put_frame_of_a_top_vertex_has_the_empty_soul() {
    let mut store = NodeStore::new(0);
    let node = Node::new().get(&mut store, "Meneldor");
    assert_eq!(
        build_put_frame(&node, &text("eagle"), 7 * UNIT, "abcd1234"),
        object(
            vec![
                ("put", object(vec![("", build_entry("", "Meneldor", string("eagle"), 7 * UNIT))])),
                ("#", string("abcd1234")),
            ]
        )
    );
}

#[test]
fn a_put_frame_ties_the_ancestors_together() {
    let mut store = NodeStore::new(0);
    let root = Node::new();
    let node = root.get(&mut store, "a").get(&mut store, "b").get(&mut store, "c").get(
        &mut store,
        "d",
    );
    assert_eq!(
        build_put_frame(&node, &GunValue::Bit(true), 9 * UNIT, "abcd1234"),
        object(
            vec![
                (
                    "put",
                    object(
                        vec![
                            ("a", build_entry("a", "b", object(vec![("#", string("a/b"))]), 9 * UNIT)),
                            (
                                "a/b",
                                build_entry("a/b", "c", object(vec![("#", string("a/b/c"))]), 9 * UNIT),
                            ),
                            ("a/b/c", build_entry("a/b/c", "d", Json::Bool(true), 9 * UNIT)),
                        ]
                    ),
                ),
                ("#", string("abcd1234")),
            ]
        )
    );
}

#[test]
fn a_reply_frame_has_the_one_entry() {
    let mut store = NodeStore::new(0);
    let node = Node::new().get(&mut store, "a").get(&mut store, "b").get(&mut store, "c");
    assert_eq!(
        build_reply_frame(&node, &text("v"), 3 * UNIT, "abcd1234"),
        object(
            vec![
                ("put", object(vec![("a/b", build_entry("a/b", "c", string("v"), 3 * UNIT))])),
                ("#", string("abcd1234")),
            ]
        )
    );
}

#[test]
fn frames_are_rendered_as_json_text() {
    let mut store = NodeStore::new(0);
    let root = Node::new();
    let node = root.get(&mut store, "a").get(&mut store, "x");
    let first = message_id_of(step(0));
    let second = message_id_of(step(step(0)));
    assert_eq!(
        node.create_get_msg(&mut store),
        format!("{{\"#\":\"{}\",\"get\":{{\"#\":\"a\",\".\":\"x\"}}}}", first)
    );
    assert_eq!(
        node.create_put_msg(&mut store, &text("v"), 5 * UNIT),
        format!(
            "{{\"#\":\"{}\",\"put\":{{\"a\":{{\"_\":{{\"#\":\"a\",\">\":{{\"x\":5}}}},\"x\":\"v\"}}}}}}",
            second
        )
    );
}

#[test]
fn rendered_frames_parse_back() {
    let mut store = NodeStore::new(0);
    let root = Node::new();
    let node = root.get(&mut store, "a").get(&mut store, "x");
    let value = GunValue::Children(
        vec![
            ("t".to_string(), text("quote \" and \\ slash")),
            ("n".to_string(), GunValue::Number(Numeric::Real("7.5".to_string()))),
            ("i".to_string(), GunValue::Number(Numeric::Signed(-12))),
            ("l".to_string(), GunValue::Link(3)),
            ("z".to_string(), GunValue::Null),
        ],
    );
    let frame = node.create_put_msg(&mut store, &value, 1700000000000000 * UNIT);
    let parsed: serde_json::Value = serde_json::from_str(&frame).unwrap();
    let entry = &parsed["put"]["a"];
    assert_eq!(entry["_"]["#"].as_str(), Some("a"));
    assert_eq!(entry["_"][">"]["x"].as_u64(), Some(1700000000000000));
    assert_eq!(entry["x"]["t"].as_str(), Some("quote \" and \\ slash"));
    assert_eq!(entry["x"]["n"].as_f64(), Some(7.5));
    assert_eq!(entry["x"]["i"].as_i64(), Some(-12));
    assert_eq!(entry["x"]["l"]["#"].as_u64(), Some(3));
    assert!(entry["x"]["z"].is_null());
    assert_eq!(parsed["#"].as_str().map(|id| id.len()), Some(8));
}

#[test]
fn a_literal_that_is_no_number_is_rendered_as_null() {
    let mut store = NodeStore::new(0);
    let node = Node::new().get(&mut store, "n");
    let value = GunValue::Number(Numeric::Real("seven".to_string()));
    let frame = node.create_put_msg(&mut store, &value, 1);
    let parsed: serde_json::Value = serde_json::from_str(&frame).unwrap();
    assert!(parsed["put"][""]["n"].is_null());
}

#[test]
fn put_leaves_the_frame_to_send_last() {
    let mut store = NodeStore::new(0);
    let node = Node::new().get(&mut store, "Finglas");
    let (_, _) = node.on(&mut store);
    let actions = node.put(&mut store, text("Fingolfin"), 12 * UNIT);
    assert_eq!(actions.len(), 2);
    assert!(matches!(actions[0], Action::Deliver(_)));
    let id = message_id_of(step(step(0)));
    assert_eq!(
        actions[1],
        Action::Send(
            format!(
                "{{\"#\":\"{}\",\"put\":{{\"\":{{\"Finglas\":\"Fingolfin\",\"_\":{{\"#\":\"\",\">\":{{\"Finglas\":12}}}}}}}}}}",
                id
            )
        )
    );
}

#[test]
fn a_time_with_a_fraction_is_written_with_nine_places() {
    let mut store = NodeStore::new(0);
    let node = Node::new().get(&mut store, "a").get(&mut store, "x");
    let at = 1698523456789012 * UNIT + 500_000_000;
    let frame = node.create_put_msg(&mut store, &text("v"), at);
    let id = message_id_of(step(0));
    assert_eq!(
        frame,
        format!(
            "{{\"#\":\"{}\",\"put\":{{\"a\":{{\"_\":{{\"#\":\"a\",\">\":{{\"x\":1698523456789012.5}}}},\"x\":\"v\"}}}}}}",
            id
        )
    );
    let entry = build_entry("a", "x", string("v"), at);
    if let Json::Object(members) = &entry {
        let record = find_member(members, "_").unwrap();
        if let Json::Object(record) = record {
            if let Some(Json::Object(states)) = find_member(record, ">") {
                assert_eq!(
                    states[0].1,
                    Json::Number(Numeric::Real("1698523456789012.500000000".to_string()))
                );
                assert_eq!(read_stamp(&states[0].1), Some(at));
                return;
            }
        }
    }
    panic!("an entry has a record with states");
}
