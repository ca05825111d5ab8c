use gun_core::codec::{build_entry, build_put_frame};
use gun_core::ids::{message_id_of, step};
use gun_core::{Action, GunValue, Json, Node, NodeStore, Notification, Numeric};

fn text(s: &str) -> GunValue {
    GunValue::Text(s.to_string())
}

fn object(members: Vec<(&str, Json)>) -> Json {
    Json::Object(members.into_iter().map(|(key, value)| (key.to_string(), value)).collect())
}

fn string(s: &str) -> Json {
    Json::Text(s.to_string())
}

const UNIT: u128 = 1_000_000_000;

fn put_of(soul: &str, field: &str, value: Json, at: u128) -> Json {
    object(
        vec![
            ("put", object(vec![(soul, build_entry(soul, field, value, at * UNIT))])),
            ("#", string("abcd1234")),
        ],
    )
}

fn value_at(store: &mut NodeStore, keys: &[&str]) -> Option<GunValue> {
    let mut node = Node::new();
    for key in keys {
        node = node.get(store, key);
    }
    store.value(node.id())
}

#[test]
fn lww_rejection() {
    let mut store = NodeStore::new(0);
    let root = Node::new();
    root.incoming_message(&mut store, &put_of("a", "x", string("old"), 100), false);
    assert_eq!(value_at(&mut store, &["a", "x"]), Some(text("old")));
    let actions = root.incoming_message(&mut store, &put_of("a", "x", string("older"), 50), false);
    assert!(actions.is_empty());
    assert_eq!(value_at(&mut store, &["a", "x"]), Some(text("old")));
    let x = root.get(&mut store, "a").get(&mut store, "x");
    assert_eq!(store.updated_at(x.id()), 100 * UNIT);
}

#[test]
fn lww_acceptance() {
    let mut store = NodeStore::new(0);
    let root = Node::new();
    root.incoming_message(&mut store, &put_of("a", "x", string("old"), 100), false);
    root.incoming_message(&mut store, &put_of("a", "x", string("newer"), 200), false);
    assert_eq!(value_at(&mut store, &["a", "x"]), Some(text("newer")));
    let x = root.get(&mut store, "a").get(&mut store, "x");
    assert_eq!(store.updated_at(x.id()), 200 * UNIT);
}

#[test]
fn equal_times_are_not_applied() {
    let mut store = NodeStore::new(0);
    let root = Node::new();
    root.incoming_message(&mut store, &put_of("a", "x", string("first"), 100), false);
    root.incoming_message(&mut store, &put_of("a", "x", string("second"), 100), false);
    assert_eq!(value_at(&mut store, &["a", "x"]), Some(text("first")));
}

#[test]
fn a_write_at_time_zero_is_never_taken() {
    let mut store = NodeStore::new(0);
    let root = Node::new();
    root.incoming_message(&mut store, &put_of("a", "x", string("v"), 0), false);
    assert_eq!(value_at(&mut store, &["a", "x"]), None);
}

#[test]
fn the_same_frame_twice_is_the_frame_once() {
    let mut store = NodeStore::new(0);
    let root = Node::new();
    let frame = put_of("a/b", "x", string("v"), 100);
    let first = root.incoming_message(&mut store, &frame, false);
    assert!(first.is_empty());
    let len = store.len();
    let x = root.get(&mut store, "a").get(&mut store, "b").get(&mut store, "x");
    let (subscription_id, _) = x.on(&mut store);
    assert_eq!(subscription_id, 1);
    let second = root.incoming_message(&mut store, &frame, false);
    assert!(second.is_empty());
    assert_eq!(store.len(), len);
    assert_eq!(store.value(x.id()), Some(text("v")));
    assert_eq!(store.updated_at(x.id()), 100 * UNIT);
}

#[test]
fn writes_to_different_vertices_commute() {
    let one = put_of("a", "x", string("1"), 10);
    let other = put_of("b", "y", string("2"), 5);
    let root = Node::new();
    let mut left = NodeStore::new(0);
    for key in ["a", "b"] {
        root.get(&mut left, key);
    }
    root.get(&mut left, "a").get(&mut left, "x");
    root.get(&mut left, "b").get(&mut left, "y");
    let mut right = NodeStore::new(0);
    for key in ["a", "b"] {
        root.get(&mut right, key);
    }
    root.get(&mut right, "a").get(&mut right, "x");
    root.get(&mut right, "b").get(&mut right, "y");
    root.incoming_message(&mut left, &one, false);
    root.incoming_message(&mut left, &other, false);
    root.incoming_message(&mut right, &other, false);
    root.incoming_message(&mut right, &one, false);
    assert_eq!(left.len(), right.len());
    for id in 0..left.len() {
        assert_eq!(left.value(id), right.value(id));
        assert_eq!(left.updated_at(id), right.updated_at(id));
        assert_eq!(left.child_count(id), right.child_count(id));
    }
}

#[test]
fn the_latest_write_wins_in_either_order() {
    let early = put_of("a", "x", string("early"), 10);
    let late = put_of("a", "x", string("late"), 20);
    let root = Node::new();
    let mut left = NodeStore::new(0);
    root.incoming_message(&mut left, &early, false);
    root.incoming_message(&mut left, &late, false);
    let mut right = NodeStore::new(0);
    root.incoming_message(&mut right, &late, false);
    root.incoming_message(&mut right, &early, false);
    assert_eq!(value_at(&mut left, &["a", "x"]), Some(text("late")));
    assert_eq!(value_at(&mut right, &["a", "x"]), Some(text("late")));
}

#[test]
fn accepted_writes_have_rising_times() {
    let mut store = NodeStore::new(0);
    let root = Node::new();
    let x = root.get(&mut store, "a").get(&mut store, "x");
    let mut last = store.updated_at(x.id());
    for (at, word) in [(5, "a"), (3, "b"), (9, "c"), (9, "d"), (12, "e"), (1, "f")] {
        let before = store.value(x.id());
        root.incoming_message(&mut store, &put_of("a", "x", string(word), at), false);
        if store.value(x.id()) != before {
            assert!(store.updated_at(x.id()) > last);
            assert_eq!(store.updated_at(x.id()), at * UNIT);
        } else {
            assert_eq!(store.updated_at(x.id()), last);
        }
        last = store.updated_at(x.id());
    }
    assert_eq!(store.value(x.id()), Some(text("e")));
}

#[test]
fn incoming_get_reply() {
    let mut store = NodeStore::new(0);
    let root = Node::new();
    root.get(&mut store, "Meneldor").put(&mut store, text("eagle"), 1234 * UNIT);
    let frame =
        object(vec![("get", object(vec![("#", string("Meneldor"))])), ("#", string("abcd1234"))]);
    let actions = root.incoming_message(&mut store, &frame, false);
    assert_eq!(actions.len(), 1);
    let sent = match &actions[0] {
        Action::Send(frame) => frame.clone(),
        Action::Deliver(_) => panic!("a request is answered by a frame"),
    };
    let parsed: serde_json::Value = serde_json::from_str(&sent).unwrap();
    let entry = &parsed["put"][""];
    assert_eq!(entry["Meneldor"].as_str(), Some("eagle"));
    assert_eq!(entry["_"]["#"].as_str(), Some(""));
    assert_eq!(entry["_"][">"]["Meneldor"].as_u64(), Some(1234));
    let id = parsed["#"].as_str().unwrap();
    assert_eq!(id.len(), 8);
    assert!(id.chars().all(|c| c.is_ascii_alphanumeric()));
    assert_eq!(id, message_id_of(step(step(0))));
}

#[test]
fn a_get_with_a_field_goes_down_soul_then_field() {
    let mut store = NodeStore::new(0);
    let root = Node::new();
    root.get(&mut store, "a").get(&mut store, "b").get(&mut store, "c").put_local(
        &mut store,
        text("deep"),
        77 * UNIT,
    );
    let frame = object(vec![("get", object(vec![("#", string("a/b")), (".", string("c"))]))]);
    let actions = root.incoming_message(&mut store, &frame, false);
    let id = message_id_of(step(0));
    assert_eq!(
        actions,
        vec![
            Action::Send(
                format!(
                    "{{\"#\":\"{}\",\"put\":{{\"a/b\":{{\"_\":{{\"#\":\"a/b\",\">\":{{\"c\":77}}}},\"c\":\"deep\"}}}}}}",
                    id
                )
            ),
        ]
    );
}

#[test]
fn a_get_for_an_interior_vertex_is_answered_with_the_aggregate() {
    let mut store = NodeStore::new(0);
    let root = Node::new();
    root.get(&mut store, "a").get(&mut store, "x").put_local(&mut store, text("1"), 5 * UNIT);
    let frame = object(vec![("get", object(vec![("#", string("a"))]))]);
    let actions = root.incoming_message(&mut store, &frame, false);
    assert_eq!(actions.len(), 1);
    if let Action::Send(sent) = &actions[0] {
        let parsed: serde_json::Value = serde_json::from_str(sent).unwrap();
        assert_eq!(parsed["put"][""]["a"]["x"].as_str(), Some("1"));
        assert_eq!(parsed["put"][""]["_"][">"]["a"].as_u64(), Some(0));
    } else {
        panic!("a request is answered by a frame");
    }
}

#[test]
fn a_get_for_nothing_sends_nothing_but_makes_the_vertices() {
    let mut store = NodeStore::new(0);
    let root = Node::new();
    let frame = object(vec![("get", object(vec![("#", string("x/y")), (".", string("z"))]))]);
    let actions = root.incoming_message(&mut store, &frame, false);
    assert!(actions.is_empty());
    assert_eq!(store.len(), 4);
}

#[test]
fn malformed_frames_are_dropped() {
    let mut store = NodeStore::new(0);
    let root = Node::new();
    let frames = vec![
        Json::Null,
        Json::Bool(true),
        string("put"),
        Json::Number(Numeric::Unsigned(1)),
        object(vec![]),
        object(vec![("put", string("a"))]),
        object(vec![("get", Json::Array(vec![]))]),
        object(vec![("get", object(vec![]))]),
        object(vec![("get", object(vec![("#", Json::Number(Numeric::Unsigned(1)))]))]),
        object(vec![("get", object(vec![("#", string("a//b"))]))]),
        object(vec![("get", object(vec![("#", string("a")), (".", Json::Null)]))]),
        object(vec![("get", object(vec![("#", string("a")), (".", string(""))]))]),
        put_of("a//b", "x", string("v"), 1),
        put_of("/a", "x", string("v"), 1),
    ];
    for frame in frames {
        let actions = root.incoming_message(&mut store, &frame, false);
        assert!(actions.is_empty());
        assert_eq!(store.len(), 1);
    }
}

#[test]
fn a_bad_field_is_dropped_and_the_rest_is_merged() {
    let mut store = NodeStore::new(0);
    let root = Node::new();
    let entry = object(
        vec![
            (
                "_",
                object(
                    vec![
                        ("#", string("a")),
                        (
                            ">",
                            object(
                                vec![
                                    ("when", string("noon")),
                                    ("", Json::Number(Numeric::Unsigned(5))),
                                    ("list", Json::Number(Numeric::Unsigned(5))),
                                    ("gone", Json::Number(Numeric::Unsigned(5))),
                                    ("back", Json::Number(Numeric::Unsigned(5))),
                                    ("fine", Json::Number(Numeric::Unsigned(5))),
                                ]
                            ),
                        ),
                    ]
                ),
            ),
            ("when", string("v")),
            ("", string("v")),
            ("list", Json::Array(vec![])),
            ("back", object(vec![("#", string("a/b"))])),
            ("fine", string("v")),
        ],
    );
    let frame = object(vec![("put", object(vec![("a", entry)]))]);
    root.incoming_message(&mut store, &frame, false);
    let a = root.get(&mut store, "a");
    assert_eq!(store.child(a.id(), "when"), None);
    assert_eq!(store.child(a.id(), ""), None);
    for key in ["list", "gone", "back"] {
        let id = store.child(a.id(), key).unwrap();
        assert_eq!(store.value(id), None);
        assert_eq!(store.updated_at(id), 0);
    }
    assert_eq!(value_at(&mut store, &["a", "fine"]), Some(text("v")));
}

#[test]
fn an_entry_without_states_only_makes_the_vertices() {
    let mut store = NodeStore::new(0);
    let root = Node::new();
    let frame = object(vec![("put", object(vec![("a/b", object(vec![("x", string("v"))]))]))]);
    let actions = root.incoming_message(&mut store, &frame, false);
    assert!(actions.is_empty());
    assert_eq!(store.len(), 3);
    assert_eq!(value_at(&mut store, &["a", "b"]), None);
}

#[test]
fn arrays_are_taken_one_level_deep() {
    let mut store = NodeStore::new(0);
    let root = Node::new();
    let frame = Json::Array(
        vec![
            put_of("a", "x", string("1"), 1),
            Json::Array(vec![put_of("a", "y", string("2"), 1)]),
            Json::Null,
            put_of("a", "z", string("3"), 1),
        ],
    );
    root.incoming_message(&mut store, &frame, false);
    let a = root.get(&mut store, "a");
    assert_eq!(value_at(&mut store, &["a", "x"]), Some(text("1")));
    assert_eq!(store.child(a.id(), "y"), None);
    assert_eq!(value_at(&mut store, &["a", "z"]), Some(text("3")));
}

#[test]
fn an_array_inside_an_array_is_dropped() {
    let mut store = NodeStore::new(0);
    let root = Node::new();
    let frame = Json::Array(vec![put_of("a", "x", string("1"), 1)]);
    let actions = root.incoming_message(&mut store, &frame, true);
    assert!(actions.is_empty());
    assert_eq!(store.len(), 1);
}

#[test]
fn put_comes_before_get_in_one_frame() {
    let mut store = NodeStore::new(0);
    let root = Node::new();
    let (subscription_id, _) = root.get(&mut store, "a").map(&mut store);
    let frame = object(
        vec![
            ("get", object(vec![("#", string("a")), (".", string("x"))])),
            ("put", object(vec![("a", build_entry("a", "x", string("v"), 3 * UNIT))])),
        ],
    );
    let actions = root.incoming_message(&mut store, &frame, false);
    assert_eq!(actions.len(), 2);
    assert_eq!(
        actions[0],
        Action::Deliver(Notification { subscription_id, value: text("v"), key: "x".to_string() })
    );
    assert!(matches!(actions[1], Action::Send(_)));
}

#[test]
fn the_empty_soul_addresses_the_root() {
    let mut store = NodeStore::new(0);
    let root = Node::new();
    root.incoming_message(&mut store, &put_of("", "Meneldor", string("eagle"), 9), false);
    assert_eq!(value_at(&mut store, &["Meneldor"]), Some(text("eagle")));
    assert_eq!(store.len(), 2);
}

#[test]
fn a_sent_frame_is_merged_by_the_receiver() {
    let mut sender = NodeStore::new(0);
    let root = Node::new();
    let node = root.get(&mut sender, "a").get(&mut sender, "b").get(&mut sender, "c");
    let value = GunValue::Children(vec![("k".to_string(), GunValue::Bit(true))]);
    let frame = build_put_frame(&node, &value, 42 * UNIT + 7, "abcd1234");
    let mut receiver = NodeStore::new(0);
    root.incoming_message(&mut receiver, &frame, false);
    assert_eq!(value_at(&mut receiver, &["a", "b", "c"]), Some(value));
    let there = root.get(&mut receiver, "a").get(&mut receiver, "b").get(&mut receiver, "c");
    assert_eq!(receiver.updated_at(there.id()), 42 * UNIT + 7);
    assert_eq!(there.path(), node.path());
    assert_eq!(there.key(), node.key());
}

#[test]
fn incoming_writes_tell_subscribers() {
    let mut store = NodeStore::new(0);
    let root = Node::new();
    let x = root.get(&mut store, "a").get(&mut store, "x");
    let (subscription_id, _) = x.on(&mut store);
    let actions = root.incoming_message(&mut store, &put_of("a", "x", string("v"), 3), false);
    assert_eq!(
        actions,
        vec![
            Action::Deliver(
                Notification { subscription_id, value: text("v"), key: "x".to_string() }
            ),
        ]
    );
}

#[test]
fn a_later_fraction_of_a_unit_wins() {
    let mut store = NodeStore::new(0);
    let root = Node::new();
    let at = |literal: &str| Json::Number(Numeric::Real(literal.to_string()));
    let frame = |value: &str, literal: &str| {
        object(
            vec![
                (
                    "put",
                    object(
                        vec![
                            (
                                "a",
                                object(
                                    vec![
                                        (
                                            "_",
                                            object(
                                                vec![
                                                    ("#", string("a")),
                                                    (">", object(vec![("x", at(literal))])),
                                                ]
                                            ),
                                        ),
                                        ("x", string(value)),
                                    ]
                                ),
                            ),
                        ]
                    ),
                ),
            ],
        )
    };
    root.incoming_message(&mut store, &frame("first", "1698523456789012.25"), false);
    assert_eq!(value_at(&mut store, &["a", "x"]), Some(text("first")));
    root.incoming_message(&mut store, &frame("same", "1698523456789012.250"), false);
    assert_eq!(value_at(&mut store, &["a", "x"]), Some(text("first")));
    root.incoming_message(&mut store, &frame("earlier", "1698523456789012.2"), false);
    assert_eq!(value_at(&mut store, &["a", "x"]), Some(text("first")));
    root.incoming_message(&mut store, &frame("later", "1698523456789012.5"), false);
    assert_eq!(value_at(&mut store, &["a", "x"]), Some(text("later")));
    root.incoming_message(&mut store, &frame("no time", "1.7e15"), false);
    assert_eq!(value_at(&mut store, &["a", "x"]), Some(text("later")));
    let x = root.get(&mut store, "a").get(&mut store, "x");
    assert_eq!(store.updated_at(x.id()), 1698523456789012 * UNIT + UNIT / 2);
}

#[test]
fn a_time_far_ahead_is_applied_at_once() {
    let mut store = NodeStore::new(0);
    let root = Node::new();
    root.incoming_message(&mut store, &put_of("a", "x", string("now"), 1_700_000_000_000_000), false);
    root.incoming_message(&mut store, &put_of("a", "x", string("far"), u64::MAX as u128), false);
    assert_eq!(value_at(&mut store, &["a", "x"]), Some(text("far")));
    let x = root.get(&mut store, "a").get(&mut store, "x");
    assert_eq!(store.updated_at(x.id()), u64::MAX as u128 * UNIT);
}

#[test]
fn unknown_fields_are_ignored() {
    let mut store = NodeStore::new(0);
    let root = Node::new();
    let frame = object(
        vec![
            ("ok", Json::Bool(true)),
            ("put", object(vec![("a", build_entry("a", "x", string("v"), UNIT))])),
            ("@", string("abcd1234")),
            ("#", Json::Number(Numeric::Unsigned(7))),
        ],
    );
    let actions = root.incoming_message(&mut store, &frame, false);
    assert!(actions.is_empty());
    assert_eq!(value_at(&mut store, &["a", "x"]), Some(text("v")));
}
