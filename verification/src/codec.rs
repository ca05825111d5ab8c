//! The frames that peers exchange, as JSON trees: how values, paths and
//! writes are put into them and read out of them.

use crate::assoc::lookup;
use crate::json::{members_view, Json, JsonView};
use crate::model::NodeView;
use crate::node::{optional, Node};
use crate::stamp::{read_ticks, ticks_of, ticks_written, write_ticks};
use crate::store::texts;
use crate::value::{entries_view, GunValue, Numeric, NumericView, ValueView};
use vstd::prelude::*;
use vstd::string::*;

verus! {

/// The keys of a path written as one text, with a `/` between neighbours.
pub open spec fn joined(path: Seq<Seq<char>>) -> Seq<char>
    decreases path.len(),
{
    if path.len() == 0 {
        Seq::empty()
    } else if path.len() == 1 {
        path[0]
    } else {
        joined(path.drop_last()) + seq!['/'] + path.last()
    }
}

/// The pieces of a text between its `/`s. A text without one is a single
/// piece; so is the empty text.
pub open spec fn split(soul: Seq<char>) -> Seq<Seq<char>>
    decreases soul.len(),
{
    if soul.len() == 0 {
        seq![Seq::empty()]
    } else {
        let before = split(soul.drop_last());
        if soul.last() == '/' {
            before.push(Seq::empty())
        } else {
            before.update(before.len() - 1, before.last().push(soul.last()))
        }
    }
}

/// The keys that a soul names, from the root down. The empty soul names none:
/// it stands for the root.
pub open spec fn components(soul: Seq<char>) -> Seq<Seq<char>> {
    if soul.len() == 0 {
        Seq::empty()
    } else {
        split(soul)
    }
}

/// No key of the list is empty.
pub open spec fn all_filled(keys: Seq<Seq<char>>) -> bool {
    forall|i: int| 0 <= i < keys.len() ==> (#[trigger] keys[i]).len() > 0
}

/// A text always has a piece.
pub proof fn lemma_split_len(soul: Seq<char>)
    ensures
        split(soul).len() >= 1,
    decreases soul.len(),
{
    if soul.len() > 0 {
        lemma_split_len(soul.drop_last());
    }
}

/// Writes the keys of a path as one text.
pub fn join_path(path: &Vec<String>) -> (soul: String)
    ensures
        soul@ == joined(texts(path@)),
{
    let mut soul = String::new();
    let mut i: usize = 0;
    proof {
        reveal_strlit("/");
        assert(texts(path@).take(0) =~= Seq::empty());
    }
    while i < path.len()
        invariant
            i <= path.len(),
            "/"@ == seq!['/'],
            soul@ == joined(texts(path@).take(i as int)),
        decreases path.len() - i,
    {
        proof {
            let longer = texts(path@).take(i + 1);
            assert(longer.drop_last() =~= texts(path@).take(i as int));
            assert(longer.last() == path@[i as int]@);
            if i == 0 {
                assert(soul@ + path@[i as int]@ =~= path@[i as int]@);
            }
        }
        if i > 0 {
            soul.append("/");
        }
        soul.append(path[i].as_str());
        i += 1;
    }
    assert(texts(path@).take(i as int) =~= texts(path@));
    soul
}

/// Cuts a text at its `/`s.
pub fn split_path(soul: &str) -> (pieces: Vec<String>)
    ensures
        texts(pieces@) == split(soul@),
{
    let length = soul.unicode_len();
    let mut pieces: Vec<String> = Vec::new();
    let mut start: usize = 0;
    let mut at: usize = 0;
    proof {
        assert(soul@.take(0) =~= Seq::empty());
        assert(texts(pieces@) =~= split(soul@.take(0)).drop_last());
        assert(soul@.subrange(0, 0) =~= split(soul@.take(0)).last());
    }
    for c in it: soul.chars()
        invariant
            at == it.index(),
            it.seq() == soul@,
            length == soul@.len(),
            start <= at <= length,
            texts(pieces@) == split(soul@.take(at as int)).drop_last(),
            soul@.subrange(start as int, at as int) == split(soul@.take(at as int)).last(),
    {
        proof {
            let longer = soul@.take(at + 1);
            assert(longer.drop_last() =~= soul@.take(at as int));
            assert(longer.last() == c);
            lemma_split_len(soul@.take(at as int));
        }
        let ghost before = split(soul@.take(at as int));
        let ghost listed = texts(pieces@);
        if c == '/' {
            let piece = String::from_str(soul.substring_char(start, at));
            pieces.push(piece);
            start = at + 1;
            proof {
                assert(texts(pieces@) =~= listed.push(piece@));
                assert(listed.push(before.last()) =~= before);
                assert(texts(pieces@) =~= before.push(Seq::empty()).drop_last());
                assert(soul@.subrange(at + 1, at + 1) =~= Seq::<char>::empty());
            }
        } else {
            proof {
                let after = before.update(before.len() - 1, before.last().push(c));
                assert(after.drop_last() =~= before.drop_last());
                assert(soul@.subrange(start as int, at + 1) =~= soul@.subrange(
                    start as int,
                    at as int,
                ).push(c));
            }
        }
        at = at + 1;
    }
    let ghost listed = texts(pieces@);
    let last = String::from_str(soul.substring_char(start, length));
    pieces.push(last);
    proof {
        assert(soul@.take(at as int) =~= soul@);
        lemma_split_len(soul@);
        assert(texts(pieces@) =~= listed.push(last@));
        assert(listed.push(split(soul@).last()) =~= split(soul@));
    }
    pieces
}

/// The keys that a soul names.
pub fn path_keys(soul: &str) -> (keys: Vec<String>)
    ensures
        texts(keys@) == components(soul@),
{
    if soul.is_empty() {
        let keys: Vec<String> = Vec::new();
        assert(texts(keys@) =~= Seq::empty());
        keys
    } else {
        split_path(soul)
    }
}

/// Whether no key of the list is empty.
pub fn keys_filled(keys: &Vec<String>) -> (filled: bool)
    ensures
        filled == all_filled(texts(keys@)),
{
    let mut i: usize = 0;
    while i < keys.len()
        invariant
            i <= keys.len(),
            forall|j: int| 0 <= j < i ==> (#[trigger] texts(keys@)[j]).len() > 0,
        decreases keys.len() - i,
    {
        if keys[i].as_str().is_empty() {
            assert(texts(keys@)[i as int].len() == 0);
            return false;
        }
        i += 1;
    }
    true
}

/// A value as JSON: a scalar as itself, a link as an object whose one member
/// `#` is the id, children as an object with a member for each.
pub open spec fn encoded(value: ValueView) -> JsonView
    decreases value,
{
    match value {
        ValueView::Null => JsonView::Null,
        ValueView::Bit(b) => JsonView::Bool(b),
        ValueView::Number(n) => JsonView::Number(n),
        ValueView::Text(s) => JsonView::Text(s),
        ValueView::Link(id) => JsonView::Object(
            seq![("#"@, JsonView::Number(NumericView::Unsigned(id as u64)))],
        ),
        ValueView::Children(entries) => JsonView::Object(encoded_entries(entries)),
    }
}

/// The entries of a list of children as members of an object.
pub open spec fn encoded_entries(entries: Seq<(Seq<char>, ValueView)>) -> Seq<
    (Seq<char>, JsonView),
>
    decreases entries,
{
    if entries.len() == 0 {
        Seq::empty()
    } else {
        encoded_entries(entries.drop_last()).push(
            (entries.last().0, encoded(entries.last().1)),
        )
    }
}

/// Whether the members are those of a link: a single member of key `#`.
pub open spec fn is_link(members: Seq<(Seq<char>, JsonView)>) -> bool {
    members.len() == 1 && members[0].0 == "#"@
}

/// The value that JSON stands for, where it stands for one. An array stands
/// for none, nor does a link whose target is not an id, nor an object with a
/// member that stands for none.
pub open spec fn decoded(json: JsonView) -> Option<ValueView>
    decreases json,
{
    match json {
        JsonView::Null => Some(ValueView::Null),
        JsonView::Bool(b) => Some(ValueView::Bit(b)),
        JsonView::Number(n) => Some(ValueView::Number(n)),
        JsonView::Text(s) => Some(ValueView::Text(s)),
        JsonView::Array(_) => None,
        JsonView::Object(members) => if is_link(members) {
            match members[0].1 {
                JsonView::Number(NumericView::Unsigned(id)) => if id <= usize::MAX {
                    Some(ValueView::Link(id as usize))
                } else {
                    None
                },
                _ => None,
            }
        } else {
            match decoded_entries(members) {
                Some(entries) => Some(ValueView::Children(entries)),
                None => None,
            }
        },
    }
}

/// The members of an object as entries of a list of children, where each
/// stands for a value.
pub open spec fn decoded_entries(members: Seq<(Seq<char>, JsonView)>) -> Option<
    Seq<(Seq<char>, ValueView)>,
>
    decreases members,
{
    if members.len() == 0 {
        Some(Seq::empty())
    } else {
        match (decoded_entries(members.drop_last()), decoded(members.last().1)) {
            (Some(entries), Some(value)) => Some(entries.push((members.last().0, value))),
            _ => None,
        }
    }
}

/// Writes a value as JSON.
#[verifier::loop_isolation(false)]
pub fn encode(value: &GunValue) -> (json: Json)
    ensures
        json@ == encoded(value@),
    decreases value,
{
    match value {
        GunValue::Null => Json::Null,
        GunValue::Bit(b) => Json::Bool(*b),
        GunValue::Number(n) => Json::Number(n.clone()),
        GunValue::Text(s) => Json::Text(s.clone()),
        GunValue::Link(id) => {
            let mut members: Vec<(String, Json)> = Vec::new();
            members.push((String::from_str("#"), Json::Number(Numeric::Unsigned(*id as u64))));
            assert(members_view(members@) =~= seq![
                ("#"@, JsonView::Number(NumericView::Unsigned(*id as u64))),
            ]);
            Json::Object(members)
        },
        GunValue::Children(entries) => {
            let ghost listed = entries_view(entries@);
            let mut members: Vec<(String, Json)> = Vec::new();
            let mut i: usize = 0;
            assert(listed.take(0) =~= Seq::empty());
            assert(members_view(members@) =~= Seq::empty());
            while i < entries.len()
                invariant
                    i <= entries.len(),
                    listed == entries_view(entries@),
                    members_view(members@) == encoded_entries(listed.take(i as int)),
                decreases entries.len() - i,
            {
                let ghost so_far = members_view(members@);
                let entry = &entries[i];
                let member = (entry.0.clone(), encode(&entry.1));
                members.push(member);
                proof {
                    let longer = listed.take(i + 1);
                    assert(longer.drop_last() =~= listed.take(i as int));
                    assert(longer.last() == (entry.0@, entry.1@));
                    assert(members_view(members@) =~= so_far.push((member.0@, member.1@)));
                }
                i += 1;
            }
            assert(listed.take(i as int) =~= listed);
            Json::Object(members)
        },
    }
}

/// Reads the value that JSON stands for.
#[verifier::loop_isolation(false)]
pub fn decode(json: &Json) -> (value: Option<GunValue>)
    ensures
        optional(value) == decoded(json@),
    decreases json,
{
    match json {
        Json::Null => Some(GunValue::Null),
        Json::Bool(b) => Some(GunValue::Bit(*b)),
        Json::Number(n) => Some(GunValue::Number(n.clone())),
        Json::Text(s) => Some(GunValue::Text(s.clone())),
        Json::Array(_) => None,
        Json::Object(members) => {
            let ghost listed = members_view(members@);
            let hash = String::from_str("#");
            if members.len() == 1 && members[0].0 == hash {
                assert(is_link(listed));
                match &members[0].1 {
                    Json::Number(Numeric::Unsigned(id)) => {
                        if *id <= usize::MAX as u64 {
                            Some(GunValue::Link(*id as usize))
                        } else {
                            None
                        }
                    },
                    _ => None,
                }
            } else {
                assert(!is_link(listed));
                let mut entries: Vec<(String, GunValue)> = Vec::new();
                let mut i: usize = 0;
                assert(listed.take(0) =~= Seq::empty());
                assert(entries_view(entries@) =~= Seq::empty());
                while i < members.len()
                    invariant
                        i <= members.len(),
                        listed == members_view(members@),
                        decoded_entries(listed.take(i as int)) == Some(entries_view(entries@)),
                    decreases members.len() - i,
                {
                    let ghost so_far = entries_view(entries@);
                    let member = &members[i];
                    proof {
                        let longer = listed.take(i + 1);
                        assert(longer.drop_last() =~= listed.take(i as int));
                        assert(longer.last() == (member.0@, member.1@));
                    }
                    match decode(&member.1) {
                        Some(value) => {
                            let entry = (member.0.clone(), value);
                            entries.push(entry);
                            assert(entries_view(entries@) =~= so_far.push((entry.0@, entry.1@)));
                        },
                        None => {
                            proof {
                                lemma_decoded_entries_fail(listed, i as int);
                            }
                            return None;
                        },
                    }
                    i += 1;
                }
                assert(listed.take(i as int) =~= listed);
                Some(GunValue::Children(entries))
            }
        },
    }
}

/// Where a member stands for no value, the members as a whole stand for no
/// list of children.
pub proof fn lemma_decoded_entries_fail(members: Seq<(Seq<char>, JsonView)>, at: int)
    requires
        0 <= at < members.len(),
        decoded(members[at].1).is_none(),
    ensures
        decoded_entries(members).is_none(),
    decreases members.len(),
{
    if at < members.len() - 1 {
        assert(members.drop_last()[at] == members[at]);
        lemma_decoded_entries_fail(members.drop_last(), at);
    }
}

/// The time that a state gives, in ticks: that of a number which counts
/// ticks. Anything else gives no time.
pub open spec fn stamp(json: JsonView) -> Option<u128> {
    match json {
        JsonView::Number(number) => ticks_of(number),
        _ => None,
    }
}

/// Reads the time that a state gives.
pub fn read_stamp(json: &Json) -> (at: Option<u128>)
    ensures
        at == stamp(json@),
{
    match json {
        Json::Number(number) => read_ticks(number),
        _ => None,
    }
}

/// The members of an entry and the states of its fields, where the entry is
/// an object whose record `_` is an object whose member `>` is an object.
pub open spec fn states_of(data: JsonView) -> Option<
    (Seq<(Seq<char>, JsonView)>, Seq<(Seq<char>, JsonView)>),
> {
    match data {
        JsonView::Object(members) => match lookup(members, "_"@) {
            Some(JsonView::Object(record)) => match lookup(record, ">"@) {
                Some(JsonView::Object(states)) => Some((members, states)),
                _ => None,
            },
            _ => None,
        },
        _ => None,
    }
}

/// The write that a frame tells last: the last field of the last entry of
/// its `put`, with the keys of the entry's soul, the time that the field's
/// state gives and the value that the entry holds for the field.
pub open spec fn last_write(frame: JsonView) -> Option<(Seq<Seq<char>>, Seq<char>, ValueView, u128)> {
    match frame {
        JsonView::Object(members) => match lookup(members, "put"@) {
            Some(JsonView::Object(entries)) => if entries.len() > 0 {
                match states_of(entries.last().1) {
                    Some((fields, states)) => if states.len() > 0 {
                        match (stamp(states.last().1), lookup(fields, states.last().0)) {
                            (Some(at), Some(json)) => match decoded(json) {
                                Some(value) => Some(
                                    (components(entries.last().0), states.last().0, value, at),
                                ),
                                None => None,
                            },
                            _ => None,
                        }
                    } else {
                        None
                    },
                    None => None,
                }
            } else {
                None
            },
            _ => None,
        },
        _ => None,
    }
}

/// The entry of a frame for one field of one soul: the field's value beside
/// the record `_`, which names the soul under `#` and gives the field's time
/// under `>`.
pub open spec fn state_entry(soul: Seq<char>, field: Seq<char>, value: JsonView, at: u128) -> JsonView {
    JsonView::Object(
        seq![
            (
                "_"@,
                JsonView::Object(
                    seq![
                        ("#"@, JsonView::Text(soul)),
                        (
                            ">"@,
                            JsonView::Object(
                                seq![(field, JsonView::Number(ticks_written(at)))],
                            ),
                        ),
                    ],
                ),
            ),
            (field, value),
        ],
    )
}

/// A link to a soul, as frames write it.
pub open spec fn soul_link(soul: Seq<char>) -> JsonView {
    JsonView::Object(seq![("#"@, JsonView::Text(soul))])
}

/// The entries that tie the ancestors of a path together: for each key of the
/// path but the first, up to the `count`-th, an entry under the soul of the
/// keys before it, whose field is the key and whose value links to the soul
/// that ends with the key.
pub open spec fn back_references(path: Seq<Seq<char>>, at: u128, count: int) -> Seq<
    (Seq<char>, JsonView),
>
    decreases count,
{
    if count <= 1 {
        Seq::empty()
    } else {
        let above = joined(path.take(count - 1));
        back_references(path, at, count - 1).push(
            (
                above,
                state_entry(above, path[count - 1], soul_link(joined(path.take(count))), at),
            ),
        )
    }
}

/// The frame that tells a write: the entries for the ancestors, then the entry
/// for the written field under the soul of the path, and the message id.
pub open spec fn put_frame(node: NodeView, value: ValueView, at: u128, id: Seq<char>) -> JsonView {
    JsonView::Object(
        seq![
            (
                "put"@,
                JsonView::Object(
                    back_references(node.path, at, node.path.len() as int).push(
                        (
                            joined(node.path),
                            state_entry(joined(node.path), node.key, encoded(value), at),
                        ),
                    ),
                ),
            ),
            ("#"@, JsonView::Text(id)),
        ],
    )
}

/// The frame that answers a request: the one entry for the vertex's field
/// under the soul of its path, and the message id.
pub open spec fn reply_frame(node: NodeView, value: ValueView, at: u128, id: Seq<char>) -> JsonView {
    JsonView::Object(
        seq![
            (
                "put"@,
                JsonView::Object(
                    seq![
                        (
                            joined(node.path),
                            state_entry(joined(node.path), node.key, encoded(value), at),
                        ),
                    ],
                ),
            ),
            ("#"@, JsonView::Text(id)),
        ],
    )
}

/// The frame that asks for a vertex: by its key alone where it has no path,
/// else by the soul of its path under `#` and its key under `.`.
pub open spec fn get_frame(node: NodeView, id: Seq<char>) -> JsonView {
    let request = if node.path.len() > 0 {
        seq![("#"@, JsonView::Text(joined(node.path))), ("."@, JsonView::Text(node.key))]
    } else {
        seq![("#"@, JsonView::Text(node.key))]
    };
    JsonView::Object(seq![("get"@, JsonView::Object(request)), ("#"@, JsonView::Text(id))])
}

/// Builds an object of one member.
fn object_of_one(key: &str, value: Json) -> (json: Json)
    ensures
        json@ == JsonView::Object(seq![(key@, value@)]),
{
    let mut members: Vec<(String, Json)> = Vec::new();
    members.push((String::from_str(key), value));
    assert(members_view(members@) =~= seq![(key@, value@)]);
    Json::Object(members)
}

/// Builds an object of two members.
fn object_of_two(first: &str, one: Json, second: &str, other: Json) -> (json: Json)
    ensures
        json@ == JsonView::Object(seq![(first@, one@), (second@, other@)]),
{
    let mut members: Vec<(String, Json)> = Vec::new();
    members.push((String::from_str(first), one));
    members.push((String::from_str(second), other));
    assert(members_view(members@) =~= seq![(first@, one@), (second@, other@)]);
    Json::Object(members)
}

/// Builds the entry of a frame for one field of one soul.
pub fn build_entry(soul: &str, field: &str, value: Json, at: u128) -> (json: Json)
    ensures
        json@ == state_entry(soul@, field@, value@, at),
{
    let times = object_of_one(field, Json::Number(write_ticks(at)));
    let record = object_of_two("#", Json::Text(String::from_str(soul)), ">", times);
    object_of_two("_", record, field, value)
}

/// Copies the first `count` strings of a list.
fn first_strings(strings: &Vec<String>, count: usize) -> (copy: Vec<String>)
    requires
        count <= strings.len(),
    ensures
        texts(copy@) == texts(strings@).take(count as int),
{
    let mut copy: Vec<String> = Vec::new();
    let mut i: usize = 0;
    while i < count
        invariant
            i <= count <= strings.len(),
            copy@.len() == i,
            forall|j: int| 0 <= j < i ==> copy@[j]@ == strings@[j]@,
        decreases count - i,
    {
        copy.push(strings[i].clone());
        i += 1;
    }
    assert(texts(copy@) =~= texts(strings@).take(count as int));
    copy
}

/// Builds the frame that tells a write.
pub fn build_put_frame(node: &Node, value: &GunValue, at: u128, id: &str) -> (json: Json)
    ensures
        json@ == put_frame(node@, value@, at, id@),
{
    let path = node.path();
    let mut entries: Vec<(String, Json)> = Vec::new();
    let mut count: usize = 1;
    assert(members_view(entries@) =~= back_references(texts(path@), at, 1));
    while count < path.len()
        invariant
            1 <= count,
            count <= path.len() || (path.len() == 0 && count == 1),
            members_view(entries@) == back_references(texts(path@), at, count as int),
        decreases path.len() - count,
    {
        let ghost so_far = members_view(entries@);
        let above = join_path(&first_strings(path, count));
        let below = join_path(&first_strings(path, count + 1));
        let link = object_of_one("#", Json::Text(below));
        let entry = build_entry(above.as_str(), path[count].as_str(), link, at);
        let member = (above, entry);
        entries.push(member);
        assert(members_view(entries@) =~= so_far.push((member.0@, member.1@)));
        count += 1;
    }
    let ghost so_far = members_view(entries@);
    let soul = join_path(path);
    let entry = build_entry(soul.as_str(), node.key(), encode(value), at);
    let member = (soul, entry);
    entries.push(member);
    assert(members_view(entries@) =~= so_far.push((member.0@, member.1@)));
    proof {
        if node@.path.len() == 0 {
            assert(count == 1);
            assert(back_references(node@.path, at, 0) =~= Seq::empty());
            assert(back_references(node@.path, at, 1) =~= Seq::empty());
        } else {
            assert(count == node@.path.len());
        }
        assert(so_far == back_references(node@.path, at, node@.path.len() as int));
    }
    let listed = Json::Object(entries);
    assert(listed@ == JsonView::Object(members_view(entries@)));
    object_of_two("put", listed, "#", Json::Text(String::from_str(id)))
}

/// Builds the frame that answers a request.
pub fn build_reply_frame(node: &Node, value: &GunValue, at: u128, id: &str) -> (json: Json)
    ensures
        json@ == reply_frame(node@, value@, at, id@),
{
    let soul = join_path(node.path());
    let entry = build_entry(soul.as_str(), node.key(), encode(value), at);
    let entries = object_of_one(soul.as_str(), entry);
    object_of_two("put", entries, "#", Json::Text(String::from_str(id)))
}

/// Builds the frame that asks for a vertex.
pub fn build_get_frame(node: &Node, id: &str) -> (json: Json)
    ensures
        json@ == get_frame(node@, id@),
{
    let request = if node.path().len() > 0 {
        object_of_two(
            "#",
            Json::Text(join_path(node.path())),
            ".",
            Json::Text(String::from_str(node.key())),
        )
    } else {
        object_of_one("#", Json::Text(String::from_str(node.key())))
    };
    object_of_two("get", request, "#", Json::Text(String::from_str(id)))
}

} // verus!
