//! What holds of the graph, of the merge and of the frames, whatever the
//! store and whatever the values.

use crate::assoc::{last_index, lemma_last_index, lookup};
use crate::codec::{
    all_filled, components, decoded, decoded_entries, encoded, encoded_entries, joined,
    last_write, lemma_split_len, put_frame, split, stamp, state_entry, states_of,
};
use crate::json::JsonView;
use crate::merge::{entry_received, field_received, fields_received, put_received, received};
use crate::node::ActionView;
use crate::stamp::{law_ticks_round_trip, ticks_written};
use crate::model::{
    initial_store, lemma_cleared, lemma_entered, lemma_written, NodeView, GraphView, VertexView,
};
use crate::value::{NumericView, ValueView};
use vstd::prelude::*;
use vstd::string::*;

verus! {

/// A store that holds the root alone is in order, and no vertex of it holds a
/// value.
pub proof fn law_initial_store(seed: u64)
    ensures
        initial_store(seed).wf(),
        initial_store(seed).scalars_are_leaves(),
{
    assert(initial_store(seed).vertex_wf(0));
}

/// In a graph that is in order, the child that a vertex has under a key is in
/// the store and lists the vertex, with that key, among its parents; and
/// every parent that a vertex lists is in the store.
pub proof fn law_edges_are_matched(store: GraphView, parent: usize, key: Seq<char>)
    requires
        store.wf(),
        store.contains(parent),
        lookup(store.vertices[parent as int].children, key).is_some(),
    ensures
        store.contains(lookup(store.vertices[parent as int].children, key).unwrap()),
        store.vertices[lookup(
            store.vertices[parent as int].children,
            key,
        ).unwrap() as int].parents.contains((parent, key)),
        forall|i: int|
            0 <= i < store.vertices[parent as int].parents.len() ==> store.contains(
                (#[trigger] store.vertices[parent as int].parents[i]).0,
            ),
{
    let children = store.vertices[parent as int].children;
    lemma_last_index(children, key);
    assert(store.vertex_wf(parent as int));
    assert(store.edge_wf(parent as int, children[last_index(children, key)]));
}

/// The vertex of a store after a write to the vertex `id`: the written one
/// holds the value, a parent of it holds none, any other is as it was.
pub proof fn lemma_written_vertex(store: GraphView, id: usize, value: ValueView, at: u128, v: int)
    requires
        store.wf(),
        store.contains(id),
        0 <= v < store.vertices.len(),
    ensures
        store.written(id, value, at).vertices[v] == if v == id {
            VertexView {
                updated_at: at,
                value: Some(value),
                children: Seq::empty(),
                ..store.vertices[v]
            }
        } else if exists|i: int|
            0 <= i < store.vertices[id as int].parents.len() && (
            #[trigger] store.vertices[id as int].parents[i]).0 == v {
            VertexView { value: None, ..store.vertices[v] }
        } else {
            store.vertices[v]
        },
{
    let parents = store.vertices[id as int].parents;
    let assigned = store.assigned(id, value, at);
    lemma_written(store, id, value, at);
    lemma_cleared(assigned, parents, parents.len() as int);
    assert(store.vertex_wf(id as int));
    if v != id {
        if exists|i: int| 0 <= i < parents.len() && (#[trigger] parents[i]).0 == v {
            let i = choose|i: int| 0 <= i < parents.len() && (#[trigger] parents[i]).0 == v;
            assert(assigned.contains(parents[i].0));
        } else {
            assert(forall|i: int| 0 <= i < parents.len() ==> (#[trigger] parents[i]).0 != v);
        }
    }
}

/// A write that is merged in is taken if and only if it is later than what
/// the vertex holds. Taken, it sets the time of the vertex to its own, which
/// is later than the time before; dropped, it changes nothing. The time of no
/// other vertex changes in either case.
pub proof fn law_accepted_writes_are_later(store: GraphView, id: usize, value: ValueView, at: u128)
    requires
        store.wf(),
        store.contains(id),
    ensures
        store.merged(id, value, at).wf(),
        store.vertices[id as int].updated_at < at ==> store.merged(
            id,
            value,
            at,
        ).vertices[id as int].updated_at == at && store.merged(id, value, at).vertices[id as int].value
            == Some(value),
        store.vertices[id as int].updated_at >= at ==> store.merged(id, value, at) == store,
        store.merged(id, value, at).vertices.len() == store.vertices.len(),
        forall|v: int|
            0 <= v < store.vertices.len() ==> store.vertices[v].updated_at <= (
            #[trigger] store.merged(id, value, at).vertices[v]).updated_at,
        forall|v: int|
            0 <= v < store.vertices.len() && v != id ==> store.vertices[v].updated_at == (
            #[trigger] store.merged(id, value, at).vertices[v]).updated_at,
{
    lemma_written(store, id, value, at);
}

/// Of two writes to a vertex that are merged in one after the other and both
/// taken, the second is the later.
pub proof fn law_later_write_is_later(
    store: GraphView,
    id: usize,
    first: ValueView,
    first_at: u128,
    second: ValueView,
    second_at: u128,
)
    requires
        store.wf(),
        store.contains(id),
        store.vertices[id as int].updated_at < first_at,
        store.merged(id, first, first_at).vertices[id as int].updated_at < second_at,
    ensures
        first_at < second_at,
{
    lemma_written(store, id, first, first_at);
}

/// Merging the same write in twice is merging it in once: the second time it
/// is not later than what the vertex holds.
pub proof fn law_merge_is_idempotent(store: GraphView, id: usize, value: ValueView, at: u128)
    requires
        store.wf(),
        store.contains(id),
    ensures
        store.merged(id, value, at).merged(id, value, at) == store.merged(id, value, at),
{
    lemma_written(store, id, value, at);
}

/// Whether the vertex lists `parent` among its parents.
pub open spec fn has_parent(store: GraphView, id: usize, parent: usize) -> bool {
    exists|i: int|
        0 <= i < store.vertices[id as int].parents.len() && (
        #[trigger] store.vertices[id as int].parents[i]).0 == parent
}

/// Writes to two vertices of which neither is a parent of the other give the
/// same store in either order.
pub proof fn law_merge_commutes(
    store: GraphView,
    a: usize,
    a_value: ValueView,
    a_at: u128,
    b: usize,
    b_value: ValueView,
    b_at: u128,
)
    requires
        store.wf(),
        store.contains(a),
        store.contains(b),
        a != b,
        !has_parent(store, a, b),
        !has_parent(store, b, a),
    ensures
        store.merged(a, a_value, a_at).merged(b, b_value, b_at) == store.merged(
            b,
            b_value,
            b_at,
        ).merged(a, a_value, a_at),
{
    let first = store.merged(a, a_value, a_at);
    let second = store.merged(b, b_value, b_at);
    let left = first.merged(b, b_value, b_at);
    let right = second.merged(a, a_value, a_at);
    lemma_written(store, a, a_value, a_at);
    lemma_written(store, b, b_value, b_at);
    lemma_written(first, b, b_value, b_at);
    lemma_written(second, a, a_value, a_at);
    assert(first.vertices[b as int].parents == store.vertices[b as int].parents);
    assert(second.vertices[a as int].parents == store.vertices[a as int].parents);
    assert forall|v: int| 0 <= v < store.vertices.len() implies left.vertices[v]
        == right.vertices[v] by {
        lemma_written_vertex(store, a, a_value, a_at, v);
        lemma_written_vertex(store, b, b_value, b_at, v);
        lemma_written_vertex(first, b, b_value, b_at, v);
        lemma_written_vertex(second, a, a_value, a_at, v);
        if exists|i: int|
            0 <= i < store.vertices[a as int].parents.len() && (
            #[trigger] store.vertices[a as int].parents[i]).0 == v {
            assert(v != b);
        }
        if exists|i: int|
            0 <= i < store.vertices[b as int].parents.len() && (
            #[trigger] store.vertices[b as int].parents[i]).0 == v {
            assert(v != a);
        }
    }
    assert(left.vertices =~= right.vertices);
}

/// Of two writes to one vertex with different times, the later one wins in
/// either order: the stores are the same, and where the later write is later
/// than what the vertex held, the vertex holds its value.
pub proof fn law_latest_write_wins(
    store: GraphView,
    id: usize,
    early: ValueView,
    early_at: u128,
    late: ValueView,
    late_at: u128,
)
    requires
        store.wf(),
        store.contains(id),
        early_at < late_at,
    ensures
        store.merged(id, early, early_at).merged(id, late, late_at) == store.merged(
            id,
            late,
            late_at,
        ).merged(id, early, early_at),
        store.vertices[id as int].updated_at < late_at ==> store.merged(
            id,
            early,
            early_at,
        ).merged(id, late, late_at).vertices[id as int].value == Some(late),
{
    let first = store.merged(id, early, early_at);
    let second = store.merged(id, late, late_at);
    let left = first.merged(id, late, late_at);
    let right = second.merged(id, early, early_at);
    lemma_written(store, id, early, early_at);
    lemma_written(store, id, late, late_at);
    lemma_written(first, id, late, late_at);
    assert forall|v: int| 0 <= v < store.vertices.len() implies left.vertices[v]
        == right.vertices[v] by {
        lemma_written_vertex(store, id, early, early_at, v);
        lemma_written_vertex(store, id, late, late_at, v);
        lemma_written_vertex(first, id, late, late_at, v);
    }
    assert(left.vertices =~= right.vertices);
}

/// No key of the list holds a `/`.
pub open spec fn slash_free(keys: Seq<Seq<char>>) -> bool {
    forall|i: int, j: int|
        0 <= i < keys.len() && 0 <= j < keys[i].len() ==> (#[trigger] keys[i][j]) != '/'
}

proof fn lemma_split_extended(soul: Seq<char>, key: Seq<char>)
    requires
        forall|j: int| 0 <= j < key.len() ==> key[j] != '/',
    ensures
        split(soul + key) == split(soul).update(
            split(soul).len() - 1,
            split(soul).last() + key,
        ),
    decreases key.len(),
{
    lemma_split_len(soul);
    if key.len() == 0 {
        assert(soul + key =~= soul);
        assert(split(soul).last() + key =~= split(soul).last());
        assert(split(soul).update(split(soul).len() - 1, split(soul).last()) =~= split(soul));
    } else {
        let shorter = key.drop_last();
        lemma_split_extended(soul, shorter);
        assert((soul + key).drop_last() =~= soul + shorter);
        assert((soul + key).last() == key.last());
        let before = split(soul + shorter);
        assert(before.last().push(key.last()) =~= split(soul).last() + key);
        assert(before.update(before.len() - 1, before.last().push(key.last())) =~= split(
            soul,
        ).update(split(soul).len() - 1, split(soul).last() + key));
    }
}

/// Joining the keys of a path and cutting the soul again at its `/`s gives
/// the path back, where no key is empty and none holds a `/`.
pub proof fn law_path_round_trip(path: Seq<Seq<char>>)
    requires
        all_filled(path),
        slash_free(path),
    ensures
        components(joined(path)) == path,
    decreases path.len(),
{
    if path.len() == 0 {
    } else if path.len() == 1 {
        let key = path[0];
        assert(key.len() > 0);
        assert forall|j: int| 0 <= j < key.len() implies key[j] != '/' by {
            assert(path[0][j] != '/');
        }
        let nothing = Seq::<char>::empty();
        lemma_split_extended(nothing, key);
        assert(nothing + key =~= key);
        assert(split(nothing).update(0, split(nothing).last() + key) =~= seq![key]);
        assert(path =~= seq![key]);
    } else {
        let above = path.drop_last();
        let key = path.last();
        assert(all_filled(above)) by {
            assert forall|i: int| 0 <= i < above.len() implies (#[trigger] above[i]).len() > 0 by {
                assert(path[i].len() > 0);
            }
        }
        assert(slash_free(above)) by {
            assert forall|i: int, j: int|
                0 <= i < above.len() && 0 <= j < above[i].len() implies (#[trigger] above[i][j])
                != '/' by {
                assert(path[i][j] != '/');
            }
        }
        law_path_round_trip(above);
        assert(key.len() > 0);
        assert forall|j: int| 0 <= j < key.len() implies key[j] != '/' by {
            assert(path[path.len() - 1][j] != '/');
        }
        let soul = joined(above);
        let cut = soul + seq!['/'];
        assert(cut.drop_last() =~= soul);
        assert(split(cut) == split(soul).push(Seq::empty()));
        lemma_split_extended(cut, key);
        assert(Seq::<char>::empty() + key =~= key);
        assert(split(cut).update(split(cut).len() - 1, split(cut).last() + key) =~= split(
            soul,
        ).push(key));
        assert(above.push(key) =~= path);
        assert(joined(path) =~= cut + key);
    }
}

/// Whether writing the value as JSON and reading it again can tell it from a
/// link: no list of children in it is a single entry of key `#`.
pub open spec fn plain(value: ValueView) -> bool
    decreases value,
{
    match value {
        ValueView::Children(entries) => !(entries.len() == 1 && entries[0].0 == "#"@)
            && plain_entries(entries),
        _ => true,
    }
}

/// Every value of the entries is plain.
pub open spec fn plain_entries(entries: Seq<(Seq<char>, ValueView)>) -> bool
    decreases entries,
{
    if entries.len() == 0 {
        true
    } else {
        plain(entries.last().1) && plain_entries(entries.drop_last())
    }
}

proof fn lemma_encoded_entries(entries: Seq<(Seq<char>, ValueView)>)
    ensures
        encoded_entries(entries).len() == entries.len(),
        forall|i: int|
            0 <= i < entries.len() ==> (#[trigger] encoded_entries(entries)[i]) == (
                entries[i].0,
                encoded(entries[i].1),
            ),
    decreases entries.len(),
{
    if entries.len() > 0 {
        lemma_encoded_entries(entries.drop_last());
        assert forall|i: int| 0 <= i < entries.len() implies (#[trigger] encoded_entries(
            entries,
        )[i]) == (entries[i].0, encoded(entries[i].1)) by {
            if i < entries.len() - 1 {
                assert(entries.drop_last()[i] == entries[i]);
            }
        }
    }
}

/// A plain value written as JSON and read again is the value.
pub proof fn law_value_round_trip(value: ValueView)
    requires
        plain(value),
    ensures
        decoded(encoded(value)) == Some(value),
    decreases value,
{
    match value {
        ValueView::Link(id) => {
            let members = seq![("#"@, JsonView::Number(NumericView::Unsigned(id as u64)))];
            assert(members[0].0 == "#"@);
        },
        ValueView::Children(entries) => {
            lemma_encoded_entries(entries);
            lemma_entries_round_trip(entries);
            let members = encoded_entries(entries);
            if members.len() == 1 {
                assert(members[0].0 == entries[0].0);
            }
        },
        _ => {},
    }
}

proof fn lemma_entries_round_trip(entries: Seq<(Seq<char>, ValueView)>)
    requires
        plain_entries(entries),
    ensures
        decoded_entries(encoded_entries(entries)) == Some(entries),
    decreases entries,
{
    if entries.len() > 0 {
        let shorter = entries.drop_last();
        lemma_entries_round_trip(shorter);
        law_value_round_trip(entries.last().1);
        let members = encoded_entries(entries);
        assert(members.drop_last() =~= encoded_entries(shorter));
        assert(members.last() == (entries.last().0, encoded(entries.last().1)));
        assert(shorter.push(entries.last()) =~= entries);
    } else {
        assert(entries =~= Seq::empty());
    }
}

/// A frame that tells a write gives the write back when it is read: path,
/// key, value and time. This needs the keys of the path to be filled and free
/// of `/`, the key not to be `_`, and the value to be plain.
pub proof fn law_put_frame_round_trip(node: NodeView, value: ValueView, at: u128, id: Seq<char>)
    requires
        all_filled(node.path),
        slash_free(node.path),
        node.key != "_"@,
        plain(value),
    ensures
        last_write(put_frame(node, value, at, id)) == Some((node.path, node.key, value, at)),
{
    reveal_strlit("put");
    reveal_strlit("#");
    reveal_strlit("_");
    reveal_strlit(">");
    law_path_round_trip(node.path);
    law_value_round_trip(value);
    let frame = put_frame(node, value, at, id)->Object_0;
    assert(frame[1].0 != "put"@) by {
        assert("#"@.len() == 1);
        assert("put"@.len() == 3);
    }
    assert(frame.drop_last() =~= seq![frame[0]]);
    assert(last_index(frame, "put"@) == 0) by {
        assert(last_index(frame.drop_last(), "put"@) == 0);
    }
    let entries = frame[0].1->Object_0;
    let soul = joined(node.path);
    let data = state_entry(soul, node.key, encoded(value), at);
    assert(entries.last() == (soul, data));
    let fields = data->Object_0;
    assert(fields.drop_last() =~= seq![fields[0]]);
    assert(last_index(fields, "_"@) == 0) by {
        assert(last_index(fields.drop_last(), "_"@) == 0);
    }
    assert(last_index(fields, node.key) == 1);
    let record = fields[0].1->Object_0;
    assert(record[1].0 == ">"@);
    assert(last_index(record, ">"@) == 1);
    let states = record[1].1->Object_0;
    assert(states_of(data) == Some((fields, states)));
    assert(states.last() == (node.key, JsonView::Number(ticks_written(at))));
    law_ticks_round_trip(at);
}

/// What a field of an entry does to the store is a merge: the store is gone
/// down to the field's vertex, and the value that the entry holds for the
/// field is merged in there at the time that the field's state gives.
pub proof fn law_fields_are_merged(
    store: GraphView,
    node: NodeView,
    data: Seq<(Seq<char>, JsonView)>,
    field: Seq<char>,
    state: JsonView,
)
    requires
        stamp(state).is_some(),
        field.len() > 0,
        lookup(data, field).is_some(),
        decoded(lookup(data, field).unwrap()).is_some(),
    ensures
        field_received(store, node, data, field, state).0 == store.entered(node, field).0.merged(
            store.entered(node, field).1.id,
            decoded(lookup(data, field).unwrap()).unwrap(),
            stamp(state).unwrap(),
        ),
{
}

/// The ways that going down by the keys passes, from `root` to the end.
pub open spec fn ways(store: GraphView, root: NodeView, keys: Seq<Seq<char>>) -> Seq<NodeView> {
    Seq::new(keys.len() + 1, |i: int| store.walked(root, keys, i).1)
}

/// In `store`, the vertex at the `i`-th way holds no value and has the next
/// way as its child under the `i`-th key.
pub open spec fn passable(store: GraphView, keys: Seq<Seq<char>>, way: Seq<NodeView>, i: int) -> bool {
    let vertex = store.vertices[way[i].id as int];
    &&& vertex.value.is_none()
    &&& lookup(vertex.children, keys[i]) == Some(way[i + 1].id)
    &&& way[i + 1] == NodeView {
        id: way[i + 1].id,
        key: keys[i],
        path: store.vertices[way[i + 1].id as int].path,
    }
}

/// Going down a way that is passable all along makes nothing new and ends
/// where the way ends.
proof fn lemma_rewalk(store: GraphView, root: NodeView, keys: Seq<Seq<char>>, way: Seq<NodeView>, count: int)
    requires
        way.len() == keys.len() + 1,
        way[0] == root,
        0 <= count <= keys.len(),
        forall|i: int| 0 <= i < keys.len() ==> #[trigger] passable(store, keys, way, i),
    ensures
        store.walked(root, keys, count) == (store, way[count]),
    decreases count,
{
    if count > 0 {
        lemma_rewalk(store, root, keys, way, count - 1);
        assert(passable(store, keys, way, count - 1));
        let vertex = store.vertices[way[count - 1].id as int];
        lemma_last_index(vertex.children, keys[count - 1]);
    }
}

/// After going down by keys, each vertex passed has the next one as its child
/// under the key gone down by, and was made before it.
proof fn lemma_walk_traced(store: GraphView, root: NodeView, keys: Seq<Seq<char>>, count: int)
    requires
        store.wf(),
        store.contains(root.id),
        0 <= count <= keys.len(),
        store.vertices.len() + keys.len() <= usize::MAX,
    ensures
        store.walked(root, keys, count).0.wf(),
        store.walked(root, keys, count).0.contains(store.walked(root, keys, count).1.id),
        store.vertices.len() <= store.walked(root, keys, count).0.vertices.len()
            <= store.vertices.len() + count,
        forall|i: int|
            0 <= i < count ==> (#[trigger] store.walked(root, keys, i).1).id < store.walked(
                root,
                keys,
                count,
            ).1.id,
        forall|i: int|
            0 <= i < count ==> lookup(
                store.walked(root, keys, count).0.vertices[(#[trigger] store.walked(
                    root,
                    keys,
                    i,
                ).1).id as int].children,
                keys[i],
            ) == Some(store.walked(root, keys, i + 1).1.id),
        forall|i: int|
            0 < i <= count ==> (#[trigger] store.walked(root, keys, i).1) == (NodeView {
                id: store.walked(root, keys, i).1.id,
                key: keys[i - 1],
                path: store.walked(root, keys, count).0.vertices[store.walked(
                    root,
                    keys,
                    i,
                ).1.id as int].path,
            }),
    decreases count,
{
    if count > 0 {
        lemma_walk_traced(store, root, keys, count - 1);
        let (before, at) = store.walked(root, keys, count - 1);
        let key = keys[count - 1];
        let (after, next) = before.entered(at, key);
        lemma_entered(before, at, key);
        let vertex = after.vertices[at.id as int];
        if before.spawns(at, key) {
            crate::model::lemma_attached(before, at.id, key, GraphView::path_under(at));
        } else {
            lemma_last_index(before.vertices[at.id as int].children, key);
        }
        lemma_last_index(vertex.children, key);
        assert(after.vertex_wf(at.id as int));
        assert(after.edge_wf(at.id as int, vertex.children[last_index(vertex.children, key)]));
        assert(at.id < next.id);
        assert forall|i: int| 0 <= i < count implies lookup(
            after.vertices[(#[trigger] store.walked(root, keys, i).1).id as int].children,
            keys[i],
        ) == Some(store.walked(root, keys, i + 1).1.id) by {
            if i < count - 1 {
                assert(store.walked(root, keys, i).1.id < at.id);
                assert(after.vertices[store.walked(root, keys, i).1.id as int]
                    == before.vertices[store.walked(root, keys, i).1.id as int]);
            }
        }
        assert forall|i: int| 0 < i <= count implies (#[trigger] store.walked(root, keys, i).1) == (
        NodeView {
            id: store.walked(root, keys, i).1.id,
            key: keys[i - 1],
            path: after.vertices[store.walked(root, keys, i).1.id as int].path,
        }) by {
            if i < count {
                let passed = store.walked(root, keys, i).1;
                if i < count - 1 {
                    assert(passed.id < at.id);
                    assert(after.vertices[passed.id as int] == before.vertices[passed.id as int]);
                } else {
                    assert(passed == at);
                }
            }
        }
    }
}

/// Taking the same entry in twice is taking it in once, where the entry has
/// one field at most and, after the first time, no vertex on the way to the
/// field's vertex holds a value. (One that does makes every going down under
/// it start anew.)
pub proof fn law_entry_is_idempotent(store: GraphView, root: NodeView, soul: Seq<char>, data: JsonView)
    requires
        store.wf(),
        store.contains(root.id),
        store.vertices.len() + components(soul).len() + 1 <= usize::MAX,
        states_of(data).is_some() ==> states_of(data).unwrap().1.len() <= 1,
        forall|i: int|
            0 <= i <= components(soul).len() ==> entry_received(
                store,
                root,
                soul,
                data,
            ).0.vertices[(#[trigger] store.walked(root, components(soul), i).1).id as int].value.is_none(),
    ensures
        entry_received(entry_received(store, root, soul, data).0, root, soul, data) == (
            entry_received(store, root, soul, data).0,
            Seq::<ActionView>::empty(),
        ),
{
    let keys = components(soul);
    let once = entry_received(store, root, soul, data).0;
    if all_filled(keys) {
        let count = keys.len() as int;
        let (walked, node) = store.walked(root, keys, count);
        let way = ways(store, root, keys);
        lemma_walk_traced(store, root, keys, count);
        assert(way[0] == root);
        if states_of(data).is_some() && states_of(data).unwrap().1.len() == 1 {
            let (members, states) = states_of(data).unwrap();
            let field = states[0].0;
            let state = states[0].1;
            assert(fields_received(walked, node, members, states, 0) == (
                walked,
                Seq::<ActionView>::empty(),
            ));
            assert(fields_received(walked, node, members, states, 1).0 == field_received(
                walked,
                node,
                members,
                field,
                state,
            ).0);
            assert(once == field_received(walked, node, members, field, state).0);
            if stamp(state).is_some() && field.len() > 0 {
                let at = stamp(state).unwrap();
                let (entered, child) = walked.entered(node, field);
                lemma_entered(walked, node, field);
                if walked.spawns(node, field) {
                    crate::model::lemma_attached(walked, node.id, field, GraphView::path_under(node));
                } else {
                    lemma_last_index(walked.vertices[node.id as int].children, field);
                }
                let above = entered.vertices[node.id as int];
                lemma_last_index(above.children, field);
                assert(entered.vertex_wf(node.id as int));
                assert(entered.edge_wf(
                    node.id as int,
                    above.children[last_index(above.children, field)],
                ));
                assert(node.id < child.id);
                let wrote = entered.vertices[child.id as int].updated_at < at && lookup(
                    members,
                    field,
                ).is_some() && decoded(lookup(members, field).unwrap()).is_some();
                if wrote {
                    lemma_written(
                        entered,
                        child.id,
                        decoded(lookup(members, field).unwrap()).unwrap(),
                        at,
                    );
                }
                assert(once.vertices.len() == entered.vertices.len());
                assert forall|v: int| 0 <= v <= node.id implies (#[trigger] once.vertices[v]).children
                    == entered.vertices[v].children && once.vertices[v].path
                    == entered.vertices[v].path by {}
                assert(once.vertices[child.id as int].path == entered.vertices[child.id as int].path);
                assert forall|i: int| 0 <= i < keys.len() implies #[trigger] passable(
                    once,
                    keys,
                    way,
                    i,
                ) by {
                    let passed = store.walked(root, keys, i).1;
                    let next = store.walked(root, keys, i + 1).1;
                    assert(way[i] == passed);
                    assert(way[i + 1] == next);
                    assert(passed.id < node.id);
                    assert(next.id <= node.id) by {
                        if i + 1 < count {
                            assert(store.walked(root, keys, i + 1).1.id < node.id);
                        }
                    }
                    assert(entered.vertices[passed.id as int] == walked.vertices[passed.id as int]);
                    assert(entered.vertices[next.id as int].path
                        == walked.vertices[next.id as int].path);
                }
                lemma_rewalk(once, root, keys, way, count);
                assert(way[count] == node);
                assert(once.walked(root, keys, count) == (once, node));
                assert(once.vertices[node.id as int].value.is_none());
                assert(once.vertices[node.id as int].children == above.children);
                assert(!once.spawns(node, field));
                assert(once.entered(node, field) == (once, child));
                assert(fields_received(once, node, members, states, 0) == (
                    once,
                    Seq::<ActionView>::empty(),
                ));
                let again = field_received(once, node, members, field, state);
                assert(again == (once, Seq::<ActionView>::empty()));
                assert(fields_received(once, node, members, states, 1) == (
                    once,
                    Seq::<ActionView>::empty() + Seq::<ActionView>::empty(),
                ));
                assert(Seq::<ActionView>::empty() + Seq::<ActionView>::empty() =~= Seq::<
                    ActionView,
                >::empty());
            } else {
                assert(once == walked);
                assert forall|i: int| 0 <= i < keys.len() implies #[trigger] passable(
                    once,
                    keys,
                    way,
                    i,
                ) by {
                    assert(way[i] == store.walked(root, keys, i).1);
                    assert(way[i + 1] == store.walked(root, keys, i + 1).1);
                }
                lemma_rewalk(once, root, keys, way, count);
                assert(fields_received(once, node, members, states, 0) == (
                    once,
                    Seq::<ActionView>::empty(),
                ));
                assert(Seq::<ActionView>::empty() + Seq::<ActionView>::empty() =~= Seq::<
                    ActionView,
                >::empty());
            }
        } else {
            assert(once == walked) by {
                if states_of(data).is_some() {
                    let (members, states) = states_of(data).unwrap();
                    assert(fields_received(walked, node, members, states, 0) == (
                        walked,
                        Seq::<ActionView>::empty(),
                    ));
                }
            }
            assert forall|i: int| 0 <= i < keys.len() implies #[trigger] passable(
                once,
                keys,
                way,
                i,
            ) by {
                assert(way[i] == store.walked(root, keys, i).1);
                assert(way[i + 1] == store.walked(root, keys, i + 1).1);
            }
            lemma_rewalk(once, root, keys, way, count);
            if states_of(data).is_some() {
                let (members, states) = states_of(data).unwrap();
                assert(fields_received(once, node, members, states, 0) == (
                    once,
                    Seq::<ActionView>::empty(),
                ));
            }
        }
    }
}

/// Taking the same frame in twice is taking it in once, where the frame has
/// no `get`, its `put` has one entry, and the entry is as
/// `law_entry_is_idempotent` asks: the second time, the write is not later
/// than what the vertex holds, so that nothing changes and nothing is left to
/// do.
pub proof fn law_frame_is_idempotent(
    store: GraphView,
    root: NodeView,
    members: Seq<(Seq<char>, JsonView)>,
    soul: Seq<char>,
    data: JsonView,
)
    requires
        store.wf(),
        store.contains(root.id),
        lookup(members, "put"@) == Some(JsonView::Object(seq![(soul, data)])),
        lookup(members, "get"@).is_none(),
        store.vertices.len() + components(soul).len() + 1 <= usize::MAX,
        states_of(data).is_some() ==> states_of(data).unwrap().1.len() <= 1,
        forall|i: int|
            0 <= i <= components(soul).len() ==> entry_received(
                store,
                root,
                soul,
                data,
            ).0.vertices[(#[trigger] store.walked(root, components(soul), i).1).id as int].value.is_none(),
    ensures
        received(store, root, JsonView::Object(members), false).0 == entry_received(
            store,
            root,
            soul,
            data,
        ).0,
        received(
            received(store, root, JsonView::Object(members), false).0,
            root,
            JsonView::Object(members),
            false,
        ) == (
            received(store, root, JsonView::Object(members), false).0,
            Seq::<ActionView>::empty(),
        ),
{
    let entries = seq![(soul, data)];
    let nothing = Seq::<ActionView>::empty();
    let once = entry_received(store, root, soul, data);
    law_entry_is_idempotent(store, root, soul, data);
    assert(put_received(store, root, entries, 0) == (store, nothing));
    assert(put_received(store, root, entries, 1) == (once.0, nothing + once.1));
    assert(put_received(once.0, root, entries, 0) == (once.0, nothing));
    assert(put_received(once.0, root, entries, 1) == (once.0, nothing + nothing));
    assert(nothing + nothing =~= nothing);
}

} // verus!
