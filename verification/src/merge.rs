//! What a frame from a peer does to the graph: writes are merged in, the
//! newer one winning, and requests are answered.

use crate::assoc::lookup;
use crate::codec::{
    all_filled, components, decode, decoded, keys_filled, path_keys, read_stamp, stamp,
    states_of,
};
use crate::json::{find_member, items_view, members_view, Json, JsonView};
use crate::model::{lemma_written, never_rewound, NodeView, GraphView};
use crate::node::{actions_view, delivered, replied, Action, ActionView, Node};
use crate::store::{texts, NodeStore};
use vstd::prelude::*;
use vstd::string::*;

verus! {

/// What one field of an entry does, at the vertex `node` that the entry's
/// soul names. The field's state has to give a time and the field has to have
/// a name, else nothing happens. The child of that name is gone down to. It
/// is written where the time is later than its own and the entry holds a
/// value for the field that can be read.
pub open spec fn field_received(
    store: GraphView,
    node: NodeView,
    data: Seq<(Seq<char>, JsonView)>,
    field: Seq<char>,
    state: JsonView,
) -> (GraphView, Seq<ActionView>) {
    match stamp(state) {
        Some(at) => if field.len() > 0 {
            let (entered, child) = store.entered(node, field);
            if entered.vertices[child.id as int].updated_at < at {
                match lookup(data, field) {
                    Some(json) => match decoded(json) {
                        Some(value) => (
                            entered.written(child.id, value, at),
                            delivered(entered.announced(child, value, at)),
                        ),
                        None => (entered, Seq::empty()),
                    },
                    None => (entered, Seq::empty()),
                }
            } else {
                (entered, Seq::empty())
            }
        } else {
            (store, Seq::empty())
        },
        None => (store, Seq::empty()),
    }
}

/// What the first `count` fields of an entry do, one after the other.
pub open spec fn fields_received(
    store: GraphView,
    node: NodeView,
    data: Seq<(Seq<char>, JsonView)>,
    states: Seq<(Seq<char>, JsonView)>,
    count: int,
) -> (GraphView, Seq<ActionView>)
    decreases count,
{
    if count <= 0 {
        (store, Seq::empty())
    } else {
        let (before, done) = fields_received(store, node, data, states, count - 1);
        let (after, more) = field_received(
            before,
            node,
            data,
            states[count - 1].0,
            states[count - 1].1,
        );
        (after, done + more)
    }
}

/// What one entry of a `put` does. The keys of its soul are gone down from
/// `root`, unless one of them is empty: then nothing happens. The fields
/// listed in the entry's states are then taken in turn.
pub open spec fn entry_received(store: GraphView, root: NodeView, soul: Seq<char>, data: JsonView) -> (
    GraphView,
    Seq<ActionView>,
) {
    let keys = components(soul);
    if all_filled(keys) {
        let (walked, node) = store.walked(root, keys, keys.len() as int);
        match states_of(data) {
            Some((members, states)) => fields_received(
                walked,
                node,
                members,
                states,
                states.len() as int,
            ),
            None => (walked, Seq::empty()),
        }
    } else {
        (store, Seq::empty())
    }
}

/// What the first `count` entries of a `put` do, one after the other.
pub open spec fn put_received(
    store: GraphView,
    root: NodeView,
    entries: Seq<(Seq<char>, JsonView)>,
    count: int,
) -> (GraphView, Seq<ActionView>)
    decreases count,
{
    if count <= 0 {
        (store, Seq::empty())
    } else {
        let (before, done) = put_received(store, root, entries, count - 1);
        let (after, more) = entry_received(before, root, entries[count - 1].0, entries[count - 1].1);
        (after, done + more)
    }
}

/// What a request for the vertex at the end of the keys does: the keys are
/// gone down from `root` and the request is answered there. Where a key is
/// empty nothing happens.
pub open spec fn asked(store: GraphView, root: NodeView, keys: Seq<Seq<char>>) -> (
    GraphView,
    Seq<ActionView>,
) {
    if all_filled(keys) {
        let (walked, node) = store.walked(root, keys, keys.len() as int);
        replied(walked, node)
    } else {
        (store, Seq::empty())
    }
}

/// What a `get` does. Its `#` has to be a text: the soul. Where it has a `.`,
/// that has to be a text too: the field, which is gone down to after the keys
/// of the soul.
pub open spec fn get_received(store: GraphView, root: NodeView, request: Seq<(Seq<char>, JsonView)>) -> (
    GraphView,
    Seq<ActionView>,
) {
    match lookup(request, "#"@) {
        Some(JsonView::Text(soul)) => match lookup(request, "."@) {
            Some(JsonView::Text(field)) => asked(store, root, components(soul).push(field)),
            Some(_) => (store, Seq::empty()),
            None => asked(store, root, components(soul)),
        },
        _ => (store, Seq::empty()),
    }
}

/// What a frame that is an object does: its `put`, where that is an object,
/// and then its `get`, where that is one.
pub open spec fn object_received(store: GraphView, root: NodeView, members: Seq<(Seq<char>, JsonView)>) -> (
    GraphView,
    Seq<ActionView>,
) {
    let (told, notes) = match lookup(members, "put"@) {
        Some(JsonView::Object(entries)) => put_received(store, root, entries, entries.len() as int),
        _ => (store, Seq::empty()),
    };
    let (answered, replies) = match lookup(members, "get"@) {
        Some(JsonView::Object(request)) => get_received(told, root, request),
        _ => (told, Seq::empty()),
    };
    (answered, notes + replies)
}

/// What a frame that is no array does: nothing, unless it is an object.
pub open spec fn single_received(store: GraphView, root: NodeView, frame: JsonView) -> (
    GraphView,
    Seq<ActionView>,
) {
    match frame {
        JsonView::Object(members) => object_received(store, root, members),
        _ => (store, Seq::empty()),
    }
}

/// What the first `count` items of an array of frames do, one after the
/// other. An item that is itself an array does nothing.
pub open spec fn each_received(store: GraphView, root: NodeView, items: Seq<JsonView>, count: int) -> (
    GraphView,
    Seq<ActionView>,
)
    decreases count,
{
    if count <= 0 {
        (store, Seq::empty())
    } else {
        let (before, done) = each_received(store, root, items, count - 1);
        let (after, more) = single_received(before, root, items[count - 1]);
        (after, done + more)
    }
}

/// What a frame does to the store, and what it leaves to do. An array of
/// frames is taken item by item, unless it stands inside an array itself.
pub open spec fn received(store: GraphView, root: NodeView, frame: JsonView, nested: bool) -> (
    GraphView,
    Seq<ActionView>,
) {
    match frame {
        JsonView::Array(items) => if nested {
            (store, Seq::empty())
        } else {
            each_received(store, root, items, items.len() as int)
        },
        _ => single_received(store, root, frame),
    }
}

impl Node {
    /// Goes down by each of the keys in turn.
    pub fn walk(&self, store: &mut NodeStore, keys: &Vec<String>) -> (node: Node)
        requires
            old(store).wf(),
            old(store)@.contains(self@.id),
        ensures
            final(store).wf(),
            (final(store)@, node@) == old(store)@.walked(self@, texts(keys@), keys.len() as int),
            final(store)@.contains(node@.id),
            never_rewound(old(store)@, final(store)@),
    {
        let mut node = self.clone();
        let mut i: usize = 0;
        while i < keys.len()
            invariant
                i <= keys.len(),
                store.wf(),
                store@.contains(node@.id),
                never_rewound(old(store)@, store@),
                (store@, node@) == old(store)@.walked(self@, texts(keys@), i as int),
            decreases keys.len() - i,
        {
            let child = node.descend(store, keys[i].as_str());
            node = child;
            i += 1;
        }
        node
    }

    /// Takes one field of an entry in, at the vertex that the entry's soul
    /// names: `self`.
    fn incoming_field(&self, store: &mut NodeStore, data: &Vec<(String, Json)>, field: &str, state: &Json) -> (actions:
        Vec<Action>)
        requires
            old(store).wf(),
            old(store)@.contains(self@.id),
        ensures
            final(store).wf(),
            (final(store)@, actions_view(actions@)) == field_received(
                old(store)@,
                self@,
                members_view(data@),
                field@,
                state@,
            ),
            never_rewound(old(store)@, final(store)@),
    {
        let nothing: Vec<Action> = Vec::new();
        assert(actions_view(nothing@) =~= Seq::empty());
        match read_stamp(state) {
            Some(at) => {
                if field.is_empty() {
                    return nothing;
                }
                let child = self.descend(store, field);
                if store.updated_at(child.id()) < at {
                    match find_member(data, field) {
                        Some(json) => match decode(json) {
                            Some(value) => {
                                proof {
                                    lemma_written(store@, child@.id, value@, at);
                                }
                                child.put_local(store, value, at)
                            },
                            None => nothing,
                        },
                        None => nothing,
                    }
                } else {
                    nothing
                }
            },
            None => nothing,
        }
    }

    /// Takes one entry of a `put` in.
    fn incoming_entry(&self, store: &mut NodeStore, soul: &str, data: &Json) -> (actions: Vec<Action>)
        requires
            old(store).wf(),
            old(store)@.contains(self@.id),
        ensures
            final(store).wf(),
            (final(store)@, actions_view(actions@)) == entry_received(
                old(store)@,
                self@,
                soul@,
                data@,
            ),
            never_rewound(old(store)@, final(store)@),
    {
        let mut actions: Vec<Action> = Vec::new();
        assert(actions_view(actions@) =~= Seq::empty());
        let keys = path_keys(soul);
        if !keys_filled(&keys) {
            return actions;
        }
        let node = self.walk(store, &keys);
        let ghost walked = store@;
        if let Json::Object(members) = data {
            if let Some(Json::Object(record)) = find_member(members, "_") {
                if let Some(Json::Object(states)) = find_member(record, ">") {
                    let ghost listed = members_view(states@);
                    let ghost all = members_view(members@);
                    assert(states_of(data@) == Some((all, listed)));
                    let mut i: usize = 0;
                    while i < states.len()
                        invariant
                            i <= states.len(),
                            store.wf(),
                            store@.contains(node@.id),
                            never_rewound(walked, store@),
                            listed == members_view(states@),
                            all == members_view(members@),
                            (store@, actions_view(actions@)) == fields_received(
                                walked,
                                node@,
                                all,
                                listed,
                                i as int,
                            ),
                        decreases states.len() - i,
                    {
                        let ghost done = actions_view(actions@);
                        let state = &states[i];
                        let mut more = node.incoming_field(
                            store,
                            members,
                            state.0.as_str(),
                            &state.1,
                        );
                        let ghost added = actions_view(more@);
                        actions.append(&mut more);
                        assert(actions_view(actions@) =~= done + added);
                        i += 1;
                    }
                    return actions;
                }
            }
        }
        assert(states_of(data@).is_none());
        actions
    }

    /// Takes the entries of a `put` in, one after the other: for each, the
    /// vertex that its soul names is gone down to from this one, and each
    /// field that the entry gives a later time than the field's vertex has is
    /// written there.
    pub fn incoming_put(&self, store: &mut NodeStore, put: &Vec<(String, Json)>) -> (actions: Vec<
        Action,
    >)
        requires
            old(store).wf(),
            old(store)@.contains(self@.id),
        ensures
            final(store).wf(),
            (final(store)@, actions_view(actions@)) == put_received(
                old(store)@,
                self@,
                members_view(put@),
                put.len() as int,
            ),
            never_rewound(old(store)@, final(store)@),
    {
        let mut actions: Vec<Action> = Vec::new();
        assert(actions_view(actions@) =~= Seq::empty());
        let mut i: usize = 0;
        while i < put.len()
            invariant
                i <= put.len(),
                store.wf(),
                store@.contains(self@.id),
                never_rewound(old(store)@, store@),
                (store@, actions_view(actions@)) == put_received(
                    old(store)@,
                    self@,
                    members_view(put@),
                    i as int,
                ),
            decreases put.len() - i,
        {
            let ghost done = actions_view(actions@);
            let entry = &put[i];
            let mut more = self.incoming_entry(store, entry.0.as_str(), &entry.1);
            let ghost added = actions_view(more@);
            actions.append(&mut more);
            assert(actions_view(actions@) =~= done + added);
            i += 1;
        }
        actions
    }

    /// Goes down by the keys and answers a request for the vertex there.
    fn answer(&self, store: &mut NodeStore, keys: &Vec<String>) -> (actions: Vec<Action>)
        requires
            old(store).wf(),
            old(store)@.contains(self@.id),
        ensures
            final(store).wf(),
            (final(store)@, actions_view(actions@)) == asked(old(store)@, self@, texts(keys@)),
            never_rewound(old(store)@, final(store)@),
    {
        if keys_filled(keys) {
            let node = self.walk(store, keys);
            node.send_get_response_if_have(store)
        } else {
            let nothing: Vec<Action> = Vec::new();
            assert(actions_view(nothing@) =~= Seq::empty());
            nothing
        }
    }

    /// Takes a `get` in: the vertex that it names is gone down to from this
    /// one, and where there is something to observe there, a frame with it is
    /// left to send.
    pub fn incoming_get(&self, store: &mut NodeStore, get: &Vec<(String, Json)>) -> (actions: Vec<
        Action,
    >)
        requires
            old(store).wf(),
            old(store)@.contains(self@.id),
        ensures
            final(store).wf(),
            (final(store)@, actions_view(actions@)) == get_received(
                old(store)@,
                self@,
                members_view(get@),
            ),
            never_rewound(old(store)@, final(store)@),
    {
        let nothing: Vec<Action> = Vec::new();
        assert(actions_view(nothing@) =~= Seq::empty());
        match find_member(get, "#") {
            Some(Json::Text(soul)) => {
                let mut keys = path_keys(soul.as_str());
                match find_member(get, ".") {
                    Some(Json::Text(field)) => {
                        let ghost named = texts(keys@);
                        keys.push(field.clone());
                        assert(texts(keys@) =~= named.push(field@));
                        self.answer(store, &keys)
                    },
                    Some(_) => nothing,
                    None => self.answer(store, &keys),
                }
            },
            _ => nothing,
        }
    }

    /// Takes a frame that is an object in.
    fn incoming_object(&self, store: &mut NodeStore, members: &Vec<(String, Json)>) -> (actions: Vec<
        Action,
    >)
        requires
            old(store).wf(),
            old(store)@.contains(self@.id),
        ensures
            final(store).wf(),
            (final(store)@, actions_view(actions@)) == object_received(
                old(store)@,
                self@,
                members_view(members@),
            ),
            never_rewound(old(store)@, final(store)@),
    {
        let mut actions: Vec<Action> = Vec::new();
        assert(actions_view(actions@) =~= Seq::empty());
        if let Some(Json::Object(entries)) = find_member(members, "put") {
            actions = self.incoming_put(store, entries);
        }
        let ghost notes = actions_view(actions@);
        if let Some(Json::Object(request)) = find_member(members, "get") {
            let mut more = self.incoming_get(store, request);
            let ghost replies = actions_view(more@);
            actions.append(&mut more);
            assert(actions_view(actions@) =~= notes + replies);
        } else {
            assert(actions_view(actions@) =~= notes + Seq::empty());
        }
        actions
    }

    /// Takes a frame from a peer in, this vertex standing for the root. A
    /// frame that is an object has its `put` merged and its `get` answered;
    /// an array of frames is taken item by item, unless `is_from_array` says
    /// that it stands in an array itself; anything else does nothing.
    pub fn incoming_message(&self, store: &mut NodeStore, msg: &Json, is_from_array: bool) -> (actions:
        Vec<Action>)
        requires
            old(store).wf(),
            old(store)@.contains(self@.id),
        ensures
            final(store).wf(),
            (final(store)@, actions_view(actions@)) == received(
                old(store)@,
                self@,
                msg@,
                is_from_array,
            ),
            never_rewound(old(store)@, final(store)@),
    {
        let mut actions: Vec<Action> = Vec::new();
        assert(actions_view(actions@) =~= Seq::empty());
        match msg {
            Json::Array(items) => {
                if is_from_array {
                    return actions;
                }
                let mut i: usize = 0;
                while i < items.len()
                    invariant
                        i <= items.len(),
                        store.wf(),
                        store@.contains(self@.id),
                        never_rewound(old(store)@, store@),
                        (store@, actions_view(actions@)) == each_received(
                            old(store)@,
                            self@,
                            items_view(items@),
                            i as int,
                        ),
                    decreases items.len() - i,
                {
                    let ghost done = actions_view(actions@);
                    if let Json::Object(members) = &items[i] {
                        let mut more = self.incoming_object(store, members);
                        let ghost added = actions_view(more@);
                        actions.append(&mut more);
                        assert(actions_view(actions@) =~= done + added);
                    } else {
                        assert(actions_view(actions@) =~= done + Seq::empty());
                    }
                    i += 1;
                }
                actions
            },
            Json::Object(members) => self.incoming_object(store, members),
            _ => actions,
        }
    }
}

} // verus!
