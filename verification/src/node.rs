//! Ways into the graph, and what can be done at the end of one: going
//! further down, reading, writing and subscribing.

use crate::assoc::lemma_last_index;
use crate::codec::{
    build_get_frame, build_put_frame, build_reply_frame, get_frame, put_frame, reply_frame,
};
use crate::ids::{message_id, stepped};
use crate::json::{json_text, to_text};
use crate::model::{
    lemma_attached, lemma_cleared, lemma_deaf, lemma_entered, lemma_reseeded, lemma_subscribed,
    lemma_written, never_rewound, notes, root_view, NodeView, NoteView, GraphView,
};
use crate::store::{copy_strings, texts, NodeStore};
use crate::value::{entries_view, GunValue, ValueView};
use vstd::prelude::*;
use vstd::string::*;

verus! {

/// A way to a vertex: the vertex's id, with the key and the path under which
/// it was reached. It stays good for as long as the store lives.
#[derive(Debug, PartialEq, Eq)]
pub struct Node {
    id: usize,
    key: String,
    path: Vec<String>,
}

impl View for Node {
    type V = NodeView;

    closed spec fn view(&self) -> NodeView {
        NodeView { id: self.id, key: self.key@, path: texts(self.path@) }
    }
}

impl Clone for Node {
    fn clone(&self) -> (copy: Self)
        ensures
            copy@ == self@,
    {
        Node { id: self.id, key: self.key.clone(), path: copy_strings(&self.path) }
    }
}

/// A value owed to a subscriber, with the key under which it is told.
#[derive(Debug, PartialEq, Eq)]
pub struct Notification {
    pub subscription_id: usize,
    pub value: GunValue,
    pub key: String,
}

impl View for Notification {
    type V = NoteView;

    open spec fn view(&self) -> NoteView {
        NoteView { subscription_id: self.subscription_id, value: self.value@, key: self.key@ }
    }
}

/// What an operation leaves for its caller to do.
#[derive(Debug, PartialEq, Eq)]
pub enum Action {
    /// Hand the value to the subscriber.
    Deliver(Notification),
    /// Send the frame to every peer.
    Send(String),
}

/// What an [`Action`] stands for in contracts.
#[verifier::ext_equal]
pub enum ActionView {
    Deliver(NoteView),
    Send(Seq<char>),
}

impl View for Action {
    type V = ActionView;

    open spec fn view(&self) -> ActionView {
        match self {
            Action::Deliver(note) => ActionView::Deliver(note@),
            Action::Send(frame) => ActionView::Send(frame@),
        }
    }
}

/// The actions of a list, each by its view.
pub open spec fn actions_view(actions: Seq<Action>) -> Seq<ActionView> {
    Seq::new(actions.len(), |i: int| actions[i]@)
}

/// The delivery of each note, in their order.
pub open spec fn delivered(notes: Seq<NoteView>) -> Seq<ActionView> {
    Seq::new(notes.len(), |i: int| ActionView::Deliver(notes[i]))
}

/// The view of a value that may be missing.
pub open spec fn optional(value: Option<GunValue>) -> Option<ValueView> {
    match value {
        Some(value) => Some(value@),
        None => None,
    }
}

/// Adds a delivery of the value to each of the subscriptions.
fn push_notes(actions: &mut Vec<Action>, subscriptions: &Vec<usize>, value: &GunValue, key: &str)
    ensures
        actions_view(final(actions)@) == actions_view(old(actions)@) + delivered(
            notes(subscriptions@, value@, key@),
        ),
{
    let ghost before = actions_view(actions@);
    let mut i: usize = 0;
    while i < subscriptions.len()
        invariant
            i <= subscriptions.len(),
            actions_view(actions@) == before + delivered(
                notes(subscriptions@.take(i as int), value@, key@),
            ),
        decreases subscriptions.len() - i,
    {
        let ghost so_far = actions_view(actions@);
        let note = Notification {
            subscription_id: subscriptions[i],
            value: value.clone(),
            key: String::from_str(key),
        };
        actions.push(Action::Deliver(note));
        proof {
            assert(actions_view(actions@) =~= so_far.push(ActionView::Deliver(note@)));
            assert(before + delivered(notes(subscriptions@.take(i + 1), value@, key@)) =~= (before
                + delivered(notes(subscriptions@.take(i as int), value@, key@))).push(
                ActionView::Deliver(note@),
            ));
        }
        i += 1;
    }
    assert(subscriptions@.take(i as int) =~= subscriptions@);
}

/// What an observer of the vertex sees: its value where it has one, else the
/// values of its children by key, a link standing for a child without a value,
/// else nothing.
pub fn observe(store: &NodeStore, id: usize) -> (seen: Option<GunValue>)
    requires
        store@.contains(id),
    ensures
        optional(seen) == store@.observable(id),
{
    if store.has_value(id) {
        store.value(id)
    } else if store.child_count(id) > 0 {
        Some(children_to_gun_value(store, id))
    } else {
        None
    }
}

/// The values of the children of the vertex by key: for each child its value,
/// or a link to it where it has none.
pub fn children_to_gun_value(store: &NodeStore, id: usize) -> (value: GunValue)
    requires
        store@.contains(id),
    ensures
        value@ == ValueView::Children(store@.aggregate(id)),
{
    let count = store.child_count(id);
    let mut entries: Vec<(String, GunValue)> = Vec::new();
    let mut i: usize = 0;
    while i < count
        invariant
            i <= count,
            count == store@.vertices[id as int].children.len(),
            store@.contains(id),
            entries@.len() == i,
            forall|j: int|
                0 <= j < i ==> (entries@[j].0@, entries@[j].1@) == store@.aggregate(id)[j],
        decreases count - i,
    {
        let edge = store.child_at(id, i);
        let shown = if store.contains(edge.1) {
            match store.value(edge.1) {
                Some(value) => value,
                None => GunValue::Link(edge.1),
            }
        } else {
            GunValue::Link(edge.1)
        };
        entries.push((edge.0, shown));
        i += 1;
    }
    assert(entries_view(entries@) =~= store@.aggregate(id));
    GunValue::Children(entries)
}

impl Node {
    /// The way to the root.
    pub fn new() -> (root: Node)
        ensures
            root@ == root_view(),
    {
        let root = Node { id: 0, key: String::new(), path: Vec::new() };
        assert(root@.path =~= Seq::empty());
        root
    }

    /// The id of the vertex.
    pub fn id(&self) -> (id: usize)
        ensures
            id == self@.id,
    {
        self.id
    }

    /// The key under which the vertex was reached.
    pub fn key(&self) -> (key: &str)
        ensures
            key@ == self@.key,
    {
        self.key.as_str()
    }

    /// The keys of the ancestors of the vertex, from the root down.
    pub fn path(&self) -> (path: &Vec<String>)
        ensures
            texts(path@) == self@.path,
    {
        &self.path
    }

    /// Makes a vertex under this one and binds it to `key`.
    fn new_child(&self, store: &mut NodeStore, key: &str) -> (id: usize)
        requires
            old(store).wf(),
            old(store)@.contains(self@.id),
        ensures
            final(store).wf(),
            final(store)@ == old(store)@.spawned(self@, key@),
            id == old(store)@.vertices.len(),
    {
        let mut path = copy_strings(&self.path);
        if !self.key.as_str().is_empty() {
            let ghost shorter = texts(path@);
            path.push(self.key.clone());
            assert(texts(path@) =~= shorter.push(self.key@));
        }
        let id = store.attach(self.id, key, path);
        proof {
            store.lemma_bounded();
            lemma_attached(old(store)@, self@.id, key@, GraphView::path_under(self@));
        }
        id
    }

    /// The id of the child under `key`, made now where the vertex holds a
    /// value or has no such child.
    fn get_child_id(&self, store: &mut NodeStore, key: &str) -> (id: usize)
        requires
            old(store).wf(),
            old(store)@.contains(self@.id),
        ensures
            final(store).wf(),
            final(store)@ == old(store)@.entered(self@, key@).0,
            id == old(store)@.entered(self@, key@).1.id,
            final(store)@.contains(id),
    {
        proof {
            lemma_last_index(old(store)@.vertices[self@.id as int].children, key@);
        }
        let found = if store.has_value(self.id) {
            None
        } else {
            store.child(self.id, key)
        };
        let id = match found {
            Some(id) => id,
            None => self.new_child(store, key),
        };
        proof {
            let before = old(store)@;
            lemma_entered(before, self@, key@);
            if before.spawns(self@, key@) {
                lemma_attached(before, self@.id, key@, GraphView::path_under(self@));
            }
        }
        id
    }

    /// Goes down by `key`. The child of that key is made now where there is
    /// none, and also where this vertex holds a value: the child that the key
    /// had is then no longer reached.
    pub fn get(&self, store: &mut NodeStore, key: &str) -> (child: Node)
        requires
            old(store).wf(),
            old(store)@.contains(self@.id),
            key@.len() > 0,
        ensures
            final(store).wf(),
            (final(store)@, child@) == old(store)@.entered(self@, key@),
            final(store)@.contains(child@.id),
            never_rewound(old(store)@, final(store)@),
            old(store)@.scalars_are_leaves() && old(store)@.vertices[self@.id as int].value.is_none()
                ==> final(store)@.scalars_are_leaves(),
    {
        self.descend(store, key)
    }

    /// Goes down by `key` where the key is not empty.
    pub fn try_get(&self, store: &mut NodeStore, key: &str) -> (child: Option<Node>)
        requires
            old(store).wf(),
            old(store)@.contains(self@.id),
        ensures
            final(store).wf(),
            child.is_some() == (key@.len() > 0),
            key@.len() == 0 ==> final(store)@ == old(store)@,
            key@.len() > 0 ==> (final(store)@, child.unwrap()@) == old(store)@.entered(
                self@,
                key@,
            ) && final(store)@.contains(child.unwrap()@.id),
            never_rewound(old(store)@, final(store)@),
    {
        if key.is_empty() {
            None
        } else {
            Some(self.descend(store, key))
        }
    }

    /// Goes down by `key`, whatever the key.
    pub(crate) fn descend(&self, store: &mut NodeStore, key: &str) -> (child: Node)
        requires
            old(store).wf(),
            old(store)@.contains(self@.id),
        ensures
            final(store).wf(),
            (final(store)@, child@) == old(store)@.entered(self@, key@),
            final(store)@.contains(child@.id),
            never_rewound(old(store)@, final(store)@),
            old(store)@.scalars_are_leaves() && old(store)@.vertices[self@.id as int].value.is_none()
                ==> final(store)@.scalars_are_leaves(),
    {
        let id = self.get_child_id(store, key);
        let child = Node { id, key: String::from_str(key), path: store.path(id) };
        proof {
            let before = old(store)@;
            lemma_entered(before, self@, key@);
            if before.spawns(self@, key@) {
                lemma_attached(before, self@.id, key@, GraphView::path_under(self@));
            }
            if before.scalars_are_leaves() && before.vertices[self@.id as int].value.is_none() {
                let after = store@;
                assert forall|v: int|
                    0 <= v < after.vertices.len() && (#[trigger] after.vertices[v]).value.is_some() implies after.vertices[v].children.len()
                    == 0 by {
                    if v < before.vertices.len() && v != self@.id {
                        assert(after.vertices[v] == before.vertices[v]);
                    }
                }
            }
        }
        child
    }

    /// What an observer of the vertex sees.
    pub fn get_gun_value(&self, store: &NodeStore) -> (seen: Option<GunValue>)
        requires
            store@.contains(self@.id),
        ensures
            optional(seen) == store@.observable(self@.id),
    {
        observe(store, self.id)
    }

    /// Writes a value to the vertex at the given time, counted in ticks,
    /// whatever the vertex held and whatever its time was. The vertex loses
    /// its children, its parents lose their values,
    /// and the subscribers of both are owed a note: first those of the vertex,
    /// then, parent by parent, those of `map` and those of `on`.
    pub fn put_local(&self, store: &mut NodeStore, value: GunValue, time: u128) -> (actions: Vec<
        Action,
    >)
        requires
            old(store).wf(),
            old(store)@.contains(self@.id),
        ensures
            final(store).wf(),
            final(store)@ == old(store)@.written(self@.id, value@, time),
            actions_view(actions@) == delivered(old(store)@.announced(self@, value@, time)),
            final(store)@.observable(self@.id) == Some(value@),
            final(store)@.vertices[self@.id as int].children.len() == 0,
            final(store)@.vertices[self@.id as int].updated_at == time,
            final(store)@.vertices.len() == old(store)@.vertices.len(),
            forall|i: int|
                0 <= i < old(store)@.vertices[self@.id as int].parents.len() ==> final(store)@.vertices[(
                #[trigger] old(store)@.vertices[self@.id as int].parents[i]).0 as int].value.is_none(),
            old(store)@.scalars_are_leaves() ==> final(store)@.scalars_are_leaves(),
    {
        let ghost before = old(store)@;
        let ghost assigned = before.assigned(self@.id, value@, time);
        let ghost parents = before.vertices[self@.id as int].parents;
        let ghost own = notes(before.vertices[self@.id as int].on_subscriptions, value@, self@.key);
        let mut actions: Vec<Action> = Vec::new();
        store.assign(self.id, value.clone(), time);
        push_notes(&mut actions, store.on_subscriptions(self.id), &value, self.key.as_str());
        let count = store.parent_count(self.id);
        let mut i: usize = 0;
        assert(actions_view(actions@) =~= delivered(own + assigned.heard(parents, value@, 0)));
        while i < count
            invariant
                i <= count,
                count == parents.len(),
                assigned.contains(self@.id),
                assigned.vertices[self@.id as int].parents == parents,
                store.indexed(),
                store@ == assigned.cleared(parents, i as int),
                actions_view(actions@) == delivered(own + assigned.heard(parents, value@, i as int)),
            decreases count - i,
        {
            proof {
                lemma_cleared(assigned, parents, i as int);
            }
            let ghost so_far = actions_view(actions@);
            let ghost now = store@;
            let edge = store.parent_at(self.id, i);
            if store.contains(edge.0) {
                push_notes(&mut actions, store.map_subscriptions(edge.0), &value, edge.1.as_str());
                if store.on_subscriptions(edge.0).len() > 0 {
                    match observe(store, edge.0) {
                        Some(seen) => {
                            push_notes(
                                &mut actions,
                                store.on_subscriptions(edge.0),
                                &seen,
                                edge.1.as_str(),
                            );
                        },
                        None => {},
                    }
                }
                store.hollow(edge.0);
            }
            proof {
                assert(actions_view(actions@) =~= so_far + delivered(now.fanned(parents[i as int], value@)));
                assert(delivered(own + assigned.heard(parents, value@, i + 1)) =~= delivered(
                    own + assigned.heard(parents, value@, i as int),
                ) + delivered(now.fanned(parents[i as int], value@)));
            }
            i += 1;
        }
        proof {
            lemma_written(before, self@.id, value@, time);
        }
        actions
    }

    /// Subscribes to the children of the vertex. The subscriber is owed at
    /// once, for each child that has something to observe, that, under the
    /// child's key; and later a note for each write to a child.
    pub fn map(&self, store: &mut NodeStore) -> (subscription: (usize, Vec<Action>))
        requires
            old(store).wf(),
            old(store)@.contains(self@.id),
            old(store)@.next_id < usize::MAX,
        ensures
            final(store).wf(),
            final(store)@ == old(store)@.watching(self@.id),
            subscription.0 == old(store)@.next_id,
            actions_view(subscription.1@) == delivered(
                old(store)@.glimpsed(
                    self@.id,
                    subscription.0,
                    old(store)@.vertices[self@.id as int].children.len() as int,
                ),
            ),
            old(store)@.scalars_are_leaves() ==> final(store)@.scalars_are_leaves(),
    {
        let subscription_id = store.next_id();
        let count = store.child_count(self.id);
        let mut actions: Vec<Action> = Vec::new();
        let mut i: usize = 0;
        assert(actions_view(actions@) =~= delivered(store@.glimpsed(self@.id, subscription_id, 0)));
        while i < count
            invariant
                i <= count,
                count == store@.vertices[self@.id as int].children.len(),
                store@.contains(self@.id),
                actions_view(actions@) == delivered(
                    store@.glimpsed(self@.id, subscription_id, i as int),
                ),
            decreases count - i,
        {
            let ghost so_far = actions_view(actions@);
            let edge = store.child_at(self.id, i);
            if store.contains(edge.1) {
                match observe(store, edge.1) {
                    Some(seen) => {
                        let note = Notification { subscription_id, value: seen, key: edge.0 };
                        actions.push(Action::Deliver(note));
                        assert(actions_view(actions@) =~= so_far.push(ActionView::Deliver(note@)));
                    },
                    None => {},
                }
            }
            assert(actions_view(actions@) =~= delivered(
                store@.glimpsed(self@.id, subscription_id, i + 1),
            ));
            i += 1;
        }
        let registered = store.watch(self.id);
        proof {
            lemma_subscribed(old(store)@, self@.id);
        }
        (registered, actions)
    }

    /// Takes a subscription away from the vertex, whichever kind it is of.
    /// One that the vertex does not have changes nothing there.
    pub fn off(&self, store: &mut NodeStore, subscription_id: usize)
        requires
            old(store).wf(),
            old(store)@.contains(self@.id),
        ensures
            final(store).wf(),
            final(store)@ == old(store)@.deaf(self@.id, subscription_id),
            old(store)@.scalars_are_leaves() ==> final(store)@.scalars_are_leaves(),
    {
        store.forget(self.id, subscription_id);
        proof {
            lemma_deaf(old(store)@, self@.id, subscription_id);
        }
    }
}

/// What subscribing with `on` leaves to do: the delivery of what there is to
/// observe, where there is anything, and the sending of a frame that asks the
/// peers for the vertex.
pub open spec fn on_actions(store: GraphView, node: NodeView) -> Seq<ActionView> {
    let ask = ActionView::Send(json_text(get_frame(node, message_id(stepped(store.seed)))));
    match store.observable(node.id) {
        Some(seen) => seq![
            ActionView::Deliver(
                NoteView { subscription_id: store.next_id, value: seen, key: node.key },
            ),
            ask,
        ],
        None => seq![ask],
    }
}

/// The store after a request for the vertex was answered, and the answer: a
/// frame with what there is to observe and the time of the vertex. Where there
/// is nothing to observe, nothing is sent and nothing changes.
pub open spec fn replied(store: GraphView, node: NodeView) -> (GraphView, Seq<ActionView>) {
    match store.observable(node.id) {
        Some(seen) => (
            store.reseeded(),
            seq![
                ActionView::Send(
                    json_text(
                        reply_frame(
                            node,
                            seen,
                            store.vertices[node.id as int].updated_at,
                            message_id(stepped(store.seed)),
                        ),
                    ),
                ),
            ],
        ),
        None => (store, Seq::empty()),
    }
}

impl Node {
    /// Writes the frame that asks the peers for the vertex, under a new
    /// message id.
    pub fn create_get_msg(&self, store: &mut NodeStore) -> (frame: String)
        requires
            old(store).wf(),
        ensures
            final(store).wf(),
            final(store)@ == old(store)@.reseeded(),
            frame@ == json_text(get_frame(self@, message_id(stepped(old(store)@.seed)))),
    {
        let id = store.next_message_id();
        proof {
            lemma_reseeded(old(store)@);
        }
        to_text(&build_get_frame(self, id.as_str()))
    }

    /// Writes the frame that tells the peers of a write to the vertex, under a
    /// new message id.
    pub fn create_put_msg(&self, store: &mut NodeStore, value: &GunValue, updated_at: u128) -> (frame:
        String)
        requires
            old(store).wf(),
        ensures
            final(store).wf(),
            final(store)@ == old(store)@.reseeded(),
            frame@ == json_text(
                put_frame(self@, value@, updated_at, message_id(stepped(old(store)@.seed))),
            ),
    {
        let id = store.next_message_id();
        proof {
            lemma_reseeded(old(store)@);
        }
        to_text(&build_put_frame(self, value, updated_at, id.as_str()))
    }

    /// Answers a request for the vertex: where there is something to observe,
    /// a frame with it is left to send.
    pub fn send_get_response_if_have(&self, store: &mut NodeStore) -> (actions: Vec<Action>)
        requires
            old(store).wf(),
            old(store)@.contains(self@.id),
        ensures
            final(store).wf(),
            (final(store)@, actions_view(actions@)) == replied(old(store)@, self@),
            never_rewound(old(store)@, final(store)@),
    {
        let mut actions: Vec<Action> = Vec::new();
        match observe(store, self.id) {
            Some(seen) => {
                let at = store.updated_at(self.id);
                let id = store.next_message_id();
                let frame = to_text(&build_reply_frame(self, &seen, at, id.as_str()));
                actions.push(Action::Send(frame));
                proof {
                    lemma_reseeded(old(store)@);
                    assert(actions_view(actions@) =~= replied(old(store)@, self@).1);
                }
            },
            None => {
                assert(actions_view(actions@) =~= Seq::empty());
            },
        }
        actions
    }

    /// Subscribes to the vertex. The subscriber is owed at once what there is
    /// to observe, where there is anything, and later a note for each write
    /// to the vertex or to a child of it. A frame that asks the peers for the
    /// vertex is left to send in either case.
    pub fn on(&self, store: &mut NodeStore) -> (subscription: (usize, Vec<Action>))
        requires
            old(store).wf(),
            old(store)@.contains(self@.id),
            old(store)@.next_id < usize::MAX,
        ensures
            final(store).wf(),
            final(store)@ == old(store)@.listening(self@.id).reseeded(),
            subscription.0 == old(store)@.next_id,
            actions_view(subscription.1@) == on_actions(old(store)@, self@),
            old(store)@.scalars_are_leaves() ==> final(store)@.scalars_are_leaves(),
    {
        let mut actions: Vec<Action> = Vec::new();
        let seen = observe(store, self.id);
        let subscription_id = store.listen(self.id);
        proof {
            lemma_subscribed(old(store)@, self@.id);
        }
        match seen {
            Some(value) => {
                let note = Notification { subscription_id, value, key: self.key.clone() };
                actions.push(Action::Deliver(note));
            },
            None => {},
        }
        let ghost so_far = actions_view(actions@);
        let frame = self.create_get_msg(store);
        actions.push(Action::Send(frame));
        proof {
            assert(actions_view(actions@) =~= so_far.push(ActionView::Send(frame@)));
            assert(actions_view(actions@) =~= on_actions(old(store)@, self@));
        }
        (subscription_id, actions)
    }

    /// Writes a value to the vertex at the given time, as `put_local` does,
    /// and leaves the frame that tells the peers of the write to send after
    /// the notes. The time is for the caller to read off a clock.
    pub fn put(&self, store: &mut NodeStore, value: GunValue, time: u128) -> (actions: Vec<Action>)
        requires
            old(store).wf(),
            old(store)@.contains(self@.id),
        ensures
            final(store).wf(),
            final(store)@ == old(store)@.written(self@.id, value@, time).reseeded(),
            actions_view(actions@) == delivered(old(store)@.announced(self@, value@, time)).push(
                ActionView::Send(
                    json_text(
                        put_frame(self@, value@, time, message_id(stepped(old(store)@.seed))),
                    ),
                ),
            ),
            final(store)@.observable(self@.id) == Some(value@),
            old(store)@.scalars_are_leaves() ==> final(store)@.scalars_are_leaves(),
    {
        let mut actions = self.put_local(store, value.clone(), time);
        let ghost so_far = actions_view(actions@);
        proof {
            lemma_written(old(store)@, self@.id, value@, time);
        }
        let frame = self.create_put_msg(store, &value, time);
        actions.push(Action::Send(frame));
        assert(actions_view(actions@) =~= so_far.push(ActionView::Send(frame@)));
        actions
    }
}

} // verus!
