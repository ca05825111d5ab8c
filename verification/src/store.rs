//! The store of vertices, and the steps by which it changes.

use crate::assoc::{distinct_keys, last_index, lemma_last_index, lemma_last_index_unique, lookup};
use crate::ids::{get_id, message_id, message_id_of, step, stepped};
use crate::model::{fresh_vertex, initial_store, without, GraphView, VertexView};
use crate::value::GunValue;
use vstd::hash_map::StringHashMap;
use vstd::prelude::*;
use vstd::string::*;

verus! {

/// The texts of a list of strings.
pub open spec fn texts(strings: Seq<String>) -> Seq<Seq<char>> {
    Seq::new(strings.len(), |i: int| strings[i]@)
}

/// Copies a list of strings.
pub fn copy_strings(strings: &Vec<String>) -> (copy: Vec<String>)
    ensures
        texts(copy@) == texts(strings@),
{
    let mut copy: Vec<String> = Vec::new();
    let mut i: usize = 0;
    while i < strings.len()
        invariant
            i <= strings.len(),
            copy@.len() == i,
            forall|j: int| 0 <= j < i ==> copy@[j]@ == strings@[j]@,
        decreases strings.len() - i,
    {
        copy.push(strings[i].clone());
        i += 1;
    }
    assert(texts(copy@) =~= texts(strings@));
    copy
}

struct Vertex {
    key: String,
    path: Vec<String>,
    updated_at: u128,
    value: Option<GunValue>,
    children: Vec<(String, usize)>,
    /// For each key of `children`, the index of its entry there.
    child_index: StringHashMap<usize>,
    parents: Vec<(usize, String)>,
    on_subscriptions: Vec<usize>,
    map_subscriptions: Vec<usize>,
}

impl Vertex {
    spec fn children_view(&self) -> Seq<(Seq<char>, usize)> {
        Seq::new(self.children@.len(), |i: int| (self.children@[i].0@, self.children@[i].1))
    }

    spec fn parents_view(&self) -> Seq<(usize, Seq<char>)> {
        Seq::new(self.parents@.len(), |i: int| (self.parents@[i].0, self.parents@[i].1@))
    }

    spec fn value_view(&self) -> Option<crate::value::ValueView> {
        match self.value {
            Some(value) => Some(value@),
            None => None,
        }
    }

    spec fn view(&self) -> VertexView {
        VertexView {
            key: self.key@,
            path: texts(self.path@),
            updated_at: self.updated_at,
            value: self.value_view(),
            children: self.children_view(),
            parents: self.parents_view(),
            on_subscriptions: self.on_subscriptions@,
            map_subscriptions: self.map_subscriptions@,
        }
    }

    /// The index holds each key of `children` with the place of its entry, and
    /// nothing else.
    spec fn indexed(&self) -> bool {
        &&& forall|i: int|
            0 <= i < self.children@.len() ==> self.child_index@.contains_key(
                #[trigger] self.children@[i].0@,
            ) && self.child_index@[self.children@[i].0@] == i
        &&& forall|key: Seq<char>| #[trigger]
            self.child_index@.contains_key(key) ==> self.child_index@[key] < self.children@.len()
                && self.children@[self.child_index@[key] as int].0@ == key
    }

    proof fn lemma_indexed(&self, key: Seq<char>)
        requires
            self.indexed(),
        ensures
            distinct_keys(self.children_view()),
            self.child_index@.contains_key(key) ==> last_index(self.children_view(), key)
                == self.child_index@[key],
            !self.child_index@.contains_key(key) ==> last_index(self.children_view(), key) < 0,
    {
        let children = self.children_view();
        assert(distinct_keys(children)) by {
            assert forall|i: int, j: int| 0 <= i < j < children.len() implies (
            #[trigger] children[i]).0 != (#[trigger] children[j]).0 by {
                assert(self.child_index@[self.children@[i].0@] == i);
                assert(self.child_index@[self.children@[j].0@] == j);
            }
        }
        lemma_last_index(children, key);
        if self.child_index@.contains_key(key) {
            let at = self.child_index@[key] as int;
            assert(children[at].0 == key);
            lemma_last_index_unique(children, key, at);
        } else {
            let at = last_index(children, key);
            if at >= 0 {
                assert(self.child_index@.contains_key(self.children@[at].0@));
            }
        }
    }
}

/// The vertices of a graph, each under its id, with the counter that numbers
/// subscriptions and the seed of message identifiers.
pub struct NodeStore {
    vertices: Vec<Vertex>,
    next_id: usize,
    seed: u64,
}

impl View for NodeStore {
    type V = GraphView;

    closed spec fn view(&self) -> GraphView {
        GraphView {
            vertices: Seq::new(self.vertices@.len(), |i: int| self.vertices@[i].view()),
            next_id: self.next_id,
            seed: self.seed,
        }
    }
}

impl NodeStore {
    /// The store's own bookkeeping is in order.
    pub closed spec fn indexed(&self) -> bool {
        forall|v: int| 0 <= v < self.vertices@.len() ==> (#[trigger] self.vertices@[v]).indexed()
    }

    /// The store is in order, and so is the graph it holds.
    pub open spec fn wf(&self) -> bool {
        self.indexed() && self@.wf()
    }

    /// A store has no more vertices than can be counted.
    pub proof fn lemma_bounded(&self)
        ensures
            self@.vertices.len() <= usize::MAX,
    {
        assert(self.vertices@.len() == self.vertices.len());
    }

    /// A store that holds the root alone.
    pub fn new(seed: u64) -> (store: NodeStore)
        ensures
            store@ == initial_store(seed),
            store.wf(),
    {
        let root = Vertex {
            key: String::new(),
            path: Vec::new(),
            updated_at: 0,
            value: None,
            children: Vec::new(),
            child_index: StringHashMap::new(),
            parents: Vec::new(),
            on_subscriptions: Vec::new(),
            map_subscriptions: Vec::new(),
        };
        let mut vertices: Vec<Vertex> = Vec::new();
        vertices.push(root);
        let store = NodeStore { vertices, next_id: 1, seed };
        proof {
            let first = store.vertices@[0].view();
            assert(first =~= fresh_vertex(Seq::empty(), Seq::empty(), Seq::empty()));
            assert(store@.vertices =~= initial_store(seed).vertices);
            assert(store@.vertex_wf(0));
        }
        store
    }

    /// The number of vertices.
    pub fn len(&self) -> (count: usize)
        ensures
            count == self@.vertices.len(),
    {
        self.vertices.len()
    }

    /// Whether the store has a vertex of this id.
    pub fn contains(&self, id: usize) -> (found: bool)
        ensures
            found == self@.contains(id),
    {
        id < self.vertices.len()
    }

    /// The id that the next subscription gets.
    pub fn next_id(&self) -> (id: usize)
        ensures
            id == self@.next_id,
    {
        self.next_id
    }

    /// The time of the last write to the vertex.
    pub fn updated_at(&self, id: usize) -> (at: u128)
        requires
            self@.contains(id),
        ensures
            at == self@.vertices[id as int].updated_at,
    {
        self.vertices[id].updated_at
    }

    /// Whether the vertex holds a value.
    pub fn has_value(&self, id: usize) -> (held: bool)
        requires
            self@.contains(id),
        ensures
            held == self@.vertices[id as int].value.is_some(),
    {
        self.vertices[id].value.is_some()
    }

    /// The value that the vertex holds.
    pub fn value(&self, id: usize) -> (held: Option<GunValue>)
        requires
            self@.contains(id),
        ensures
            held.is_some() == self@.vertices[id as int].value.is_some(),
            held.is_some() ==> held.unwrap()@ == self@.vertices[id as int].value.unwrap(),
    {
        match &self.vertices[id].value {
            Some(value) => Some(value.clone()),
            None => None,
        }
    }

    /// The path under which the vertex was made.
    pub fn path(&self, id: usize) -> (path: Vec<String>)
        requires
            self@.contains(id),
        ensures
            texts(path@) == self@.vertices[id as int].path,
    {
        copy_strings(&self.vertices[id].path)
    }

    /// The child that the vertex has under the key.
    pub fn child(&self, id: usize, key: &str) -> (found: Option<usize>)
        requires
            self.indexed(),
            self@.contains(id),
        ensures
            found == lookup(self@.vertices[id as int].children, key@),
    {
        let vertex = &self.vertices[id];
        proof {
            vertex.lemma_indexed(key@);
        }
        match vertex.child_index.get(key) {
            Some(at) => Some(vertex.children[*at].1),
            None => None,
        }
    }

    /// The number of children of the vertex.
    pub fn child_count(&self, id: usize) -> (count: usize)
        requires
            self@.contains(id),
        ensures
            count == self@.vertices[id as int].children.len(),
    {
        self.vertices[id].children.len()
    }

    /// The `at`-th child of the vertex, with its key.
    pub fn child_at(&self, id: usize, at: usize) -> (edge: (String, usize))
        requires
            self@.contains(id),
            at < self@.vertices[id as int].children.len(),
        ensures
            (edge.0@, edge.1) == self@.vertices[id as int].children[at as int],
    {
        let entry = &self.vertices[id].children[at];
        (entry.0.clone(), entry.1)
    }

    /// The number of parents of the vertex.
    pub fn parent_count(&self, id: usize) -> (count: usize)
        requires
            self@.contains(id),
        ensures
            count == self@.vertices[id as int].parents.len(),
    {
        self.vertices[id].parents.len()
    }

    /// The `at`-th parent of the vertex, with the key that the vertex has
    /// under it.
    pub fn parent_at(&self, id: usize, at: usize) -> (edge: (usize, String))
        requires
            self@.contains(id),
            at < self@.vertices[id as int].parents.len(),
        ensures
            (edge.0, edge.1@) == self@.vertices[id as int].parents[at as int],
    {
        let entry = &self.vertices[id].parents[at];
        (entry.0, entry.1.clone())
    }

    /// The subscriptions of `on` at the vertex.
    pub fn on_subscriptions(&self, id: usize) -> (subscriptions: &Vec<usize>)
        requires
            self@.contains(id),
        ensures
            subscriptions@ == self@.vertices[id as int].on_subscriptions,
    {
        &self.vertices[id].on_subscriptions
    }

    /// The subscriptions of `map` at the vertex.
    pub fn map_subscriptions(&self, id: usize) -> (subscriptions: &Vec<usize>)
        requires
            self@.contains(id),
        ensures
            subscriptions@ == self@.vertices[id as int].map_subscriptions,
    {
        &self.vertices[id].map_subscriptions
    }

    /// Makes a vertex of the given path under `parent` and binds it to `key`
    /// there.
    pub(crate) fn attach(&mut self, parent: usize, key: &str, path: Vec<String>) -> (id: usize)
        requires
            old(self).indexed(),
            old(self)@.contains(parent),
        ensures
            final(self).indexed(),
            final(self)@ == old(self)@.attached(parent, key@, texts(path@)),
            id == old(self)@.vertices.len(),
    {
        let id: usize = self.vertices.len();
        let mut parents: Vec<(usize, String)> = Vec::new();
        parents.push((parent, String::from_str(key)));
        let vertex = Vertex {
            key: String::from_str(key),
            path,
            updated_at: 0,
            value: None,
            children: Vec::new(),
            child_index: StringHashMap::new(),
            parents,
            on_subscriptions: Vec::new(),
            map_subscriptions: Vec::new(),
        };
        proof {
            assert(vertex.view() =~= fresh_vertex(key@, texts(path@), seq![(parent, key@)]));
            self.vertices@[parent as int].lemma_indexed(key@);
        }
        self.vertices.push(vertex);
        let ghost grown = self@;
        let ghost above = self.vertices@[parent as int];
        assert(grown.vertices =~= old(self)@.vertices.push(
            fresh_vertex(key@, texts(path@), seq![(parent, key@)]),
        ));
        match self.vertices[parent].child_index.get(key) {
            Some(at) => {
                let at: usize = *at;
                self.vertices[parent].children[at].1 = id;
                proof {
                    let now = self.vertices@[parent as int];
                    assert(now.children_view() =~= above.children_view().update(
                        at as int,
                        (key@, id),
                    ));
                    assert(now.indexed()) by {
                        assert forall|i: int| 0 <= i < now.children@.len() implies now.child_index@.contains_key(
                            #[trigger] now.children@[i].0@,
                        ) && now.child_index@[now.children@[i].0@] == i by {
                            assert(now.children@[i].0@ == above.children@[i].0@);
                        }
                    }
                }
            },
            None => {
                let at: usize = self.vertices[parent].children.len();
                self.vertices[parent].children.push((String::from_str(key), id));
                self.vertices[parent].child_index.insert(String::from_str(key), at);
                proof {
                    let now = self.vertices@[parent as int];
                    assert(now.children_view() =~= above.children_view().push((key@, id)));
                    assert(now.indexed()) by {
                        assert forall|i: int| 0 <= i < now.children@.len() implies now.child_index@.contains_key(
                            #[trigger] now.children@[i].0@,
                        ) && now.child_index@[now.children@[i].0@] == i by {
                            if i < at {
                                assert(now.children@[i].0@ == above.children@[i].0@);
                                assert(above.child_index@.contains_key(above.children@[i].0@));
                            }
                        }
                        assert forall|k: Seq<char>| #[trigger]
                            now.child_index@.contains_key(k) implies now.child_index@[k]
                            < now.children@.len() && now.children@[now.child_index@[k] as int].0@
                            == k by {
                            if k != key@ {
                                assert(above.child_index@.contains_key(k));
                                assert(now.children@[above.child_index@[k] as int]
                                    == above.children@[above.child_index@[k] as int]);
                            }
                        }
                    }
                }
            },
        }
        proof {
            let now = self.vertices@[parent as int];
            assert(now.view() =~= VertexView {
                children: crate::assoc::bound(above.view().children, key@, id),
                ..above.view()
            });
            assert(self@.vertices =~= old(self)@.attached(parent, key@, texts(path@)).vertices);
            assert forall|v: int| 0 <= v < self.vertices@.len() implies (
            #[trigger] self.vertices@[v]).indexed() by {
                if v != parent && v < id {
                    assert(self.vertices@[v] == old(self).vertices@[v]);
                }
            }
        }
        id
    }

    /// Writes a value to the vertex at the given time, and takes its children
    /// away.
    pub(crate) fn assign(&mut self, id: usize, value: GunValue, at: u128)
        requires
            old(self).indexed(),
            old(self)@.contains(id),
        ensures
            final(self).indexed(),
            final(self)@ == old(self)@.assigned(id, value@, at),
    {
        self.vertices[id].updated_at = at;
        self.vertices[id].value = Some(value);
        self.vertices[id].children = Vec::new();
        self.vertices[id].child_index = StringHashMap::new();
        proof {
            let now = self.vertices@[id as int];
            let was = old(self).vertices@[id as int];
            assert(now.children_view() =~= Seq::empty());
            assert(now.view() =~= VertexView {
                updated_at: at,
                value: Some(value@),
                children: Seq::empty(),
                ..was.view()
            });
            assert(self@.vertices =~= old(self)@.assigned(id, value@, at).vertices);
            assert forall|v: int| 0 <= v < self.vertices@.len() implies (
            #[trigger] self.vertices@[v]).indexed() by {
                if v != id {
                    assert(self.vertices@[v] == old(self).vertices@[v]);
                }
            }
        }
    }

    /// Takes the value of the vertex away.
    pub(crate) fn hollow(&mut self, id: usize)
        requires
            old(self).indexed(),
            old(self)@.contains(id),
        ensures
            final(self).indexed(),
            final(self)@ == old(self)@.hollowed(id),
    {
        self.vertices[id].value = None;
        proof {
            let now = self.vertices@[id as int];
            let was = old(self).vertices@[id as int];
            assert(now.children_view() =~= was.children_view());
            assert(now.view() =~= VertexView { value: None, ..was.view() });
            assert(self@.vertices =~= old(self)@.hollowed(id).vertices);
            assert forall|v: int| 0 <= v < self.vertices@.len() implies (
            #[trigger] self.vertices@[v]).indexed() by {
                if v != id {
                    assert(self.vertices@[v] == old(self).vertices@[v]);
                }
            }
        }
    }

    /// Adds a subscription of `on` to the vertex and returns its id.
    pub(crate) fn listen(&mut self, id: usize) -> (subscription_id: usize)
        requires
            old(self).indexed(),
            old(self)@.contains(id),
            old(self)@.next_id < usize::MAX,
        ensures
            final(self).indexed(),
            final(self)@ == old(self)@.listening(id),
            subscription_id == old(self)@.next_id,
    {
        let subscription_id = get_id(&mut self.next_id);
        self.vertices[id].on_subscriptions.push(subscription_id);
        proof {
            let now = self.vertices@[id as int];
            let was = old(self).vertices@[id as int];
            assert(now.children_view() =~= was.children_view());
            assert(now.view() =~= VertexView {
                on_subscriptions: was.view().on_subscriptions.push(subscription_id),
                ..was.view()
            });
            assert(self@.vertices =~= old(self)@.listening(id).vertices);
            assert forall|v: int| 0 <= v < self.vertices@.len() implies (
            #[trigger] self.vertices@[v]).indexed() by {
                if v != id {
                    assert(self.vertices@[v] == old(self).vertices@[v]);
                }
            }
        }
        subscription_id
    }

    /// Adds a subscription of `map` to the vertex and returns its id.
    pub(crate) fn watch(&mut self, id: usize) -> (subscription_id: usize)
        requires
            old(self).indexed(),
            old(self)@.contains(id),
            old(self)@.next_id < usize::MAX,
        ensures
            final(self).indexed(),
            final(self)@ == old(self)@.watching(id),
            subscription_id == old(self)@.next_id,
    {
        let subscription_id = get_id(&mut self.next_id);
        self.vertices[id].map_subscriptions.push(subscription_id);
        proof {
            let now = self.vertices@[id as int];
            let was = old(self).vertices@[id as int];
            assert(now.children_view() =~= was.children_view());
            assert(now.view() =~= VertexView {
                map_subscriptions: was.view().map_subscriptions.push(subscription_id),
                ..was.view()
            });
            assert(self@.vertices =~= old(self)@.watching(id).vertices);
            assert forall|v: int| 0 <= v < self.vertices@.len() implies (
            #[trigger] self.vertices@[v]).indexed() by {
                if v != id {
                    assert(self.vertices@[v] == old(self).vertices@[v]);
                }
            }
        }
        subscription_id
    }

    /// Takes a subscription away from the vertex, whichever kind it is of.
    pub(crate) fn forget(&mut self, id: usize, subscription_id: usize)
        requires
            old(self).indexed(),
            old(self)@.contains(id),
        ensures
            final(self).indexed(),
            final(self)@ == old(self)@.deaf(id, subscription_id),
    {
        let on = remove_subscription(&self.vertices[id].on_subscriptions, subscription_id);
        let map = remove_subscription(&self.vertices[id].map_subscriptions, subscription_id);
        self.vertices[id].on_subscriptions = on;
        self.vertices[id].map_subscriptions = map;
        proof {
            let now = self.vertices@[id as int];
            let was = old(self).vertices@[id as int];
            assert(now.children_view() =~= was.children_view());
            assert(now.view() =~= VertexView {
                on_subscriptions: without(was.view().on_subscriptions, subscription_id),
                map_subscriptions: without(was.view().map_subscriptions, subscription_id),
                ..was.view()
            });
            assert(self@.vertices =~= old(self)@.deaf(id, subscription_id).vertices);
            assert forall|v: int| 0 <= v < self.vertices@.len() implies (
            #[trigger] self.vertices@[v]).indexed() by {
                if v != id {
                    assert(self.vertices@[v] == old(self).vertices@[v]);
                }
            }
        }
    }

    /// Moves the seed on and writes the message identifier of the new seed.
    pub(crate) fn next_message_id(&mut self) -> (id: String)
        ensures
            final(self).indexed() == old(self).indexed(),
            final(self)@ == old(self)@.reseeded(),
            id@ == message_id(stepped(old(self)@.seed)),
    {
        self.seed = step(self.seed);
        assert(self@.vertices =~= old(self)@.vertices);
        message_id_of(self.seed)
    }
}

/// Copies the subscriptions but for the given one.
fn remove_subscription(subscriptions: &Vec<usize>, id: usize) -> (rest: Vec<usize>)
    ensures
        rest@ == without(subscriptions@, id),
{
    let mut rest: Vec<usize> = Vec::new();
    let mut i: usize = 0;
    while i < subscriptions.len()
        invariant
            i <= subscriptions.len(),
            rest@ == without(subscriptions@.take(i as int), id),
        decreases subscriptions.len() - i,
    {
        proof {
            let next = subscriptions@.take(i + 1);
            assert(next.drop_last() =~= subscriptions@.take(i as int));
            assert(next.last() == subscriptions@[i as int]);
        }
        if subscriptions[i] != id {
            rest.push(subscriptions[i]);
        }
        i += 1;
    }
    assert(subscriptions@.take(i as int) =~= subscriptions@);
    rest
}

} // verus!
