//! The graph as a mathematical value, and what each operation makes of it.
//!
//! The executable store has this model as its view. Every contract of the
//! library is stated over it.

use crate::assoc::{bound, distinct_keys, last_index, lemma_bound, lemma_last_index, lookup};
use crate::ids::stepped;
use crate::value::ValueView;
use vstd::prelude::*;

verus! {

/// A vertex of the graph.
#[verifier::ext_equal]
pub struct VertexView {
    /// The key under which the vertex was made.
    pub key: Seq<char>,
    /// The keys of its ancestors, from the root down, without its own.
    pub path: Seq<Seq<char>>,
    /// The time of the last write to `value`, in ticks; 0 where there was none.
    pub updated_at: u128,
    pub value: Option<ValueView>,
    /// The children by key, in the order in which their keys were first used.
    pub children: Seq<(Seq<char>, usize)>,
    /// Each parent with the key that the vertex has under it.
    pub parents: Seq<(usize, Seq<char>)>,
    pub on_subscriptions: Seq<usize>,
    pub map_subscriptions: Seq<usize>,
}

/// The whole graph: its vertices, each at the index that is its id, the
/// counter of subscriptions and the seed of message identifiers.
#[verifier::ext_equal]
pub struct GraphView {
    pub vertices: Seq<VertexView>,
    pub next_id: usize,
    pub seed: u64,
}

/// A way to a vertex: its id, and the key and path under which it was reached.
#[verifier::ext_equal]
pub struct NodeView {
    pub id: usize,
    pub key: Seq<char>,
    pub path: Seq<Seq<char>>,
}

/// A value owed to a subscriber.
#[verifier::ext_equal]
pub struct NoteView {
    pub subscription_id: usize,
    pub value: ValueView,
    pub key: Seq<char>,
}

/// Every vertex of `before` is in `after`, and none has an earlier time there.
pub open spec fn never_rewound(before: GraphView, after: GraphView) -> bool {
    &&& before.vertices.len() <= after.vertices.len()
    &&& forall|v: int|
        0 <= v < before.vertices.len() ==> before.vertices[v].updated_at <= (
        #[trigger] after.vertices[v]).updated_at
}

/// The root's way: id 0, no key, no path.
pub open spec fn root_view() -> NodeView {
    NodeView { id: 0, key: Seq::empty(), path: Seq::empty() }
}

/// A vertex that was never written and has no children.
pub open spec fn fresh_vertex(key: Seq<char>, path: Seq<Seq<char>>, parents: Seq<(usize, Seq<char>)>) -> VertexView {
    VertexView {
        key,
        path,
        updated_at: 0,
        value: None,
        children: Seq::empty(),
        parents,
        on_subscriptions: Seq::empty(),
        map_subscriptions: Seq::empty(),
    }
}

/// A store that holds the root alone.
pub open spec fn initial_store(seed: u64) -> GraphView {
    GraphView {
        vertices: seq![fresh_vertex(Seq::empty(), Seq::empty(), Seq::empty())],
        next_id: 1,
        seed,
    }
}

/// One note for each subscription, in their order.
pub open spec fn notes(subscriptions: Seq<usize>, value: ValueView, key: Seq<char>) -> Seq<NoteView> {
    Seq::new(
        subscriptions.len(),
        |i: int| NoteView { subscription_id: subscriptions[i], value, key },
    )
}

/// The subscriptions without the given one.
pub open spec fn without(subscriptions: Seq<usize>, id: usize) -> Seq<usize>
    decreases subscriptions.len(),
{
    if subscriptions.len() == 0 {
        subscriptions
    } else if subscriptions.last() == id {
        without(subscriptions.drop_last(), id)
    } else {
        without(subscriptions.drop_last(), id).push(subscriptions.last())
    }
}

impl GraphView {
    pub open spec fn contains(self, id: usize) -> bool {
        id < self.vertices.len()
    }

    /// The store with one vertex replaced.
    pub open spec fn with_vertex(self, id: usize, vertex: VertexView) -> GraphView {
        GraphView { vertices: self.vertices.update(id as int, vertex), ..self }
    }

    /// What an aggregate shows for a child: its value where it has one, a link
    /// to it otherwise.
    pub open spec fn shown(self, child: usize) -> ValueView {
        if self.contains(child) && self.vertices[child as int].value.is_some() {
            self.vertices[child as int].value.unwrap()
        } else {
            ValueView::Link(child)
        }
    }

    /// The children of a vertex, each with what is shown for it.
    pub open spec fn aggregate(self, id: usize) -> Seq<(Seq<char>, ValueView)> {
        let children = self.vertices[id as int].children;
        Seq::new(children.len(), |i: int| (children[i].0, self.shown(children[i].1)))
    }

    /// What an observer of a vertex sees: its value where it has one, else the
    /// aggregate of its children, else nothing.
    pub open spec fn observable(self, id: usize) -> Option<ValueView> {
        let vertex = self.vertices[id as int];
        if vertex.value.is_some() {
            vertex.value
        } else if vertex.children.len() > 0 {
            Some(ValueView::Children(self.aggregate(id)))
        } else {
            None
        }
    }

    /// The path of a vertex made under the given way.
    pub open spec fn path_under(parent: NodeView) -> Seq<Seq<char>> {
        if parent.key.len() > 0 {
            parent.path.push(parent.key)
        } else {
            parent.path
        }
    }

    /// The store with a new vertex of the given path under the vertex
    /// `parent`, bound to `key` there. A child that the key had before is no
    /// longer reached.
    pub open spec fn attached(self, parent: usize, key: Seq<char>, path: Seq<Seq<char>>) -> GraphView {
        let id = self.vertices.len() as usize;
        let vertex = fresh_vertex(key, path, seq![(parent, key)]);
        let grown = GraphView { vertices: self.vertices.push(vertex), ..self };
        let above = grown.vertices[parent as int];
        grown.with_vertex(parent, VertexView { children: bound(above.children, key, id), ..above })
    }

    /// The store with a new vertex under the way `parent`, bound to `key`.
    pub open spec fn spawned(self, parent: NodeView, key: Seq<char>) -> GraphView {
        self.attached(parent.id, key, Self::path_under(parent))
    }

    /// The store in which the vertex holds no value.
    pub open spec fn hollowed(self, id: usize) -> GraphView {
        self.with_vertex(id, VertexView { value: None, ..self.vertices[id as int] })
    }

    /// Whether going down by `key` makes a new vertex: it does where the vertex
    /// holds a value, and where it has no child of that key.
    pub open spec fn spawns(self, node: NodeView, key: Seq<char>) -> bool {
        let vertex = self.vertices[node.id as int];
        vertex.value.is_some() || last_index(vertex.children, key) < 0
    }

    /// The way to the child of `node` under `key`, once it is there.
    pub open spec fn child_of(self, node: NodeView, key: Seq<char>) -> NodeView {
        let id = lookup(self.vertices[node.id as int].children, key).unwrap();
        NodeView { id, key, path: self.vertices[id as int].path }
    }

    /// Going down from `node` by `key`: the store, with a new vertex where one
    /// had to be made, and the way to the child.
    pub open spec fn entered(self, node: NodeView, key: Seq<char>) -> (GraphView, NodeView) {
        let after = if self.spawns(node, key) {
            self.spawned(node, key)
        } else {
            self
        };
        (after, after.child_of(node, key))
    }

    /// Going down from `node` by the first `count` of the keys, one after the
    /// other.
    pub open spec fn walked(self, node: NodeView, keys: Seq<Seq<char>>, count: int) -> (
        GraphView,
        NodeView,
    )
        decreases count,
    {
        if count <= 0 {
            (self, node)
        } else {
            let (before, at) = self.walked(node, keys, count - 1);
            before.entered(at, keys[count - 1])
        }
    }

    /// The store with the vertex written at time `at`: it holds the value and
    /// has no children.
    pub open spec fn assigned(self, id: usize, value: ValueView, at: u128) -> GraphView {
        let vertex = self.vertices[id as int];
        self.with_vertex(
            id,
            VertexView { updated_at: at, value: Some(value), children: Seq::empty(), ..vertex },
        )
    }

    /// The store in which the first `count` of the parents hold no value.
    pub open spec fn cleared(self, parents: Seq<(usize, Seq<char>)>, count: int) -> GraphView
        decreases count,
    {
        if count <= 0 {
            self
        } else {
            let before = self.cleared(parents, count - 1);
            let parent = parents[count - 1].0;
            if before.contains(parent) {
                before.hollowed(parent)
            } else {
                before
            }
        }
    }

    /// The store after a write to a vertex: the vertex holds the value, and its
    /// parents hold none.
    pub open spec fn written(self, id: usize, value: ValueView, at: u128) -> GraphView {
        let parents = self.vertices[id as int].parents;
        self.assigned(id, value, at).cleared(parents, parents.len() as int)
    }

    /// What a parent's subscribers are owed when a child under the edge's key
    /// is written: the child's value for those of `map`, the parent's
    /// observable value for those of `on`.
    pub open spec fn fanned(self, edge: (usize, Seq<char>), value: ValueView) -> Seq<NoteView> {
        if self.contains(edge.0) {
            let parent = self.vertices[edge.0 as int];
            let mapped = notes(parent.map_subscriptions, value, edge.1);
            match self.observable(edge.0) {
                Some(seen) => mapped + notes(parent.on_subscriptions, seen, edge.1),
                None => mapped,
            }
        } else {
            Seq::empty()
        }
    }

    /// What the subscribers of the first `count` parents are owed, each parent
    /// taken in the store in which those before it are cleared.
    pub open spec fn heard(self, parents: Seq<(usize, Seq<char>)>, value: ValueView, count: int) -> Seq<NoteView>
        decreases count,
    {
        if count <= 0 {
            Seq::empty()
        } else {
            self.heard(parents, value, count - 1) + self.cleared(parents, count - 1).fanned(
                parents[count - 1],
                value,
            )
        }
    }

    /// The notes that a write to the vertex owes: first to its own subscribers,
    /// under the key of the way, then to those of its parents.
    pub open spec fn announced(self, node: NodeView, value: ValueView, at: u128) -> Seq<NoteView> {
        let vertex = self.vertices[node.id as int];
        notes(vertex.on_subscriptions, value, node.key) + self.assigned(node.id, value, at).heard(
            vertex.parents,
            value,
            vertex.parents.len() as int,
        )
    }

    /// The store after a write that is merged in: taken where it is newer than
    /// what the vertex holds, and dropped otherwise.
    pub open spec fn merged(self, id: usize, value: ValueView, at: u128) -> GraphView {
        if self.vertices[id as int].updated_at < at {
            self.written(id, value, at)
        } else {
            self
        }
    }

    /// The store with the seed moved on by one step.
    pub open spec fn reseeded(self) -> GraphView {
        GraphView { seed: stepped(self.seed), ..self }
    }

    /// The store with one more subscription of `on` at the vertex.
    pub open spec fn listening(self, id: usize) -> GraphView {
        let vertex = self.vertices[id as int];
        GraphView {
            vertices: self.vertices.update(
                id as int,
                VertexView {
                    on_subscriptions: vertex.on_subscriptions.push(self.next_id),
                    ..vertex
                },
            ),
            next_id: (self.next_id + 1) as usize,
            ..self
        }
    }

    /// The store with one more subscription of `map` at the vertex.
    pub open spec fn watching(self, id: usize) -> GraphView {
        let vertex = self.vertices[id as int];
        GraphView {
            vertices: self.vertices.update(
                id as int,
                VertexView {
                    map_subscriptions: vertex.map_subscriptions.push(self.next_id),
                    ..vertex
                },
            ),
            next_id: (self.next_id + 1) as usize,
            ..self
        }
    }

    /// The store in which the vertex no longer has the subscription.
    pub open spec fn deaf(self, id: usize, subscription_id: usize) -> GraphView {
        let vertex = self.vertices[id as int];
        self.with_vertex(
            id,
            VertexView {
                on_subscriptions: without(vertex.on_subscriptions, subscription_id),
                map_subscriptions: without(vertex.map_subscriptions, subscription_id),
                ..vertex
            },
        )
    }

    /// What a new subscriber of `map` is owed at once: for each of the first
    /// `count` children that has something to observe, that, under its key.
    pub open spec fn glimpsed(self, id: usize, subscription_id: usize, count: int) -> Seq<NoteView>
        decreases count,
    {
        if count <= 0 {
            Seq::empty()
        } else {
            let before = self.glimpsed(id, subscription_id, count - 1);
            let child = self.vertices[id as int].children[count - 1];
            if self.contains(child.1) && self.observable(child.1).is_some() {
                before.push(
                    NoteView {
                        subscription_id,
                        value: self.observable(child.1).unwrap(),
                        key: child.0,
                    },
                )
            } else {
                before
            }
        }
    }

    /// An edge to a child is matched by the child: the child is in the store,
    /// was made after the parent, and lists the parent with the edge's key.
    pub open spec fn edge_wf(self, parent: int, edge: (Seq<char>, usize)) -> bool {
        &&& parent < edge.1 < self.vertices.len()
        &&& self.vertices[edge.1 as int].parents.contains((parent as usize, edge.0))
    }

    pub open spec fn vertex_wf(self, v: int) -> bool {
        let vertex = self.vertices[v];
        &&& distinct_keys(vertex.children)
        &&& forall|i: int|
            0 <= i < vertex.children.len() ==> self.edge_wf(v, #[trigger] vertex.children[i])
        &&& forall|i: int| 0 <= i < vertex.parents.len() ==> (#[trigger] vertex.parents[i]).0 < v
        &&& forall|i: int|
            0 <= i < vertex.on_subscriptions.len() ==> (#[trigger] vertex.on_subscriptions[i])
                < self.next_id
        &&& forall|i: int|
            0 <= i < vertex.map_subscriptions.len() ==> (#[trigger] vertex.map_subscriptions[i])
                < self.next_id
    }

    /// The invariant of the graph: the root is there, every edge is matched by
    /// its child, parents are older than their children, and no subscription
    /// id is yet to be handed out.
    pub open spec fn wf(self) -> bool {
        &&& 1 <= self.vertices.len() <= usize::MAX
        &&& self.vertices[0].key.len() == 0
        &&& self.vertices[0].path.len() == 0
        &&& forall|v: int| 0 <= v < self.vertices.len() ==> #[trigger] self.vertex_wf(v)
    }

    /// No vertex that holds a value has children.
    pub open spec fn scalars_are_leaves(self) -> bool {
        forall|v: int|
            0 <= v < self.vertices.len() && (#[trigger] self.vertices[v]).value.is_some()
                ==> self.vertices[v].children.len() == 0
    }
}

} // verus!

verus! {

/// A new vertex keeps the graph in order, and leaves every other vertex as it
/// was but for the children of the parent.
pub proof fn lemma_attached(store: GraphView, parent: usize, key: Seq<char>, path: Seq<Seq<char>>)
    requires
        store.wf(),
        store.contains(parent),
        store.vertices.len() < usize::MAX,
    ensures
        store.attached(parent, key, path).wf(),
        store.attached(parent, key, path).vertices.len() == store.vertices.len() + 1,
        store.attached(parent, key, path).next_id == store.next_id,
        store.attached(parent, key, path).seed == store.seed,
        lookup(store.attached(parent, key, path).vertices[parent as int].children, key) == Some(
            store.vertices.len() as usize,
        ),
        store.attached(parent, key, path).vertices[store.vertices.len() as int] == fresh_vertex(
            key,
            path,
            seq![(parent, key)],
        ),
        forall|v: int|
            0 <= v < store.vertices.len() && v != parent ==> store.attached(
                parent,
                key,
                path,
            ).vertices[v] == store.vertices[v],
        store.attached(parent, key, path).vertices[parent as int] == (VertexView {
            children: store.attached(parent, key, path).vertices[parent as int].children,
            ..store.vertices[parent as int]
        }),
{
    let after = store.attached(parent, key, path);
    let id = store.vertices.len() as usize;
    let above = store.vertices[parent as int];
    assert(store.vertex_wf(parent as int));
    lemma_bound(above.children, key, id);
    lemma_last_index(above.children, key);
    let children = bound(above.children, key, id);
    assert(after.vertices[parent as int].children == children);
    assert forall|v: int| 0 <= v < after.vertices.len() implies #[trigger] after.vertex_wf(v) by {
        let vertex = after.vertices[v];
        if v == id {
            assert(vertex.parents[0] == (parent, key));
        } else if v == parent {
            assert forall|i: int| 0 <= i < children.len() implies after.edge_wf(
                v,
                #[trigger] children[i],
            ) by {
                if children[i].1 == id {
                    assert(after.vertices[id as int].parents[0] == (parent, key));
                } else {
                    assert(children[i] == above.children[i]);
                    assert(store.edge_wf(v, above.children[i]));
                }
            }
        } else {
            assert(store.vertex_wf(v));
            assert forall|i: int| 0 <= i < vertex.children.len() implies after.edge_wf(
                v,
                #[trigger] vertex.children[i],
            ) by {
                assert(store.edge_wf(v, vertex.children[i]));
            }
        }
    }
}

/// Going down keeps the graph in order and every vertex in the store.
pub proof fn lemma_entered(store: GraphView, node: NodeView, key: Seq<char>)
    requires
        store.wf(),
        store.contains(node.id),
        store.spawns(node, key) ==> store.vertices.len() < usize::MAX,
    ensures
        store.entered(node, key).0.wf(),
        store.entered(node, key).0.contains(store.entered(node, key).1.id),
        store.entered(node, key).1.key == key,
        store.vertices.len() <= store.entered(node, key).0.vertices.len() <= store.vertices.len()
            + 1,
        store.entered(node, key).0.next_id == store.next_id,
        store.entered(node, key).0.seed == store.seed,
        forall|v: int|
            0 <= v < store.vertices.len() && v != node.id ==> store.entered(node, key).0.vertices[v]
                == store.vertices[v],
        store.entered(node, key).0.vertices[node.id as int] == (VertexView {
            children: store.entered(node, key).0.vertices[node.id as int].children,
            ..store.vertices[node.id as int]
        }),
{
    if store.spawns(node, key) {
        lemma_attached(store, node.id, key, GraphView::path_under(node));
    } else {
        let vertex = store.vertices[node.id as int];
        lemma_last_index(vertex.children, key);
        assert(store.vertex_wf(node.id as int));
        assert(store.edge_wf(node.id as int, vertex.children[last_index(vertex.children, key)]));
    }
}

/// Stores that differ in the values of their vertices alone are in order
/// together.
pub proof fn lemma_wf_ignores_values(before: GraphView, after: GraphView)
    requires
        before.wf(),
        after.vertices.len() == before.vertices.len(),
        after.next_id == before.next_id,
        forall|v: int|
            0 <= v < before.vertices.len() ==> (#[trigger] after.vertices[v]) == (VertexView {
                value: after.vertices[v].value,
                ..before.vertices[v]
            }),
    ensures
        after.wf(),
{
    assert forall|v: int| 0 <= v < after.vertices.len() implies #[trigger] after.vertex_wf(v) by {
        assert(before.vertex_wf(v));
        let vertex = after.vertices[v];
        assert forall|i: int| 0 <= i < vertex.children.len() implies after.edge_wf(
            v,
            #[trigger] vertex.children[i],
        ) by {
            assert(before.edge_wf(v, before.vertices[v].children[i]));
        }
    }
}

/// Clearing parents changes values alone, and the value of no vertex that is
/// not among the parents cleared.
pub proof fn lemma_cleared(store: GraphView, parents: Seq<(usize, Seq<char>)>, count: int)
    requires
        count <= parents.len(),
    ensures
        store.cleared(parents, count).vertices.len() == store.vertices.len(),
        store.cleared(parents, count).next_id == store.next_id,
        store.cleared(parents, count).seed == store.seed,
        forall|v: int|
            0 <= v < store.vertices.len() ==> (#[trigger] store.cleared(parents, count).vertices[v])
                == (VertexView {
                value: store.cleared(parents, count).vertices[v].value,
                ..store.vertices[v]
            }),
        forall|v: int|
            0 <= v < store.vertices.len() ==> (#[trigger] store.cleared(
                parents,
                count,
            ).vertices[v]).value.is_none() || store.cleared(parents, count).vertices[v].value
                == store.vertices[v].value,
        forall|v: int|
            0 <= v < store.vertices.len() && (forall|i: int|
                0 <= i < count ==> (#[trigger] parents[i]).0 != v) ==> (#[trigger] store.cleared(
                parents,
                count,
            ).vertices[v]) == store.vertices[v],
        forall|i: int|
            0 <= i < count && store.contains((#[trigger] parents[i]).0) ==> store.cleared(
                parents,
                count,
            ).vertices[parents[i].0 as int].value.is_none(),
    decreases count,
{
    if count > 0 {
        lemma_cleared(store, parents, count - 1);
        let before = store.cleared(parents, count - 1);
        let after = store.cleared(parents, count);
        assert forall|v: int|
            0 <= v < store.vertices.len() && (forall|i: int|
                0 <= i < count ==> (#[trigger] parents[i]).0 != v) implies (
        #[trigger] after.vertices[v]) == store.vertices[v] by {
            assert(parents[count - 1].0 != v);
            assert(forall|i: int| 0 <= i < count - 1 ==> (#[trigger] parents[i]).0 != v);
        }
    }
}

/// A write keeps the graph in order. The vertex then holds the value and no
/// child, every parent of it holds no value, and nothing else has changed.
pub proof fn lemma_written(store: GraphView, id: usize, value: ValueView, at: u128)
    requires
        store.wf(),
        store.contains(id),
    ensures
        store.written(id, value, at).wf(),
        store.written(id, value, at).vertices.len() == store.vertices.len(),
        store.written(id, value, at).next_id == store.next_id,
        store.written(id, value, at).seed == store.seed,
        store.written(id, value, at).vertices[id as int] == (VertexView {
            updated_at: at,
            value: Some(value),
            children: Seq::empty(),
            ..store.vertices[id as int]
        }),
        forall|v: int|
            0 <= v < store.vertices.len() && v != id ==> (#[trigger] store.written(
                id,
                value,
                at,
            ).vertices[v]) == (VertexView {
                value: store.written(id, value, at).vertices[v].value,
                ..store.vertices[v]
            }),
        forall|v: int|
            0 <= v < store.vertices.len() && v != id ==> (#[trigger] store.written(
                id,
                value,
                at,
            ).vertices[v]).value.is_none() || store.written(id, value, at).vertices[v].value
                == store.vertices[v].value,
        forall|i: int|
            0 <= i < store.vertices[id as int].parents.len() ==> store.written(
                id,
                value,
                at,
            ).vertices[(#[trigger] store.vertices[id as int].parents[i]).0 as int].value.is_none(),
        store.scalars_are_leaves() ==> store.written(id, value, at).scalars_are_leaves(),
{
    let parents = store.vertices[id as int].parents;
    let assigned = store.assigned(id, value, at);
    let after = store.written(id, value, at);
    assert(store.vertex_wf(id as int));
    lemma_cleared(assigned, parents, parents.len() as int);
    assert(forall|i: int| 0 <= i < parents.len() ==> (#[trigger] parents[i]).0 != id);
    assert(after.vertices[id as int] == assigned.vertices[id as int]);
    assert(assigned.wf()) by {
        assert forall|v: int| 0 <= v < assigned.vertices.len() implies #[trigger] assigned.vertex_wf(
            v,
        ) by {
            assert(store.vertex_wf(v));
            let vertex = assigned.vertices[v];
            assert forall|i: int| 0 <= i < vertex.children.len() implies assigned.edge_wf(
                v,
                #[trigger] vertex.children[i],
            ) by {
                assert(store.edge_wf(v, store.vertices[v].children[i]));
            }
        }
    }
    lemma_wf_ignores_values(assigned, after);
    assert forall|i: int| 0 <= i < parents.len() implies after.vertices[(
    #[trigger] parents[i]).0 as int].value.is_none() by {
        assert(assigned.contains(parents[i].0));
    }
    if store.scalars_are_leaves() {
        assert forall|v: int|
            0 <= v < after.vertices.len() && (#[trigger] after.vertices[v]).value.is_some() implies after.vertices[v].children.len()
            == 0 by {
            if v != id {
                assert(after.vertices[v].value == assigned.vertices[v].value);
                assert(store.vertices[v].value.is_some());
            }
        }
    }
}

/// A new subscription keeps the graph in order.
pub proof fn lemma_subscribed(store: GraphView, id: usize)
    requires
        store.wf(),
        store.contains(id),
        store.next_id < usize::MAX,
    ensures
        store.listening(id).wf(),
        store.watching(id).wf(),
{
    let on = store.listening(id);
    assert forall|v: int| 0 <= v < on.vertices.len() implies #[trigger] on.vertex_wf(v) by {
        assert(store.vertex_wf(v));
        let vertex = on.vertices[v];
        assert forall|i: int| 0 <= i < vertex.children.len() implies on.edge_wf(
            v,
            #[trigger] vertex.children[i],
        ) by {
            assert(store.edge_wf(v, store.vertices[v].children[i]));
        }
    }
    let map = store.watching(id);
    assert forall|v: int| 0 <= v < map.vertices.len() implies #[trigger] map.vertex_wf(v) by {
        assert(store.vertex_wf(v));
        let vertex = map.vertices[v];
        assert forall|i: int| 0 <= i < vertex.children.len() implies map.edge_wf(
            v,
            #[trigger] vertex.children[i],
        ) by {
            assert(store.edge_wf(v, store.vertices[v].children[i]));
        }
    }
}

/// Taking one subscription away leaves only subscriptions that were there.
pub proof fn lemma_without(subscriptions: Seq<usize>, id: usize)
    ensures
        !without(subscriptions, id).contains(id),
        forall|i: int|
            0 <= i < without(subscriptions, id).len() ==> subscriptions.contains(
                #[trigger] without(subscriptions, id)[i],
            ),
        forall|other: usize|
            other != id && subscriptions.contains(other) ==> without(subscriptions, id).contains(
                other,
            ),
    decreases subscriptions.len(),
{
    if subscriptions.len() > 0 {
        let shorter = subscriptions.drop_last();
        lemma_without(shorter, id);
        let rest = without(subscriptions, id);
        assert forall|i: int| 0 <= i < rest.len() implies subscriptions.contains(
            #[trigger] rest[i],
        ) by {
            if i < without(shorter, id).len() {
                let at = choose|j: int| 0 <= j < shorter.len() && shorter[j] == without(shorter, id)[i];
                assert(subscriptions[at] == rest[i]);
            } else {
                assert(subscriptions[subscriptions.len() - 1] == rest[i]);
            }
        }
        assert forall|other: usize|
            other != id && subscriptions.contains(other) implies rest.contains(other) by {
            let at = choose|j: int| 0 <= j < subscriptions.len() && subscriptions[j] == other;
            if at < shorter.len() {
                assert(shorter[at] == other);
                assert(shorter.contains(other));
                assert(without(shorter, id).contains(other));
                let to = choose|j: int|
                    0 <= j < without(shorter, id).len() && without(shorter, id)[j] == other;
                assert(rest[to] == other);
            } else {
                assert(rest[rest.len() - 1] == other);
            }
        }
        if rest.contains(id) {
            let at = choose|j: int| 0 <= j < rest.len() && rest[j] == id;
            if at < without(shorter, id).len() {
                assert(without(shorter, id)[at] == id);
            }
        }
    }
}

/// Taking a subscription away keeps the graph in order.
pub proof fn lemma_deaf(store: GraphView, id: usize, subscription_id: usize)
    requires
        store.wf(),
        store.contains(id),
    ensures
        store.deaf(id, subscription_id).wf(),
{
    let after = store.deaf(id, subscription_id);
    lemma_without(store.vertices[id as int].on_subscriptions, subscription_id);
    lemma_without(store.vertices[id as int].map_subscriptions, subscription_id);
    assert forall|v: int| 0 <= v < after.vertices.len() implies #[trigger] after.vertex_wf(v) by {
        assert(store.vertex_wf(v));
        let vertex = after.vertices[v];
        assert forall|i: int| 0 <= i < vertex.children.len() implies after.edge_wf(
            v,
            #[trigger] vertex.children[i],
        ) by {
            assert(store.edge_wf(v, store.vertices[v].children[i]));
        }
        if v == id {
            let was = store.vertices[v];
            assert forall|i: int| 0 <= i < vertex.on_subscriptions.len() implies (
            #[trigger] vertex.on_subscriptions[i]) < after.next_id by {
                let at = choose|j: int|
                    0 <= j < was.on_subscriptions.len() && was.on_subscriptions[j]
                        == vertex.on_subscriptions[i];
                assert(was.on_subscriptions[at] < store.next_id);
            }
            assert forall|i: int| 0 <= i < vertex.map_subscriptions.len() implies (
            #[trigger] vertex.map_subscriptions[i]) < after.next_id by {
                let at = choose|j: int|
                    0 <= j < was.map_subscriptions.len() && was.map_subscriptions[j]
                        == vertex.map_subscriptions[i];
                assert(was.map_subscriptions[at] < store.next_id);
            }
        }
    }
}

} // verus!

verus! {

/// Moving the seed on keeps the graph in order.
pub proof fn lemma_reseeded(store: GraphView)
    requires
        store.wf(),
    ensures
        store.reseeded().wf(),
{
    lemma_wf_ignores_values(store, store.reseeded());
}

} // verus!
