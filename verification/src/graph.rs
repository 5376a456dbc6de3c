//! The graph store: nodes and edges live in two dense, append-only
//! vectors. A node keeps only the head of a singly-linked list of its
//! outgoing edges, threaded through the shared edge vector, so adding
//! an edge is O(1) and never invalidates an index handed out earlier.

use vstd::prelude::*;
use vstd::std_specs::cmp::PartialEqSpec;

verus! {

/// Stable handle of a node within one graph instance.
#[derive(Copy, Clone, Debug, Eq, PartialEq, Hash, Structural)]
pub struct NodeIndex(pub usize);

/// Stable handle of an edge within one graph instance.
#[derive(Copy, Clone, Debug, Eq, PartialEq, Hash, Structural)]
pub struct EdgeIndex(pub usize);

#[derive(Copy, Clone, Debug, Eq, PartialEq, Hash)]
pub(crate) struct Node<T> {
    pub(crate) value: T,
    pub(crate) first_outgoing_edge: Option<EdgeIndex>,
}

#[derive(Copy, Clone, Debug, Eq, PartialEq, Hash)]
pub(crate) struct Edge {
    pub(crate) target: NodeIndex,
    pub(crate) next_outgoing_edge: Option<EdgeIndex>,
}

/// A directed graph over values of type `T`.
#[derive(Clone, Debug, Eq, PartialEq, Hash)]
pub struct Graph<T> {
    pub(crate) nodes: Vec<Node<T>>,
    pub(crate) edges: Vec<Edge>,
}

/// Rank used to show that walking a node's edge list terminates: the
/// list is threaded towards strictly smaller edge indices.
spec fn head_rank(head: Option<EdgeIndex>) -> int {
    match head {
        None => 0,
        Some(e) => e.0 + 1,
    }
}

/// True when `next` points at a strictly earlier slot of the edge
/// vector than `cur`, the shape every well-formed edge list has.
spec fn next_descends(next: Option<EdgeIndex>, cur: EdgeIndex) -> bool {
    match next {
        None => false,
        Some(j) => j.0 < cur.0,
    }
}

/// The targets reachable by walking the edge list that starts at
/// `head`, most recently added edge first. Walks stop at the first
/// slot that is out of range or does not descend, so the function is
/// total; on a well-formed graph neither case arises.
spec fn edge_chain(edges: Seq<Edge>, head: Option<EdgeIndex>) -> Seq<NodeIndex>
    decreases head_rank(head),
{
    match head {
        None => Seq::empty(),
        Some(ei) => {
            if ei.0 < edges.len() {
                let e = edges[ei.0 as int];
                let rest = if next_descends(e.next_outgoing_edge, ei) {
                    edge_chain(edges, e.next_outgoing_edge)
                } else {
                    Seq::empty()
                };
                seq![e.target] + rest
            } else {
                Seq::empty()
            }
        },
    }
}

impl<T> Graph<T> {
    /// Number of nodes ever added.
    pub closed spec fn node_count(self) -> nat {
        self.nodes@.len()
    }

    /// Number of edges ever added.
    pub closed spec fn edge_count(self) -> nat {
        self.edges@.len()
    }

    /// The value stored in the node at index `i`.
    pub closed spec fn value_at(self, i: int) -> T
        recommends
            0 <= i < self.node_count(),
    {
        self.nodes@[i].value
    }

    /// The successors of the node at index `source`, in reverse
    /// insertion order of the edges that lead out of it.
    pub closed spec fn successor_seq(self, source: int) -> Seq<NodeIndex>
        recommends
            0 <= source < self.node_count(),
    {
        edge_chain(self.edges@, self.nodes@[source].first_outgoing_edge)
    }

    /// Well-formedness: every edge targets an existing node, every
    /// edge list descends through strictly smaller edge indices, and
    /// every list head is in range. Constructors establish this and
    /// every method preserves it.
    pub closed spec fn wf(self) -> bool {
        &&& (forall|i: int|
            0 <= i < self.edges@.len() ==> (#[trigger] self.edges@[i]).target.0
                < self.nodes@.len())
        &&& (forall|i: int|
            0 <= i < self.edges@.len() ==> (match (#[trigger] self.edges@[i]).next_outgoing_edge {
                None => true,
                Some(j) => j.0 < i,
            }))
        &&& (forall|i: int|
            0 <= i < self.nodes@.len() ==> (match (#[trigger] self.nodes@[i]).first_outgoing_edge {
                None => true,
                Some(j) => j.0 < self.edges@.len(),
            }))
    }

    /// Creates a new empty graph.
    pub fn new() -> (g: Self)
        ensures
            g.wf(),
            g.node_count() == 0,
            g.edge_count() == 0,
    {
        Graph { nodes: Vec::new(), edges: Vec::new() }
    }

    /// Adds a new node to the graph, and returns a `NodeIndex`
    /// representing it. Every index handed out earlier keeps resolving
    /// to the same value and the same successors.
    pub fn add_node(&mut self, value: T) -> (index: NodeIndex)
        requires
            old(self).wf(),
        ensures
            final(self).wf(),
            index.0 == old(self).node_count(),
            final(self).node_count() == old(self).node_count() + 1,
            final(self).edge_count() == old(self).edge_count(),
            final(self).value_at(index.0 as int) == value,
            final(self).successor_seq(index.0 as int) == Seq::<NodeIndex>::empty(),
            forall|i: int|
                0 <= i < old(self).node_count() ==> final(self).value_at(i) == old(self).value_at(
                    i,
                ),
            forall|i: int|
                0 <= i < old(self).node_count() ==> final(self).successor_seq(i) == old(
                    self,
                ).successor_seq(i),
    {
        let index = NodeIndex(self.nodes.len());
        self.nodes.push(Node { value, first_outgoing_edge: None });
        index
    }

    /// Adds a new edge from `source` to `target`, and returns an
    /// `EdgeIndex` representing it. The new edge becomes the head of
    /// `source`'s outgoing list, so it is enumerated first; every
    /// other node's successors, and every stored value, are unchanged.
    pub fn add_edge(&mut self, source: NodeIndex, target: NodeIndex) -> (index: EdgeIndex)
        requires
            old(self).wf(),
            source.0 < old(self).node_count(),
            target.0 < old(self).node_count(),
        ensures
            final(self).wf(),
            index.0 == old(self).edge_count(),
            final(self).edge_count() == old(self).edge_count() + 1,
            final(self).node_count() == old(self).node_count(),
            final(self).successor_seq(source.0 as int) == seq![target] + old(self).successor_seq(
                source.0 as int,
            ),
            forall|i: int|
                0 <= i < old(self).node_count() && i != source.0 ==> final(self).successor_seq(i)
                    == old(self).successor_seq(i),
            forall|i: int|
                0 <= i < old(self).node_count() ==> final(self).value_at(i) == old(self).value_at(
                    i,
                ),
    {
        let edge_index = EdgeIndex(self.edges.len());
        let old_head = self.nodes[source.0].first_outgoing_edge;
        self.edges.push(Edge { target, next_outgoing_edge: old_head });
        let node_data = &mut self.nodes[source.0];
        node_data.first_outgoing_edge = Some(edge_index);
        proof {
            let oldg = *old(self);
            let newg = *self;
            assert forall|i: int| 0 <= i < oldg.nodes@.len() implies newg.successor_seq(i) == (
            if i == source.0 {
                seq![target] + oldg.successor_seq(i)
            } else {
                oldg.successor_seq(i)
            }) by {
                if i == source.0 {
                    lemma_edge_chain_prefix(oldg.edges@, newg.edges@, old_head);
                } else {
                    lemma_edge_chain_prefix(
                        oldg.edges@,
                        newg.edges@,
                        oldg.nodes@[i].first_outgoing_edge,
                    );
                }
            }
        }
        edge_index
    }
}

impl<T> Graph<T> {
    /// Returns the node indices and values of the graph, in insertion
    /// order.
    pub fn nodes(&self) -> (r: Vec<(NodeIndex, &T)>)
        ensures
            r@.len() == self.node_count(),
            forall|i: int|
                0 <= i < r@.len() ==> (#[trigger] r@[i]).0.0 == i && *r@[i].1 == self.value_at(i),
    {
        let mut out: Vec<(NodeIndex, &T)> = Vec::new();
        let mut i: usize = 0;
        while i < self.nodes.len()
            invariant
                i <= self.nodes@.len(),
                out@.len() == i,
                forall|j: int|
                    0 <= j < i ==> (#[trigger] out@[j]).0.0 == j && *out@[j].1 == self.value_at(j),
            decreases self.nodes@.len() - i,
        {
            out.push((NodeIndex(i), &self.nodes[i].value));
            i += 1;
        }
        out
    }

    /// Returns all edge indices of the graph, in insertion order.
    pub fn edges(&self) -> (r: Vec<EdgeIndex>)
        ensures
            r@.len() == self.edge_count(),
            forall|i: int| 0 <= i < r@.len() ==> (#[trigger] r@[i]).0 == i,
    {
        let mut out: Vec<EdgeIndex> = Vec::new();
        let mut i: usize = 0;
        while i < self.edges.len()
            invariant
                i <= self.edges@.len(),
                out@.len() == i,
                forall|j: int| 0 <= j < i ==> (#[trigger] out@[j]).0 == j,
            decreases self.edges@.len() - i,
        {
            out.push(EdgeIndex(i));
            i += 1;
        }
        out
    }

    /// The value stored in the node at `index`.
    pub fn node_value(&self, index: NodeIndex) -> (r: &T)
        requires
            index.0 < self.node_count(),
        ensures
            *r == self.value_at(index.0 as int),
    {
        &self.nodes[index.0].value
    }

    /// Mutable access to the value stored in the node at `index`. The
    /// graph's shape — counts, successors, every other value — is
    /// untouched, whatever the caller writes through the reference.
    pub fn node_value_mut(&mut self, index: NodeIndex) -> (r: &mut T)
        requires
            old(self).wf(),
            index.0 < old(self).node_count(),
        ensures
            *r == old(self).value_at(index.0 as int),
            final(self).wf(),
            final(self).node_count() == old(self).node_count(),
            final(self).edge_count() == old(self).edge_count(),
            final(self).value_at(index.0 as int) == *final(r),
            forall|j: int|
                0 <= j < old(self).node_count() && j != index.0 ==> final(self).value_at(j) == old(
                    self,
                ).value_at(j),
            forall|j: int|
                0 <= j < old(self).node_count() ==> final(self).successor_seq(j) == old(
                    self,
                ).successor_seq(j),
    {
        &mut self.nodes[index.0].value
    }

    /// Fresh per-node visited flags for a traversal over this graph:
    /// one lowered flag per node.
    pub(crate) fn unvisited_flags(&self) -> (v: Vec<bool>)
        ensures
            v@.len() == self.node_count(),
            forall|i: int| 0 <= i < v@.len() ==> !v@[i],
    {
        let mut v: Vec<bool> = Vec::new();
        let mut i: usize = 0;
        while i < self.nodes.len()
            invariant
                i <= self.nodes@.len(),
                v@.len() == i,
                forall|j: int| 0 <= j < i ==> !v@[j],
            decreases self.nodes@.len() - i,
        {
            v.push(false);
            i += 1;
        }
        v
    }

    /// Returns an enumerator over the successors of `source`: the
    /// targets of its outgoing edges, most recently added edge first.
    /// Each call starts a fresh walk of the list.
    pub fn successors(&self, source: NodeIndex) -> (r: Successors<'_, T>)
        requires
            self.wf(),
            source.0 < self.node_count(),
        ensures
            r.wf(),
            r.graph_spec() == *self,
            r.remaining() == self.successor_seq(source.0 as int),
    {
        let first_outgoing_edge = self.nodes[source.0].first_outgoing_edge;
        Successors { graph: self, current_edge_index: first_outgoing_edge }
    }

    /// Every successor of a valid node is itself a valid node index.
    pub proof fn lemma_successors_valid(self, source: int)
        requires
            self.wf(),
            0 <= source < self.node_count(),
        ensures
            forall|k: int|
                0 <= k < self.successor_seq(source).len() ==> (#[trigger] self.successor_seq(
                    source,
                )[k]).0 < self.node_count(),
    {
        lemma_edge_chain_targets(
            self.edges@,
            self.nodes@[source].first_outgoing_edge,
            self.nodes@.len(),
        );
    }
}

/// The endpoint values of `pairs` in the order the builder meets
/// them: source before target, pairs left to right.
pub open spec fn endpoint_values<T>(pairs: Seq<(T, T)>) -> Seq<T>
    decreases pairs.len(),
{
    if pairs.len() == 0 {
        Seq::empty()
    } else {
        endpoint_values(pairs.drop_last()) + seq![pairs.last().0, pairs.last().1]
    }
}

/// Some element of `s` equals `v`, in the sense `==` is specified to
/// have for `T` (stored value on the left, as the store compares).
pub open spec fn contains_eq<T: PartialEq>(s: Seq<T>, v: T) -> bool {
    exists|i: int| 0 <= i < s.len() && (#[trigger] s[i]).eq_spec(&v)
}

/// Index of the first element of `s` that equals `v`; -1 when none
/// does.
pub open spec fn first_index_eq<T: PartialEq>(s: Seq<T>, v: T) -> int
    decreases s.len(),
{
    if s.len() == 0 {
        -1
    } else if s[0].eq_spec(&v) {
        0
    } else {
        let r = first_index_eq(s.drop_first(), v);
        if r < 0 {
            -1
        } else {
            r + 1
        }
    }
}

/// The values a find-or-insert pass over `s` keeps, in order: each
/// value is stored only when no value already stored equals it.
pub open spec fn stored_values<T: PartialEq>(s: Seq<T>) -> Seq<T>
    decreases s.len(),
{
    if s.len() == 0 {
        Seq::empty()
    } else {
        let prefix = stored_values(s.drop_last());
        if contains_eq(prefix, s.last()) {
            prefix
        } else {
            prefix.push(s.last())
        }
    }
}

/// The node values after the builder has consumed `pairs`.
pub open spec fn built_values<T: PartialEq>(pairs: Seq<(T, T)>) -> Seq<T> {
    stored_values(endpoint_values(pairs))
}

/// The node index the builder resolves `v` to against the values
/// `vals` stored so far: the first stored equal value, or the slot of
/// the node it adds when no stored value equals `v`.
pub open spec fn builder_index<T: PartialEq>(vals: Seq<T>, v: T) -> int {
    if contains_eq(vals, v) {
        first_index_eq(vals, v)
    } else {
        vals.len() as int
    }
}

/// The successors the builder leaves on the node at index `n`: one
/// entry per pair whose source value resolves to `n` — the index its
/// target value resolves to — most recently added pair first.
pub open spec fn built_successor_seq<T: PartialEq>(pairs: Seq<(T, T)>, n: int) -> Seq<NodeIndex>
    decreases pairs.len(),
{
    if pairs.len() == 0 {
        Seq::empty()
    } else {
        let rest = built_successor_seq(pairs.drop_last(), n);
        let p = pairs.last();
        let vals = built_values(pairs.drop_last());
        let src = builder_index(vals, p.0);
        let vals1 = if contains_eq(vals, p.0) {
            vals
        } else {
            vals.push(p.0)
        };
        let tgt = builder_index(vals1, p.1);
        if src == n {
            seq![NodeIndex(tgt as usize)] + rest
        } else {
            rest
        }
    }
}

/// Characterizes `first_index_eq`: when some element equals `v` it is
/// the least index of one, otherwise it is -1.
proof fn lemma_first_index_eq<T: PartialEq>(s: Seq<T>, v: T)
    ensures
        contains_eq(s, v) ==> ({
            let f = first_index_eq(s, v);
            &&& 0 <= f < s.len()
            &&& s[f].eq_spec(&v)
            &&& forall|j: int| 0 <= j < f ==> !(#[trigger] s[j]).eq_spec(&v)
        }),
        !contains_eq(s, v) ==> first_index_eq(s, v) == -1,
    decreases s.len(),
{
    if s.len() > 0 && !s[0].eq_spec(&v) {
        let rest = s.drop_first();
        lemma_first_index_eq(rest, v);
        if contains_eq(s, v) {
            let i = choose|i: int| 0 <= i < s.len() && s[i].eq_spec(&v);
            assert(rest[i - 1].eq_spec(&v));
            assert(contains_eq(rest, v));
        }
        if contains_eq(rest, v) {
            let i = choose|i: int| 0 <= i < rest.len() && rest[i].eq_spec(&v);
            assert(s[i + 1].eq_spec(&v));
            assert(contains_eq(s, v));
        }
        if contains_eq(s, v) {
            let f = first_index_eq(s, v);
            assert(s[f] == rest[f - 1]);
            assert forall|j: int| 0 <= j < f implies !(#[trigger] s[j]).eq_spec(&v) by {
                if j > 0 {
                    assert(s[j] == rest[j - 1]);
                }
            }
        }
    }
}

/// One build step in the model: consuming a pair stores its source
/// value when absent, then its target value.
proof fn lemma_built_values_step<T: PartialEq>(pairs: Seq<(T, T)>)
    requires
        pairs.len() > 0,
    ensures
        ({
            let prev = built_values(pairs.drop_last());
            let p = pairs.last();
            let vals1 = if contains_eq(prev, p.0) {
                prev
            } else {
                prev.push(p.0)
            };
            built_values(pairs) == (if contains_eq(vals1, p.1) {
                vals1
            } else {
                vals1.push(p.1)
            })
        }),
{
    let p = pairs.last();
    let e = endpoint_values(pairs);
    let eprev = endpoint_values(pairs.drop_last());
    let e1 = eprev + seq![p.0];
    assert(e == eprev + seq![p.0, p.1]);
    assert(e.len() > 0 && e1.len() > 0);
    assert(e.drop_last() =~= e1);
    assert(e.last() == p.1);
    assert(e1.drop_last() =~= eprev);
    assert(e1.last() == p.0);
    assert(stored_values(e1) == (if contains_eq(stored_values(eprev), p.0) {
        stored_values(eprev)
    } else {
        stored_values(eprev).push(p.0)
    }));
    assert(stored_values(e) == (if contains_eq(stored_values(e1), p.1) {
        stored_values(e1)
    } else {
        stored_values(e1).push(p.1)
    }));
}

/// A node the builder never resolved a source value to keeps no
/// successors: every resolved index lies below the final value count.
proof fn lemma_built_successors_empty<T: PartialEq>(pairs: Seq<(T, T)>, n: int)
    requires
        n >= built_values(pairs).len(),
    ensures
        built_successor_seq(pairs, n) == Seq::<NodeIndex>::empty(),
    decreases pairs.len(),
{
    if pairs.len() > 0 {
        let prev = built_values(pairs.drop_last());
        let p = pairs.last();
        let vals1 = if contains_eq(prev, p.0) {
            prev
        } else {
            prev.push(p.0)
        };
        lemma_built_values_step(pairs);
        if contains_eq(prev, p.0) {
            lemma_first_index_eq(prev, p.0);
        }
        assert(builder_index(prev, p.0) < vals1.len());
        assert(vals1.len() <= built_values(pairs).len());
        lemma_built_successors_empty(pairs.drop_last(), n);
    }
}

impl<T: PartialEq> Graph<T> {
    /// Some node's value equals `value`, in the sense `==` is
    /// specified to have for `T`.
    pub open spec fn has_value(self, value: T) -> bool {
        exists|j: int| 0 <= j < self.node_count() && (#[trigger] self.value_at(j)).eq_spec(&value)
    }

    /// Finds the `NodeIndex` of the first node, by insertion order,
    /// whose value equals `value`; `None` when no node's value does.
    /// The promise holds when `T`'s `==` obeys its specification; for
    /// any `T`, a returned index is a valid index of this graph.
    pub fn find_node(&self, value: &T) -> (r: Option<NodeIndex>)
        ensures
            r matches Some(i) ==> i.0 < self.node_count(),
            T::obeys_eq_spec() ==> match r {
                Some(i) => i.0 < self.node_count() && self.value_at(i.0 as int).eq_spec(value)
                    && forall|j: int|
                    0 <= j < i.0 ==> !(#[trigger] self.value_at(j)).eq_spec(value),
                None => forall|j: int|
                    0 <= j < self.node_count() ==> !(#[trigger] self.value_at(j)).eq_spec(value),
            },
    {
        let mut i: usize = 0;
        while i < self.nodes.len()
            invariant
                i <= self.nodes@.len(),
                T::obeys_eq_spec() ==> forall|j: int|
                    0 <= j < i ==> !(#[trigger] self.value_at(j)).eq_spec(value),
            decreases self.nodes@.len() - i,
        {
            let node = &self.nodes[i];
            if node.value == *value {
                return Some(NodeIndex(i));
            }
            i += 1;
        }
        None
    }

    /// Returns the index of the first node whose value equals `value`,
    /// adding a node holding `value` only when no node's value does.
    /// Repeating the call with an equal value hands back the same
    /// index and leaves the graph exactly as it was.
    pub fn find_or_add_node(&mut self, value: T) -> (index: NodeIndex)
        requires
            old(self).wf(),
        ensures
            final(self).wf(),
            index.0 < final(self).node_count(),
            final(self).edge_count() == old(self).edge_count(),
            old(self).node_count() <= final(self).node_count() <= old(self).node_count() + 1,
            forall|i: int|
                0 <= i < old(self).node_count() ==> final(self).value_at(i) == old(self).value_at(
                    i,
                ),
            forall|i: int|
                0 <= i < old(self).node_count() ==> final(self).successor_seq(i) == old(
                    self,
                ).successor_seq(i),
            T::obeys_eq_spec() ==> (if old(self).has_value(value) {
                *final(self) == *old(self) && final(self).value_at(index.0 as int).eq_spec(&value)
                    && forall|j: int|
                    0 <= j < index.0 ==> !(#[trigger] final(self).value_at(j)).eq_spec(&value)
            } else {
                index.0 == old(self).node_count()
                    && final(self).node_count() == old(self).node_count() + 1
                    && final(self).value_at(index.0 as int) == value
                    && final(self).successor_seq(index.0 as int) == Seq::<NodeIndex>::empty()
            }),
    {
        match self.find_node(&value) {
            Some(i) => i,
            None => self.add_node(value),
        }
    }

    /// Builds a graph from a list of (source value, target value)
    /// pairs, consumed left to right: each endpoint value — source
    /// before target — is resolved to the first node holding an equal
    /// value, with a node added when none does, and one edge is then
    /// added joining the two resolved nodes. When `T`'s `==` obeys
    /// its specification the result is pinned exactly: the node
    /// values are `built_values(pairs)`, one node per value in
    /// first-occurrence order with no two equal, and each node's
    /// successors are `built_successor_seq(pairs, n)` — per pair, the
    /// node its source resolves to gains the node its target resolves
    /// to, most recent pair first.
    pub fn from_edges(pairs: Vec<(T, T)>) -> (g: Graph<T>)
        ensures
            g.wf(),
            g.edge_count() == pairs@.len(),
            g.node_count() <= 2 * pairs@.len(),
            T::obeys_eq_spec() ==> {
                &&& g.node_count() == built_values(pairs@).len()
                &&& (forall|i: int|
                    0 <= i < g.node_count() ==> g.value_at(i) == built_values(pairs@)[i])
                &&& (forall|n: int|
                    0 <= n < g.node_count() ==> g.successor_seq(n) == built_successor_seq(
                        pairs@,
                        n,
                    ))
                &&& (forall|i: int, j: int|
                    0 <= i < j < g.node_count() ==> !(#[trigger] g.value_at(i).eq_spec(
                        &g.value_at(j),
                    )))
            },
    {
        let mut pairs = pairs;
        let ghost orig = pairs@;
        let ghost mut done: Seq<(T, T)> = Seq::empty();
        let mut graph: Graph<T> = Graph::new();
        while pairs.len() > 0
            invariant
                graph.wf(),
                orig == done + pairs@,
                graph.edge_count() == done.len(),
                graph.node_count() <= 2 * done.len(),
                T::obeys_eq_spec() ==> {
                    &&& graph.node_count() == built_values(done).len()
                    &&& (forall|i: int|
                        0 <= i < graph.node_count() ==> graph.value_at(i) == built_values(done)[i])
                    &&& (forall|n: int|
                        0 <= n < graph.node_count() ==> graph.successor_seq(n)
                            == built_successor_seq(done, n))
                    &&& (forall|i: int, j: int|
                        0 <= i < j < graph.node_count() ==> !(#[trigger] graph.value_at(i).eq_spec(
                            &graph.value_at(j),
                        )))
                },
            decreases pairs@.len(),
        {
            let ghost done0 = done;
            let ghost pairs_before = pairs@;
            let (source_value, target_value) = pairs.remove(0);
            let ghost p = (source_value, target_value);
            let ghost vals = built_values(done0);
            let ghost g0 = graph;
            let source = graph.find_or_add_node(source_value);
            let ghost g1 = graph;
            let ghost vals1 = (if contains_eq(vals, p.0) {
                vals
            } else {
                vals.push(p.0)
            });
            proof {
                if T::obeys_eq_spec() {
                    lemma_first_index_eq(vals, p.0);
                    if g0.has_value(p.0) {
                        let j = choose|j: int|
                            0 <= j < g0.node_count() && (#[trigger] g0.value_at(j)).eq_spec(&p.0);
                        assert(vals[j].eq_spec(&p.0));
                        assert(contains_eq(vals, p.0));
                    }
                    if contains_eq(vals, p.0) {
                        let j = choose|j: int|
                            0 <= j < vals.len() && (#[trigger] vals[j]).eq_spec(&p.0);
                        assert(g0.value_at(j).eq_spec(&p.0));
                        assert(g0.has_value(p.0));
                    }
                    if g0.has_value(p.0) {
                        let f = first_index_eq(vals, p.0);
                        assert(g0.value_at(source.0 as int).eq_spec(&p.0));
                        assert(vals[source.0 as int].eq_spec(&p.0));
                        if source.0 < f {
                            assert(!vals[source.0 as int].eq_spec(&p.0));
                        }
                        if f < source.0 {
                            assert(vals[f].eq_spec(&p.0));
                            assert(!g0.value_at(f).eq_spec(&p.0));
                        }
                        assert(source.0 == f);
                    } else {
                        assert(source.0 == vals.len());
                    }
                    assert(source.0 == builder_index(vals, p.0));
                    assert(g1.node_count() == vals1.len());
                    assert(forall|i: int|
                        0 <= i < g1.node_count() ==> g1.value_at(i) == vals1[i]);
                }
            }
            let target = graph.find_or_add_node(target_value);
            let ghost g2 = graph;
            let ghost vals2 = (if contains_eq(vals1, p.1) {
                vals1
            } else {
                vals1.push(p.1)
            });
            proof {
                if T::obeys_eq_spec() {
                    lemma_first_index_eq(vals1, p.1);
                    if g1.has_value(p.1) {
                        let j = choose|j: int|
                            0 <= j < g1.node_count() && (#[trigger] g1.value_at(j)).eq_spec(&p.1);
                        assert(vals1[j].eq_spec(&p.1));
                        assert(contains_eq(vals1, p.1));
                    }
                    if contains_eq(vals1, p.1) {
                        let j = choose|j: int|
                            0 <= j < vals1.len() && (#[trigger] vals1[j]).eq_spec(&p.1);
                        assert(g1.value_at(j).eq_spec(&p.1));
                        assert(g1.has_value(p.1));
                    }
                    if g1.has_value(p.1) {
                        let f = first_index_eq(vals1, p.1);
                        assert(g1.value_at(target.0 as int).eq_spec(&p.1));
                        assert(vals1[target.0 as int].eq_spec(&p.1));
                        if target.0 < f {
                            assert(!vals1[target.0 as int].eq_spec(&p.1));
                        }
                        if f < target.0 {
                            assert(vals1[f].eq_spec(&p.1));
                            assert(!g1.value_at(f).eq_spec(&p.1));
                        }
                        assert(target.0 == f);
                    } else {
                        assert(target.0 == vals1.len());
                    }
                    assert(target.0 == builder_index(vals1, p.1));
                    assert(g2.node_count() == vals2.len());
                    assert(forall|i: int|
                        0 <= i < g2.node_count() ==> g2.value_at(i) == vals2[i]);
                }
            }
            graph.add_edge(source, target);
            proof {
                done = done0.push(p);
                assert(pairs_before =~= seq![p] + pairs@);
                assert(orig =~= done + pairs@);
                if T::obeys_eq_spec() {
                    assert(done.drop_last() =~= done0);
                    assert(done.last() == p);
                    lemma_built_values_step(done);
                    assert(built_values(done) == vals2);
                    assert forall|n: int| 0 <= n < graph.node_count() implies graph.successor_seq(
                        n,
                    ) == built_successor_seq(done, n) by {
                        let rest = built_successor_seq(done0, n);
                        assert(built_successor_seq(done, n) == (if source.0 == n {
                            seq![NodeIndex(builder_index(vals1, p.1) as usize)] + rest
                        } else {
                            rest
                        }));
                        assert(NodeIndex(builder_index(vals1, p.1) as usize) == target);
                        if n >= g0.node_count() {
                            lemma_built_successors_empty(done0, n);
                            assert(g2.successor_seq(n) == Seq::<NodeIndex>::empty());
                        } else {
                            assert(g2.successor_seq(n) == g0.successor_seq(n));
                            assert(g0.successor_seq(n) == rest);
                        }
                        if n == source.0 {
                            assert(graph.successor_seq(n) == seq![target] + g2.successor_seq(n));
                        } else {
                            assert(graph.successor_seq(n) == g2.successor_seq(n));
                        }
                    }
                }
            }
        }
        proof {
            assert(done =~= orig);
        }
        graph
    }
}

/// An enumerator over one node's successors. It pauses between pulls
/// by remembering the edge-list slot it stands on.
pub struct Successors<'g, T> {
    pub(crate) graph: &'g Graph<T>,
    pub(crate) current_edge_index: Option<EdgeIndex>,
}

impl<'g, T> Successors<'g, T> {
    /// The graph being walked.
    pub closed spec fn graph_spec(self) -> Graph<T> {
        *self.graph
    }

    /// The successors not yet produced, in the order they will come.
    pub closed spec fn remaining(self) -> Seq<NodeIndex> {
        edge_chain(self.graph.edges@, self.current_edge_index)
    }

    /// The enumerator stands on an in-range slot of a well-formed
    /// graph that has at least one node (it was made for one).
    pub closed spec fn wf(self) -> bool {
        &&& self.graph.wf()
        &&& self.graph.nodes@.len() >= 1
        &&& match self.current_edge_index {
            None => true,
            Some(j) => j.0 < self.graph.edges@.len(),
        }
    }

    /// Produces the next successor, or `None` once the walk is done.
    pub fn next(&mut self) -> (r: Option<NodeIndex>)
        requires
            old(self).wf(),
        ensures
            final(self).wf(),
            final(self).graph_spec() == old(self).graph_spec(),
            old(self).remaining().len() == 0 ==> r is None && final(self).remaining()
                == old(self).remaining(),
            old(self).remaining().len() > 0 ==> r == Some(old(self).remaining()[0])
                && final(self).remaining() == old(self).remaining().drop_first(),
    {
        match self.current_edge_index {
            None => None,
            Some(edge_index) => {
                let g = self.graph;
                let edge = g.edges[edge_index.0];
                self.current_edge_index = edge.next_outgoing_edge;
                proof {
                    if !next_descends(edge.next_outgoing_edge, edge_index) {
                        assert(edge.next_outgoing_edge is None);
                    }
                    assert(old(self).remaining() == seq![edge.target] + final(self).remaining());
                    assert((seq![edge.target] + final(self).remaining()).drop_first()
                        =~= final(self).remaining());
                }
                Some(edge.target)
            },
        }
    }

    /// Reported bounds on how many successors are still to come: at
    /// least zero, at most one less than the node count. This is a
    /// hint, not a promise: with parallel edges the true number can
    /// exceed it.
    pub fn size_hint(&self) -> (r: (usize, Option<usize>))
        requires
            self.wf(),
        ensures
            r.0 == 0,
            r.1 matches Some(n) && n == self.graph_spec().node_count() - 1,
    {
        (0, Some(self.graph.nodes.len() - 1))
    }

    /// Drains the enumerator into a vector holding every successor
    /// not yet produced, in order.
    pub fn into_vec(self) -> (r: Vec<NodeIndex>)
        requires
            self.wf(),
        ensures
            r@ == self.remaining(),
    {
        let mut it = self;
        let ghost full = it.remaining();
        let mut out: Vec<NodeIndex> = Vec::new();
        while it.current_edge_index.is_some()
            invariant
                it.wf(),
                out@ + it.remaining() == full,
            decreases it.remaining().len(),
        {
            match it.next() {
                None => {
                    proof {
                        assert(false);
                    }
                },
                Some(t) => {
                    out.push(t);
                    proof {
                        assert(out@ + it.remaining() =~= full);
                    }
                },
            }
        }
        proof {
            assert(out@ =~= full);
        }
        out
    }
}

/// Every target on an edge list is in range when every edge of the
/// vector targets an existing node.
proof fn lemma_edge_chain_targets(edges: Seq<Edge>, head: Option<EdgeIndex>, node_count: nat)
    requires
        forall|i: int| 0 <= i < edges.len() ==> (#[trigger] edges[i]).target.0 < node_count,
    ensures
        forall|k: int|
            0 <= k < edge_chain(edges, head).len() ==> (#[trigger] edge_chain(edges, head)[k]).0
                < node_count,
    decreases head_rank(head),
{
    match head {
        None => {},
        Some(ei) => {
            if ei.0 < edges.len() {
                let e = edges[ei.0 as int];
                let chain = edge_chain(edges, head);
                let rest = if next_descends(e.next_outgoing_edge, ei) {
                    edge_chain(edges, e.next_outgoing_edge)
                } else {
                    Seq::<NodeIndex>::empty()
                };
                if next_descends(e.next_outgoing_edge, ei) {
                    lemma_edge_chain_targets(edges, e.next_outgoing_edge, node_count);
                }
                assert(chain == seq![e.target] + rest);
                assert(edges[ei.0 as int].target.0 < node_count);
                assert forall|k: int| 0 <= k < chain.len() implies (#[trigger] chain[k]).0
                    < node_count by {
                    if k == 0 {
                        assert(chain[0] == e.target);
                    } else {
                        assert(chain[k] == rest[k - 1]);
                    }
                }
            }
        },
    }
}

/// Walking an edge list reads only slots below the list's head, so
/// appending edges at the end of the vector leaves the walk unchanged.
proof fn lemma_edge_chain_prefix(edges: Seq<Edge>, bigger: Seq<Edge>, head: Option<EdgeIndex>)
    requires
        edges.len() <= bigger.len(),
        forall|i: int| 0 <= i < edges.len() ==> bigger[i] == #[trigger] edges[i],
        match head {
            None => true,
            Some(j) => j.0 < edges.len(),
        },
    ensures
        edge_chain(bigger, head) == edge_chain(edges, head),
    decreases head_rank(head),
{
    match head {
        None => {},
        Some(ei) => {
            let e = edges[ei.0 as int];
            if next_descends(e.next_outgoing_edge, ei) {
                lemma_edge_chain_prefix(edges, bigger, e.next_outgoing_edge);
            }
        },
    }
}

} // verus!

