//! Breadth-first traversal: an explicit state machine over a queue
//! holding the current frontier and per-node visited flags. Each step
//! produces one whole frontier — the nodes at one depth from the
//! start — and queues the unvisited successors of its nodes as the
//! next frontier.

use crate::graph::Graph;
use crate::graph::NodeIndex;
use crate::visited::count_trues;
use crate::visited::lemma_count_trues_le_len;
use crate::visited::lemma_count_trues_raise;
use crate::visited::lemma_count_trues_zero;
use vstd::prelude::*;

verus! {

/// Some node of `from` has `t` among its successors in `g`.
pub open spec fn reaches_in_one<T>(g: Graph<T>, from: Seq<NodeIndex>, t: NodeIndex) -> bool {
    exists|k: int|
        0 <= k < from.len() && (#[trigger] g.successor_seq(from[k].0 as int)).contains(t)
}

/// Membership distributes over joining two sequences.
proof fn lemma_contains_add(a: Seq<NodeIndex>, b: Seq<NodeIndex>)
    ensures
        forall|t: NodeIndex| #[trigger] (a + b).contains(t) <==> a.contains(t) || b.contains(t),
{
    assert forall|t: NodeIndex| #[trigger] (a + b).contains(t) <==> a.contains(t) || b.contains(
        t,
    ) by {
        if (a + b).contains(t) {
            let i = choose|i: int| 0 <= i < (a + b).len() && (a + b)[i] == t;
            if i < a.len() {
                assert(a[i] == t);
            } else {
                assert(b[i - a.len()] == t);
            }
        }
        if a.contains(t) {
            let i = choose|i: int| 0 <= i < a.len() && a[i] == t;
            assert((a + b)[i] == t);
        }
        if b.contains(t) {
            let i = choose|i: int| 0 <= i < b.len() && b[i] == t;
            assert((a + b)[a.len() + i] == t);
        }
    }
}

/// Whether `x` occurs in `v`.
fn contains_node(v: &Vec<NodeIndex>, x: NodeIndex) -> (r: bool)
    ensures
        r == v@.contains(x),
{
    let mut i: usize = 0;
    while i < v.len()
        invariant
            i <= v@.len(),
            forall|k: int| 0 <= k < i ==> v@[k] != x,
        decreases v@.len() - i,
    {
        if v[i].0 == x.0 {
            proof {
                assert(v@[i as int] == x);
            }
            return true;
        }
        i += 1;
    }
    proof {
        if v@.contains(x) {
            let k = choose|k: int| 0 <= k < v@.len() && v@[k] == x;
            assert(false);
        }
    }
    false
}

impl<T> Graph<T> {
    /// Creates a breadth-first traversal over the graph, starting
    /// from `source`. Each step produces the set of nodes at one
    /// depth from `source`, nearest depth first. Nodes added to the
    /// graph later are not reflected in its visited flags.
    pub fn bfs(&self, source: NodeIndex) -> (b: Bfs<'_, T>)
        requires
            self.wf(),
            source.0 < self.node_count(),
        ensures
            b.wf(),
            b.graph_spec() == *self,
            !b.done(),
            b.frontier() == seq![source],
            b.emitted_count() == 0,
            b.visited_flags().len() == self.node_count(),
            forall|i: int| 0 <= i < b.visited_flags().len() ==> !b.visited_flags()[i],
    {
        let visited = self.unvisited_flags();
        let mut first: Vec<NodeIndex> = Vec::new();
        first.push(source);
        let mut queue: Vec<Vec<NodeIndex>> = Vec::new();
        proof {
            assert(first@ =~= seq![source]);
        }
        queue.push(first);
        let b = Bfs { graph: self, visited, queue, emitted: Ghost(0nat) };
        proof {
            lemma_count_trues_zero(b.visited@);
        }
        b
    }
}

/// A breadth-first traversal over a graph, paused between steps.
pub struct Bfs<'g, T> {
    pub(crate) graph: &'g Graph<T>,
    pub(crate) visited: Vec<bool>,
    pub(crate) queue: Vec<Vec<NodeIndex>>,
    pub(crate) emitted: Ghost<nat>,
}

impl<'g, T> Bfs<'g, T> {
    /// The graph being traversed.
    pub closed spec fn graph_spec(self) -> Graph<T> {
        *self.graph
    }

    /// The per-node visited flags.
    pub closed spec fn visited_flags(self) -> Seq<bool> {
        self.visited@
    }

    /// Whether node `n` has been produced already.
    pub open spec fn visited_spec(self, n: NodeIndex) -> bool {
        n.0 < self.visited_flags().len() && self.visited_flags()[n.0 as int]
    }

    /// The frontier the next step will produce; empty once the
    /// traversal is done.
    pub closed spec fn frontier(self) -> Seq<NodeIndex> {
        if self.queue@.len() > 0 {
            self.queue@[0]@
        } else {
            Seq::empty()
        }
    }

    /// Whether the traversal is over.
    pub open spec fn done(self) -> bool {
        self.frontier().len() == 0
    }

    /// How many frontiers have been produced so far.
    pub closed spec fn emitted_count(self) -> nat {
        self.emitted@
    }

    /// The traversal's invariant: the graph is well-formed, there is
    /// one flag per node, a queued frontier is a non-empty set of
    /// valid, unvisited nodes, and no more frontiers were produced
    /// than nodes visited.
    pub closed spec fn wf(self) -> bool {
        &&& self.graph.wf()
        &&& self.visited@.len() == self.graph.node_count()
        &&& self.queue@.len() <= 1
        &&& (self.queue@.len() == 1 ==> {
            let f = self.queue@[0]@;
            &&& f.len() > 0
            &&& f.no_duplicates()
            &&& forall|k: int|
                0 <= k < f.len() ==> (#[trigger] f[k]).0 < self.graph.node_count()
                    && !self.visited@[f[k].0 as int]
        })
        &&& self.emitted@ <= count_trues(self.visited@)
    }

    /// Whether `node` has been produced already.
    fn is_visited(&self, node: NodeIndex) -> (r: bool)
        requires
            self.wf(),
            node.0 < self.graph_spec().node_count(),
        ensures
            r == self.visited_spec(node),
    {
        self.visited[node.0]
    }

    /// Marks `node` as visited and returns its successors, in the
    /// store's enumeration order.
    fn visit(&mut self, node: NodeIndex) -> (succ: Vec<NodeIndex>)
        requires
            old(self).wf(),
            old(self).queue@.len() == 0,
            node.0 < old(self).graph_spec().node_count(),
            !old(self).visited_spec(node),
        ensures
            final(self).wf(),
            final(self).graph == old(self).graph,
            final(self).queue == old(self).queue,
            final(self).emitted == old(self).emitted,
            final(self).visited@ == old(self).visited@.update(node.0 as int, true),
            count_trues(final(self).visited@) == count_trues(old(self).visited@) + 1,
            succ@ == old(self).graph_spec().successor_seq(node.0 as int),
            forall|k: int|
                0 <= k < succ@.len() ==> (#[trigger] succ@[k]).0 < old(
                    self,
                ).graph_spec().node_count(),
    {
        proof {
            lemma_count_trues_raise(self.visited@, node.0 as int);
            self.graph.lemma_successors_valid(node.0 as int);
        }
        self.visited[node.0] = true;
        let g = self.graph;
        g.successors(node).into_vec()
    }

    /// Produces the next frontier, or `None` once the traversal is
    /// over: the queued frontier is emitted, each of its nodes is
    /// marked visited, and every successor of one of them that is
    /// still unvisited is queued — without duplicates — as the next
    /// frontier.
    pub fn next(&mut self) -> (r: Option<Vec<NodeIndex>>)
        requires
            old(self).wf(),
        ensures
            final(self).wf(),
            final(self).graph_spec() == old(self).graph_spec(),
            r is Some <==> !old(self).done(),
            r is None ==> *final(self) == *old(self),
            r matches Some(s) ==> ({
                &&& s@ == old(self).frontier()
                &&& s@.len() > 0
                &&& s@.no_duplicates()
                &&& (forall|n: NodeIndex| s@.contains(n) ==> !old(self).visited_spec(n))
                &&& (forall|n: NodeIndex|
                    final(self).visited_spec(n) <==> old(self).visited_spec(n) || s@.contains(n))
                &&& final(self).frontier().no_duplicates()
                &&& final(self).frontier().to_set() == Set::new(
                    |t: NodeIndex|
                        reaches_in_one(old(self).graph_spec(), s@, t)
                            && !final(self).visited_spec(t),
                )
                &&& final(self).emitted_count() == old(self).emitted_count() + 1
            }),
    {
        if self.queue.len() == 0 {
            return None;
        }
        let nodes = self.queue.remove(0);
        let ghost f = nodes@;
        let ghost flags0 = self.visited@;
        let ghost g0 = *self.graph;
        let mut candidates: Vec<NodeIndex> = Vec::new();
        let mut idx: usize = 0;
        while idx < nodes.len()
            invariant
                self.wf(),
                self.graph == old(self).graph,
                g0 == *self.graph,
                self.queue@.len() == 0,
                self.emitted == old(self).emitted,
                nodes@ == f,
                idx <= f.len(),
                f.len() > 0,
                f.no_duplicates(),
                flags0.len() == self.visited@.len(),
                forall|k: int|
                    0 <= k < f.len() ==> (#[trigger] f[k]).0 < g0.node_count()
                        && !flags0[f[k].0 as int],
                count_trues(self.visited@) == count_trues(flags0) + idx,
                forall|j: int|
                    0 <= j < self.visited@.len() ==> ((#[trigger] self.visited@[j]) <==> flags0[j]
                        || (exists|k: int| 0 <= k < idx && (#[trigger] f[k]).0 == j)),
                forall|t: NodeIndex| #[trigger]
                    candidates@.contains(t) <==> (exists|k: int|
                        0 <= k < idx && (#[trigger] g0.successor_seq(f[k].0 as int)).contains(t)),
                forall|t: NodeIndex| #[trigger]
                    candidates@.contains(t) ==> t.0 < g0.node_count(),
            decreases f.len() - idx,
        {
            let node = nodes[idx];
            proof {
                if exists|k: int| 0 <= k < idx && (#[trigger] f[k]).0 == node.0 {
                    let k = choose|k: int| 0 <= k < idx && (#[trigger] f[k]).0 == node.0;
                    assert(f[k] == f[idx as int]);
                    assert(false);
                }
                assert(!self.visited@[node.0 as int]);
            }
            let ghost flags_before = self.visited@;
            let ghost cand_before = candidates@;
            let mut succ = self.visit(node);
            let ghost sseq = succ@;
            candidates.append(&mut succ);
            proof {
                lemma_contains_add(cand_before, sseq);
                assert forall|j: int| 0 <= j < self.visited@.len() implies ((
                #[trigger] self.visited@[j]) <==> flags0[j] || (exists|k: int|
                    0 <= k < idx + 1 && (#[trigger] f[k]).0 == j)) by {
                    if j == node.0 {
                        assert(f[idx as int].0 == j);
                    } else {
                        assert(self.visited@[j] == flags_before[j]);
                        if exists|k: int| 0 <= k < idx + 1 && (#[trigger] f[k]).0 == j {
                            let k = choose|k: int| 0 <= k < idx + 1 && (#[trigger] f[k]).0 == j;
                            assert(k < idx);
                        }
                    }
                }
                assert forall|t: NodeIndex| #[trigger]
                    candidates@.contains(t) <==> (exists|k: int|
                        0 <= k < idx + 1 && (#[trigger] g0.successor_seq(f[k].0 as int)).contains(
                            t,
                        )) by {
                    if candidates@.contains(t) {
                        if cand_before.contains(t) {
                            let k = choose|k: int|
                                0 <= k < idx && (#[trigger] g0.successor_seq(
                                    f[k].0 as int,
                                )).contains(t);
                            assert(0 <= k < idx + 1 && g0.successor_seq(f[k].0 as int).contains(
                                t,
                            ));
                        } else {
                            assert(sseq.contains(t));
                            assert(g0.successor_seq(f[idx as int].0 as int).contains(t));
                        }
                    }
                    if exists|k: int|
                        0 <= k < idx + 1 && (#[trigger] g0.successor_seq(f[k].0 as int)).contains(
                            t,
                        ) {
                        let k = choose|k: int|
                            0 <= k < idx + 1 && (#[trigger] g0.successor_seq(
                                f[k].0 as int,
                            )).contains(t);
                        if k < idx {
                            assert(cand_before.contains(t));
                        } else {
                            assert(sseq.contains(t));
                        }
                        assert(candidates@.contains(t));
                    }
                }
                assert forall|t: NodeIndex| #[trigger] candidates@.contains(t) implies t.0
                    < g0.node_count() by {
                    if sseq.contains(t) {
                        let i = choose|i: int| 0 <= i < sseq.len() && sseq[i] == t;
                        assert(sseq[i].0 < g0.node_count());
                    }
                }
            }
            idx += 1;
        }
        let ghost flags1 = self.visited@;
        let mut next_frontier: Vec<NodeIndex> = Vec::new();
        let mut j: usize = 0;
        while j < candidates.len()
            invariant
                self.wf(),
                self.graph == old(self).graph,
                g0 == *self.graph,
                self.queue@.len() == 0,
                self.emitted == old(self).emitted,
                self.visited@ == flags1,
                flags1.len() == g0.node_count(),
                j <= candidates@.len(),
                forall|t: NodeIndex| #[trigger]
                    candidates@.contains(t) ==> t.0 < g0.node_count(),
                forall|t: NodeIndex| #[trigger]
                    candidates@.contains(t) <==> (exists|k: int|
                        0 <= k < f.len() && (#[trigger] g0.successor_seq(f[k].0 as int)).contains(
                            t,
                        )),
                next_frontier@.no_duplicates(),
                forall|k: int|
                    0 <= k < next_frontier@.len() ==> (#[trigger] next_frontier@[k]).0
                        < g0.node_count() && !flags1[next_frontier@[k].0 as int],
                forall|t: NodeIndex| #[trigger]
                    next_frontier@.contains(t) <==> (candidates@.take(j as int).contains(t) && !(
                    t.0 < flags1.len() && flags1[t.0 as int])),
            decreases candidates@.len() - j,
        {
            let t = candidates[j];
            let ghost nf_before = next_frontier@;
            proof {
                assert(candidates@.contains(t));
            }
            if !self.is_visited(t) && !contains_node(&next_frontier, t) {
                next_frontier.push(t);
            }
            proof {
                assert(candidates@.take(j + 1 as int) =~= candidates@.take(j as int) + seq![t]);
                lemma_contains_add(candidates@.take(j as int), seq![t]);
                assert forall|x: NodeIndex| #[trigger] seq![t].contains(x) implies x == t by {
                    let i = choose|i: int| 0 <= i < seq![t].len() && seq![t][i] == x;
                }
                assert(seq![t].contains(t)) by {
                    assert(seq![t][0] == t);
                }
                assert forall|x: NodeIndex| #[trigger]
                    next_frontier@.contains(x) <==> (candidates@.take(j + 1 as int).contains(x)
                        && !(x.0 < flags1.len() && flags1[x.0 as int])) by {
                    if next_frontier@ == nf_before.push(t) {
                        lemma_contains_add(nf_before, seq![t]);
                        assert(next_frontier@ =~= nf_before + seq![t]);
                    }
                }
            }
            j += 1;
        }
        proof {
            assert(candidates@.take(candidates@.len() as int) =~= candidates@);
        }
        let ghost nf = next_frontier@;
        if next_frontier.len() > 0 {
            self.queue.push(next_frontier);
            proof {
                assert(self.frontier() == nf);
            }
        } else {
            proof {
                assert(self.frontier() =~= nf);
            }
        }
        self.emitted = Ghost(self.emitted@ + 1);
        proof {
            assert forall|n: NodeIndex|
                final(self).visited_spec(n) <==> (old(self).visited_spec(n) || f.contains(
                    n,
                )) by {
                if n.0 < flags1.len() {
                    if f.contains(n) {
                        let k = choose|k: int| 0 <= k < f.len() && f[k] == n;
                        assert(f[k].0 == n.0);
                    }
                    if exists|k: int| 0 <= k < f.len() && (#[trigger] f[k]).0 == n.0 {
                        let k = choose|k: int| 0 <= k < f.len() && (#[trigger] f[k]).0 == n.0;
                        assert(f[k] == n);
                        assert(f.contains(n));
                    }
                } else {
                    if f.contains(n) {
                        let k = choose|k: int| 0 <= k < f.len() && f[k] == n;
                        assert(f[k].0 < g0.node_count());
                        assert(false);
                    }
                }
            }
            assert forall|n: NodeIndex| f.contains(n) implies !(n.0 < flags0.len()
                && flags0[n.0 as int]) by {
                let k = choose|k: int| 0 <= k < f.len() && f[k] == n;
                assert(f[k].0 < g0.node_count() && !flags0[f[k].0 as int]);
            }
            assert(final(self).frontier().to_set() =~= Set::new(
                |t: NodeIndex|
                    reaches_in_one(old(self).graph_spec(), f, t) && !final(self).visited_spec(t),
            )) by {
                assert forall|t: NodeIndex|
                    final(self).frontier().contains(t) <==> (reaches_in_one(
                        old(self).graph_spec(),
                        f,
                        t,
                    ) && !final(self).visited_spec(t)) by {
                    assert(final(self).frontier() == nf);
                    assert(final(self).visited_flags() == flags1);
                    if nf.contains(t) {
                        assert(candidates@.contains(t));
                    }
                    if reaches_in_one(old(self).graph_spec(), f, t) {
                        assert(candidates@.contains(t));
                        if !final(self).visited_spec(t) {
                            assert(nf.contains(t));
                        }
                    }
                }
            }
        }
        Some(nodes)
    }

    /// Reported bounds on how many frontiers a traversal can still
    /// produce: at least zero, at most the graph's node count.
    pub fn size_hint(&self) -> (r: (usize, Option<usize>))
        ensures
            r.0 == 0,
            r.1 matches Some(n) && n == self.graph_spec().node_count(),
    {
        (0, Some(self.graph.nodes().len()))
    }

    /// Over the whole life of a traversal, no more frontiers are
    /// produced than the graph has nodes — each frontier is non-empty
    /// and disjoint from all earlier ones — so the upper bound that
    /// `size_hint` reports is never exceeded.
    pub proof fn lemma_size_hint_bound(self)
        requires
            self.wf(),
        ensures
            self.emitted_count() <= self.graph_spec().node_count(),
    {
        lemma_count_trues_le_len(self.visited@);
    }
}

} // verus!
