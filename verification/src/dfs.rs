//! Depth-first traversal: an explicit state machine over a stack of
//! pending node indices and per-node visited flags, producing one
//! node per step in depth-first pre-order.

use crate::graph::Graph;
use crate::graph::NodeIndex;
use crate::visited::count_trues;
use crate::visited::lemma_count_trues_le_len;
use crate::visited::lemma_count_trues_raise;
use crate::visited::lemma_count_trues_zero;
use vstd::prelude::*;

verus! {

/// The flag of node `n` in `flags`; lowered when `n` is out of range.
pub open spec fn flag_raised(flags: Seq<bool>, n: NodeIndex) -> bool {
    n.0 < flags.len() && flags[n.0 as int]
}

/// Position of the entry nearest the top of `stack` (its end) whose
/// flag is still lowered; -1 when every entry's flag is raised. This
/// is the entry a depth-first step produces, after silently dropping
/// the already-visited entries above it.
pub open spec fn last_unvisited(stack: Seq<NodeIndex>, flags: Seq<bool>) -> int
    decreases stack.len(),
{
    if stack.len() == 0 {
        -1
    } else if !flag_raised(flags, stack.last()) {
        stack.len() - 1
    } else {
        last_unvisited(stack.drop_last(), flags)
    }
}

impl<T> Graph<T> {
    /// Creates a depth-first traversal over the graph, starting from
    /// `source`. Nodes added to the graph later are not reflected in
    /// its visited flags.
    pub fn dfs(&self, source: NodeIndex) -> (d: Dfs<'_, T>)
        requires
            self.wf(),
            source.0 < self.node_count(),
        ensures
            d.wf(),
            d.graph_spec() == *self,
            d.pending() == seq![source],
            d.emitted_count() == 0,
            d.visited_flags().len() == self.node_count(),
            forall|i: int| 0 <= i < d.visited_flags().len() ==> !d.visited_flags()[i],
    {
        let visited = self.unvisited_flags();
        let mut stack: Vec<NodeIndex> = Vec::new();
        stack.push(source);
        let d = Dfs { graph: self, visited, stack, emitted: Ghost(0nat) };
        proof {
            lemma_count_trues_zero(d.visited@);
            assert(d.stack@ =~= seq![source]);
        }
        d
    }
}

/// A depth-first traversal over a graph, paused between steps.
pub struct Dfs<'g, T> {
    pub(crate) graph: &'g Graph<T>,
    pub(crate) visited: Vec<bool>,
    pub(crate) stack: Vec<NodeIndex>,
    pub(crate) emitted: Ghost<nat>,
}

impl<'g, T> Dfs<'g, T> {
    /// The graph being traversed.
    pub closed spec fn graph_spec(self) -> Graph<T> {
        *self.graph
    }

    /// The per-node visited flags.
    pub closed spec fn visited_flags(self) -> Seq<bool> {
        self.visited@
    }

    /// Whether node `n` has been produced already.
    pub open spec fn visited_spec(self, n: NodeIndex) -> bool {
        flag_raised(self.visited_flags(), n)
    }

    /// The stack of pending node indices, top at the end.
    pub closed spec fn pending(self) -> Seq<NodeIndex> {
        self.stack@
    }

    /// How many nodes have been produced so far.
    pub closed spec fn emitted_count(self) -> nat {
        self.emitted@
    }

    /// The traversal's invariant: the graph is well-formed, there is
    /// one flag per node, every pending index is in range, and the
    /// number of produced nodes equals the number of raised flags.
    pub closed spec fn wf(self) -> bool {
        &&& self.graph.wf()
        &&& self.visited@.len() == self.graph.node_count()
        &&& (forall|k: int|
            0 <= k < self.stack@.len() ==> (#[trigger] self.stack@[k]).0
                < self.graph.node_count())
        &&& self.emitted@ == count_trues(self.visited@)
    }

    /// Whether `node` has been produced already.
    fn is_visited(&self, node: NodeIndex) -> (r: bool)
        requires
            self.wf(),
            node.0 < self.graph_spec().node_count(),
        ensures
            r == self.visited_spec(node),
    {
        self.visited[node.0]
    }

    /// Marks `node` as visited and pushes all of its successors onto
    /// the stack, in the store's enumeration order.
    fn visit(&mut self, node: NodeIndex)
        requires
            old(self).wf(),
            node.0 < old(self).graph_spec().node_count(),
            !old(self).visited_spec(node),
        ensures
            final(self).wf(),
            final(self).graph_spec() == old(self).graph_spec(),
            final(self).visited_flags() == old(self).visited_flags().update(node.0 as int, true),
            final(self).pending() == old(self).pending() + old(self).graph_spec().successor_seq(
                node.0 as int,
            ),
            final(self).emitted_count() == old(self).emitted_count() + 1,
    {
        proof {
            lemma_count_trues_raise(self.visited@, node.0 as int);
        }
        self.visited[node.0] = true;
        let g = self.graph;
        let mut succ = g.successors(node).into_vec();
        self.stack.append(&mut succ);
        self.emitted = Ghost(self.emitted@ + 1);
        proof {
            self.graph.lemma_successors_valid(node.0 as int);
        }
    }

    /// Produces the next node in depth-first pre-order, or `None`
    /// once every pending node has been seen: entries whose node is
    /// already visited are discarded from the top of the stack; the
    /// first unvisited one is marked, its successors are pushed, and
    /// it is produced.
    pub fn next(&mut self) -> (r: Option<NodeIndex>)
        requires
            old(self).wf(),
        ensures
            final(self).wf(),
            final(self).graph_spec() == old(self).graph_spec(),
            r is None ==> last_unvisited(old(self).pending(), old(self).visited_flags()) == -1
                && final(self).pending() == Seq::<NodeIndex>::empty()
                && final(self).visited_flags() == old(self).visited_flags()
                && final(self).emitted_count() == old(self).emitted_count(),
            r matches Some(n) ==> ({
                let k = last_unvisited(old(self).pending(), old(self).visited_flags());
                &&& k >= 0
                &&& n == old(self).pending()[k]
                &&& !old(self).visited_spec(n)
                &&& final(self).visited_flags() == old(self).visited_flags().update(
                    n.0 as int,
                    true,
                )
                &&& final(self).pending() == old(self).pending().take(k) + old(
                    self,
                ).graph_spec().successor_seq(n.0 as int)
                &&& final(self).emitted_count() == old(self).emitted_count() + 1
            }),
    {
        loop
            invariant
                self.wf(),
                self.graph_spec() == old(self).graph_spec(),
                self.visited@ == old(self).visited@,
                self.emitted@ == old(self).emitted@,
                self.stack@.len() <= old(self).stack@.len(),
                self.stack@ == old(self).stack@.take(self.stack@.len() as int),
                last_unvisited(self.stack@, self.visited@) == last_unvisited(
                    old(self).stack@,
                    old(self).visited@,
                ),
            decreases self.stack@.len(),
        {
            let ghost prev = self.stack@;
            match self.stack.pop() {
                None => {
                    return None;
                },
                Some(node) => {
                    proof {
                        assert(prev.len() > 0);
                        assert(node == prev.last());
                        assert(self.stack@ =~= prev.drop_last());
                        assert(prev =~= old(self).stack@.take(prev.len() as int));
                        assert(self.stack@ =~= old(self).stack@.take(
                            self.stack@.len() as int,
                        ));
                    }
                    if self.is_visited(node) {
                        proof {
                            assert(last_unvisited(prev, self.visited@) == last_unvisited(
                                prev.drop_last(),
                                self.visited@,
                            ));
                        }
                    } else {
                        proof {
                            assert(last_unvisited(prev, self.visited@) == prev.len() - 1);
                            assert(old(self).stack@.take(prev.len() as int)[prev.len() - 1]
                                == old(self).stack@[prev.len() - 1]);
                        }
                        self.visit(node);
                        return Some(node);
                    }
                },
            }
        }
    }

    /// Reported bounds on how many nodes a traversal can still
    /// produce: at least zero, at most the graph's node count.
    pub fn size_hint(&self) -> (r: (usize, Option<usize>))
        ensures
            r.0 == 0,
            r.1 matches Some(n) && n == self.graph_spec().node_count(),
    {
        (0, Some(self.graph.nodes().len()))
    }

    /// Over the whole life of a traversal, no more nodes are produced
    /// than the graph holds, so the upper bound that `size_hint`
    /// reports is never exceeded.
    pub proof fn lemma_size_hint_bound(self)
        requires
            self.wf(),
        ensures
            self.emitted_count() <= self.graph_spec().node_count(),
    {
        lemma_count_trues_le_len(self.visited@);
    }
}

} // verus!

