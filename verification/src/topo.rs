//! Topological ordering of a computation graph: a depth-first post-order walk
//! over the parent relation that visits every node reachable from a terminal
//! exactly once and lists every node strictly after all of its parents.

use vstd::prelude::*;

use crate::graph::{node_wf, parents_seq, Graph, Node, Parameter, Parents};

verus! {

/// Parents lie strictly below their node, for every node of `g`.  This is the
/// acyclicity core of graph well-formedness, restated over the raw arena so
/// that reachability can recurse over it.
pub open spec fn parents_below(g: Seq<Node>) -> bool {
    forall|i: int, k: int|
        0 <= i < g.len() && 0 <= k < parents_seq(g[i].parents).len() ==> (#[trigger] parents_seq(
            g[i].parents,
        )[k]).id < i
}

/// `to` is reachable from `from` over the parent relation (in zero or more
/// steps).
pub open spec fn reaches(g: Seq<Node>, from: Parameter, to: Parameter) -> bool
    decreases from.id,
        when parents_below(g) && from.id < g.len()
{
    from == to || exists|k: int|
        0 <= k < parents_seq(g[from.id as int].parents).len() && reaches(
            g,
            parents_seq(g[from.id as int].parents)[k],
            to,
        )
}

/// `p` occurs somewhere before position `i` of `order`.
pub open spec fn appears_before(order: Seq<Parameter>, p: Parameter, i: int) -> bool {
    exists|j: int| 0 <= j < i && order[j] == p
}

/// Every node of `order` is preceded by all of its parents.
pub open spec fn parents_first(g: Seq<Node>, order: Seq<Parameter>) -> bool {
    forall|i: int, k: int|
        0 <= i < order.len() && 0 <= k < parents_seq(g[order[i].id as int].parents).len()
            ==> appears_before(order, (#[trigger] parents_seq(g[order[i].id as int].parents)[k]), i)
}

/// No handle occurs twice.
pub open spec fn distinct(order: Seq<Parameter>) -> bool {
    forall|i: int, j: int| 0 <= i < j < order.len() ==> order[i] != order[j]
}

/// `order` is a topological order of everything reachable from `t` in `g`:
/// each reachable node occurs exactly once, nothing else occurs, and every
/// node stands strictly after all of its parents.
pub open spec fn is_topo_order(g: Seq<Node>, t: Parameter, order: Seq<Parameter>) -> bool {
    &&& distinct(order)
    &&& parents_first(g, order)
    &&& forall|j: int| 0 <= j < order.len() ==> (#[trigger] order[j]).id < g.len()
    &&& forall|j: int| 0 <= j < order.len() ==> reaches(g, t, #[trigger] order[j])
    &&& forall|p: Parameter| #[trigger] reaches(g, t, p) ==> order.contains(p)
}

/// Some handle of `order` has identity `id`.
pub open spec fn contains_id(order: Seq<Parameter>, id: int) -> bool {
    exists|j: int| 0 <= j < order.len() && (#[trigger] order[j]).id == id
}

/// `id` is marked in `visited` but not yet listed in `order`: the walk that
/// marked it is still on the call path that will list it.
pub open spec fn pending(order: Seq<Parameter>, visited: Seq<bool>, id: int) -> bool {
    0 <= id < visited.len() && visited[id] && !contains_id(order, id)
}

/// Every pending identity lies strictly above `bound`.
pub open spec fn pending_above(
    order: Seq<Parameter>,
    visited: Seq<bool>,
    bound: int,
) -> bool {
    forall|id: int| #[trigger] pending(order, visited, id) ==> id > bound
}

/// The walk's running state is consistent: the order is duplicate-free, lists
/// parents first, and every listed handle is valid and marked.
pub open spec fn walk_inv(g: Seq<Node>, order: Seq<Parameter>, visited: Seq<bool>) -> bool {
    &&& distinct(order)
    &&& parents_first(g, order)
    &&& forall|j: int|
        0 <= j < order.len() ==> (#[trigger] order[j]).id < g.len() && visited[order[j].id as int]
}

/// A graph's well-formedness bounds every parent below its node.
pub proof fn lemma_wf_parents_below(g: Graph)
    requires
        g.wf(),
    ensures
        parents_below(g@),
{
    assert forall|i: int, k: int|
        0 <= i < g@.len() && 0 <= k < parents_seq(g@[i].parents).len() implies (
    #[trigger] parents_seq(g@[i].parents)[k]).id < i by {
        assert(node_wf(g@[i], i));
    }
}

/// An order that lists parents first is closed under reachability: whatever
/// a listed node reaches is listed too.
pub proof fn lemma_parents_first_closed(
    g: Seq<Node>,
    order: Seq<Parameter>,
    from: Parameter,
    to: Parameter,
)
    requires
        parents_below(g),
        parents_first(g, order),
        from.id < g.len(),
        order.contains(from),
        reaches(g, from, to),
    ensures
        order.contains(to),
    decreases from.id,
{
    if from != to {
        let k = choose|k: int|
            0 <= k < parents_seq(g[from.id as int].parents).len() && reaches(
                g,
                parents_seq(g[from.id as int].parents)[k],
                to,
            );
        let parent = parents_seq(g[from.id as int].parents)[k];
        let i = choose|i: int| 0 <= i < order.len() && order[i] == from;
        assert(appears_before(order, parent, i));
        lemma_parents_first_closed(g, order, parent, to);
    }
}

impl Graph {
    /// Depth-first post-order walk from `n`: mark `n`, walk every parent,
    /// then list `n`.  A handle already marked is already listed (nothing on
    /// the call path lies at or below `n`), so the walk skips it and a node
    /// shared by many consumers is visited exactly once.
    fn visit(&self, n: Parameter, order: &mut Vec<Parameter>, visited: &mut Vec<bool>)
        requires
            self.wf(),
            n.id < self@.len(),
            old(visited)@.len() == self@.len(),
            walk_inv(self@, old(order)@, old(visited)@),
            pending_above(old(order)@, old(visited)@, n.id as int),
        ensures
            final(visited)@.len() == self@.len(),
            old(order)@.is_prefix_of(final(order)@),
            walk_inv(self@, final(order)@, final(visited)@),
            forall|id: int|
                pending(final(order)@, final(visited)@, id) <==> pending(
                    old(order)@,
                    old(visited)@,
                    id,
                ),
            forall|id: int|
                0 <= id < self@.len() && old(visited)@[id] ==> final(visited)@[id],
            final(order)@.contains(n),
            forall|j: int|
                old(order)@.len() <= j < final(order)@.len() ==> reaches(
                    self@,
                    n,
                    #[trigger] final(order)@[j],
                ),
        decreases n.id,
    {
        proof {
            lemma_wf_parents_below(*self);
        }
        if visited[n.id] {
            proof {
                assert(!pending(old(order)@, old(visited)@, n.id as int));
                assert(contains_id(old(order)@, n.id as int));
                let j = choose|j: int|
                    0 <= j < old(order)@.len() && (#[trigger] old(order)@[j]).id == n.id as int;
                assert(old(order)@[j] == n);
                assert(old(order)@.contains(n));
            }
            return ;
        }
        visited[n.id] = true;
        let ghost marked = visited@;
        proof {
            assert(node_wf(self@[n.id as int], n.id as int));
            assert forall|id: int| #[trigger] pending(order@, marked, id) implies id >= n.id
                as int by {
                if id != n.id as int {
                    assert(pending(old(order)@, old(visited)@, id));
                }
            }
        }
        let node = self.node(n);
        match node.parents {
            Parents::Leaf => {},
            Parents::One(a) => {
                proof {
                    assert(parents_seq(node.parents)[0] == a);
                }
                self.visit(a, order, visited);
                proof {
                    assert forall|j: int|
                        old(order)@.len() <= j < order@.len() implies reaches(
                        self@,
                        n,
                        #[trigger] order@[j],
                    ) by {
                        assert(reaches(self@, a, order@[j]));
                        assert(0 <= 0 < parents_seq(self@[n.id as int].parents).len() && reaches(
                            self@,
                            parents_seq(self@[n.id as int].parents)[0],
                            order@[j],
                        ));
                    }
                }
            },
            Parents::Two(a, b) => {
                proof {
                    assert(parents_seq(node.parents)[0] == a);
                    assert(parents_seq(node.parents)[1] == b);
                }
                self.visit(a, order, visited);
                let ghost mid = order@;
                self.visit(b, order, visited);
                proof {
                    assert(mid =~= order@.subrange(0, mid.len() as int));
                    assert forall|j: int|
                        old(order)@.len() <= j < order@.len() implies reaches(
                        self@,
                        n,
                        #[trigger] order@[j],
                    ) by {
                        if j < mid.len() {
                            assert(order@[j] == mid[j]);
                            assert(reaches(self@, a, order@[j]));
                            assert(0 <= 0 < parents_seq(self@[n.id as int].parents).len()
                                && reaches(
                                self@,
                                parents_seq(self@[n.id as int].parents)[0],
                                order@[j],
                            ));
                        } else {
                            assert(reaches(self@, b, order@[j]));
                            assert(0 <= 1 < parents_seq(self@[n.id as int].parents).len()
                                && reaches(
                                self@,
                                parents_seq(self@[n.id as int].parents)[1],
                                order@[j],
                            ));
                        }
                    }
                }
            },
        }
        let ghost walked = order@;
        proof {
            assert(forall|j: int|
                old(order)@.len() <= j < walked.len() ==> reaches(self@, n, #[trigger] walked[j]));
        }
        order.push(n);
        proof {
            // `n` was pending throughout the recursive walks, so it is not
            // yet listed and the extended order stays duplicate-free.
            assert(pending(walked, visited@, n.id as int));
            assert forall|i: int, j: int|
                0 <= i < j < order@.len() implies order@[i] != order@[j] by {
                if j < walked.len() {
                } else {
                    assert(order@[j] == n);
                    if order@[i].id == n.id as int {
                        assert(contains_id(walked, n.id as int));
                    }
                }
            }
            // Every parent of `n` is listed by the recursive walks, so the
            // extended order still lists parents first.
            assert forall|i: int, k: int|
                0 <= i < order@.len() && 0 <= k < parents_seq(
                    self@[order@[i].id as int].parents,
                ).len() implies appears_before(
                order@,
                (#[trigger] parents_seq(self@[order@[i].id as int].parents)[k]),
                i,
            ) by {
                if i < walked.len() {
                    assert(appears_before(walked, parents_seq(
                        self@[order@[i].id as int].parents,
                    )[k], i));
                    let j = choose|j: int|
                        0 <= j < i && walked[j] == parents_seq(
                            self@[order@[i].id as int].parents,
                        )[k];
                    assert(order@[j] == walked[j]);
                } else {
                    let parent = parents_seq(self@[n.id as int].parents)[k];
                    assert(order@.subrange(0, walked.len() as int) =~= walked);
                    assert(walked.contains(parent));
                    let j = choose|j: int|
                        0 <= j < walked.len() && walked[j] == parent;
                    assert(order@[j] == parent);
                }
            }
            // Listing `n` removes exactly `n` from the pending set, which
            // the recursive walks left otherwise untouched.
            assert(order@[walked.len() as int] == n);
            assert(contains_id(order@, n.id as int));
            assert forall|id: int| #[trigger] pending(order@, visited@, id) implies pending(
                old(order)@,
                old(visited)@,
                id,
            ) by {
                assert(id != n.id as int);
                if contains_id(walked, id) {
                    let j = choose|j: int|
                        0 <= j < walked.len() && (#[trigger] walked[j]).id == id;
                    assert(order@[j] == walked[j]);
                    assert(false);
                }
                assert(pending(walked, visited@, id));
                assert(pending(old(order)@, marked, id));
            }
            assert forall|id: int| #[trigger] pending(old(order)@, old(visited)@, id) implies
                pending(order@, visited@, id) by {
                assert(id != n.id as int);
                assert(pending(old(order)@, marked, id));
                assert(pending(walked, visited@, id));
                if contains_id(order@, id) {
                    let j = choose|j: int|
                        0 <= j < order@.len() && (#[trigger] order@[j]).id == id;
                    if j < walked.len() {
                        assert(walked[j] == order@[j]);
                        assert(contains_id(walked, id));
                    } else {
                        assert(order@[j] == n);
                    }
                    assert(false);
                }
            }
            // Every handle the walk listed is reachable from `n`.
            assert forall|j: int|
                old(order)@.len() <= j < order@.len() implies reaches(
                self@,
                n,
                #[trigger] order@[j],
            ) by {
                if j < walked.len() {
                    assert(order@[j] == walked[j]);
                    assert(reaches(self@, n, walked[j]));
                } else {
                    assert(order@[j] == n);
                    assert(reaches(self@, n, n));
                }
            }
        }
    }

    /// The topological order of everything reachable from `t`: a depth-first
    /// post-order over the parent relation.  Every reachable node appears
    /// exactly once, nothing else appears, and every node appears strictly
    /// after all of its parents.
    pub fn build_topo(&self, t: Parameter) -> (order: Vec<Parameter>)
        requires
            self.wf(),
            t.id < self@.len(),
        ensures
            is_topo_order(self@, t, order@),
            order@.contains(t),
    {
        let mut order: Vec<Parameter> = Vec::new();
        let mut visited: Vec<bool> = vec![false; self.node_count()];
        self.visit(t, &mut order, &mut visited);
        proof {
            lemma_wf_parents_below(*self);
            assert forall|p: Parameter| #[trigger] reaches(self@, t, p) implies order@.contains(
                p,
            ) by {
                lemma_parents_first_closed(self@, order@, t, p);
            }
        }
        order
    }
}

} // verus!
