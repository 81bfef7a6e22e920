//! The spanning-tree bookkeeping of the solver: per-node depth, parent,
//! residual arc back to the parent, and the dual potential ("tree cost").

use vstd::prelude::*;

verus! {

/// Solver-side state of one node, valid between pivots.
#[derive(Clone, Copy)]
pub struct TreeNode {
    /// Distance from the tree root (the root itself has depth 1).
    pub dep: usize,
    /// Parent node, `None` at the root.
    pub parent: Option<usize>,
    /// The residual arc directed from this node back to its parent.
    pub arc_to_parent: Option<usize>,
}

/// Depth, parent and potential for every node of the network.
pub struct Tree {
    /// Dual potential of each node.
    pub costs: Vec<i64>,
    /// Depth, parent and parent arc of each node.
    pub nodes: Vec<TreeNode>,
}

/// Parent chains are consistent: the root sits at depth 1 and every other
/// node is one level below its parent and knows the arc leading up to it.
/// Under this invariant, walking parents strictly decreases the depth.
pub open spec fn tree_linked(t: Tree) -> bool {
    let n = t.nodes@.len() as int;
    &&& t.costs@.len() == n
    &&& n >= 1
    &&& t.nodes@[0].dep == 1
    &&& t.nodes@[0].parent is None
    &&& forall|v: int| 0 <= v < n ==> 1 <= (#[trigger] t.nodes@[v]).dep
    &&& forall|v: int| 1 <= v < n ==> node_chained(t, v)
}

/// The per-node part of `tree_linked` for a non-root node.
pub open spec fn node_chained(t: Tree, v: int) -> bool {
    let nd = t.nodes@[v];
    &&& nd.parent is Some
    &&& (nd.parent->Some_0 as int) < t.nodes@.len()
    &&& nd.dep == t.nodes@[nd.parent->Some_0 as int].dep + 1
    &&& nd.arc_to_parent is Some
}

/// The paired arc: consecutive even/odd positions hold a forward arc and its
/// residual twin, so the twin of an arc is found by toggling the lowest bit.
pub open spec fn pair_idx(i: int) -> int {
    if i % 2 == 0 {
        i + 1
    } else {
        i - 1
    }
}

/// The pair of an arc index, as a machine word.
pub open spec fn pair_of(a: usize) -> usize {
    if a % 2 == 0 {
        (a + 1) as usize
    } else {
        (a - 1) as usize
    }
}

/// The arcs of the unique tree path between two nodes, in the order the walk
/// visits them: while one side is deeper it ascends alone, then both sides
/// ascend together until they meet.  An arc walked down the tree (on the
/// `e` side) is flipped to its pair.
pub open spec fn tree_path(t: Tree, s: int, e: int) -> Seq<usize>
    decreases t.nodes@[s].dep + t.nodes@[e].dep,
        when tree_linked(t) && 0 <= s < t.nodes@.len() && 0 <= e < t.nodes@.len()
        via tree_path_decreases
{
    if s == e {
        Seq::empty()
    } else if t.nodes@[s].dep > t.nodes@[e].dep {
        seq![t.nodes@[s].arc_to_parent->Some_0].add(
            tree_path(t, t.nodes@[s].parent->Some_0 as int, e),
        )
    } else if t.nodes@[s].dep < t.nodes@[e].dep {
        seq![pair_of(t.nodes@[e].arc_to_parent->Some_0)].add(
            tree_path(t, s, t.nodes@[e].parent->Some_0 as int),
        )
    } else {
        seq![
            t.nodes@[s].arc_to_parent->Some_0,
            pair_of(t.nodes@[e].arc_to_parent->Some_0),
        ].add(tree_path(t, t.nodes@[s].parent->Some_0 as int, t.nodes@[e].parent->Some_0 as int))
    }
}

#[via_fn]
proof fn tree_path_decreases(t: Tree, s: int, e: int) {
    if s != e {
        if t.nodes@[s].dep > t.nodes@[e].dep {
            assert(t.nodes@[s].dep >= 2);
            assert(s != 0);
            assert(node_chained(t, s));
        } else if t.nodes@[s].dep < t.nodes@[e].dep {
            assert(t.nodes@[e].dep >= 2);
            assert(e != 0);
            assert(node_chained(t, e));
        } else {
            if s == 0 || e == 0 {
                if s != 0 {
                    assert(node_chained(t, s));
                }
                if e != 0 {
                    assert(node_chained(t, e));
                }
                assert(false);
            }
            assert(node_chained(t, s));
            assert(node_chained(t, e));
        }
    }
}

/// What `traverse` may emit: the parent arc of some non-root node, either as
/// stored (walking up) or flipped to its pair (walking down).
pub open spec fn emitted_arc(t: Tree, e: usize) -> bool {
    exists|v: int|
        1 <= v < t.nodes@.len() && (#[trigger] t.nodes@[v]).arc_to_parent is Some && {
            let a = t.nodes@[v].arc_to_parent->Some_0;
            e == a || e as int == pair_idx(a as int)
        }
}

impl Tree {
    /// A tree over `size` nodes with all state zeroed.
    pub fn new(size: usize) -> (r: Self)
        ensures
            r.nodes@.len() == size,
            r.costs@.len() == size,
            forall|v: int|
                0 <= v < size ==> (#[trigger] r.nodes@[v]).dep == 0 && r.nodes@[v].parent is None
                    && r.nodes@[v].arc_to_parent is None,
            forall|v: int| 0 <= v < size ==> r.costs@[v] == 0,
    {
        let mut costs: Vec<i64> = Vec::new();
        let mut nodes: Vec<TreeNode> = Vec::new();
        while costs.len() < size
            invariant
                costs@.len() == nodes@.len(),
                costs@.len() <= size,
                forall|v: int|
                    0 <= v < nodes@.len() ==> (#[trigger] nodes@[v]).dep == 0 && nodes@[v].parent
                        is None && nodes@[v].arc_to_parent is None,
                forall|v: int| 0 <= v < costs@.len() ==> costs@[v] == 0,
            decreases size - costs@.len(),
        {
            costs.push(0);
            nodes.push(TreeNode { dep: 0, parent: None, arc_to_parent: None });
        }
        Tree { costs, nodes }
    }

    /// Resets the root's state before a fresh walk over the tree arcs.
    pub fn clear(&mut self)
        requires
            old(self).nodes@.len() >= 1,
            old(self).costs@.len() >= 1,
        ensures
            final(self).nodes@ == old(self).nodes@.update(
                0,
                TreeNode { dep: 1, parent: None, arc_to_parent: None },
            ),
            final(self).costs@ == old(self).costs@.update(0, 0i64),
    {
        self.costs[0] = 0;
        self.nodes[0] = TreeNode { dep: 1, parent: None, arc_to_parent: None };
    }

    /// Lists the arcs of the unique tree path between `start` and `end`:
    /// both endpoints ascend toward their common ancestor, and an arc walked
    /// down (away from the root) is flipped to its pair so that every emitted
    /// arc points along the path from `start` to `end`.
    pub fn traverse(&self, start: usize, end: usize) -> (r: Vec<usize>)
        requires
            tree_linked(*self),
            start < self.nodes@.len(),
            end < self.nodes@.len(),
        ensures
            r@ == tree_path(*self, start as int, end as int),
            forall|j: int| 0 <= j < r@.len() ==> emitted_arc(*self, #[trigger] r@[j]),
    {
        let ghost s0 = start as int;
        let ghost e0 = end as int;
        let mut r: Vec<usize> = Vec::new();
        let mut s = start;
        let mut e = end;
        proof {
            assert(tree_path(*self, s0, e0) =~= r@ + tree_path(*self, s as int, e as int));
        }
        while self.nodes[s].dep > self.nodes[e].dep
            invariant
                tree_linked(*self),
                s < self.nodes@.len(),
                e < self.nodes@.len(),
                tree_path(*self, s0, e0) == r@ + tree_path(*self, s as int, e as int),
                forall|j: int| 0 <= j < r@.len() ==> emitted_arc(*self, #[trigger] r@[j]),
            decreases self.nodes@[s as int].dep,
        {
            let nd = self.nodes[s];
            proof {
                assert(nd.dep >= 2);
                assert(s != 0);
                assert(node_chained(*self, s as int));
            }
            let ghost r_before = r@;
            let ghost s_before = s as int;
            r.push(nd.arc_to_parent.unwrap());
            proof {
                assert(emitted_arc(*self, self.nodes@[s as int].arc_to_parent->Some_0));
            }
            s = nd.parent.unwrap();
            proof {
                assert(tree_path(*self, s_before, e as int) == seq![
                    self.nodes@[s_before].arc_to_parent->Some_0,
                ].add(tree_path(*self, s as int, e as int)));
                assert(r_before + tree_path(*self, s_before, e as int) =~= r@ + tree_path(
                    *self,
                    s as int,
                    e as int,
                ));
            }
        }
        while self.nodes[s].dep < self.nodes[e].dep
            invariant
                tree_linked(*self),
                s < self.nodes@.len(),
                e < self.nodes@.len(),
                self.nodes@[s as int].dep <= self.nodes@[e as int].dep,
                tree_path(*self, s0, e0) == r@ + tree_path(*self, s as int, e as int),
                forall|j: int| 0 <= j < r@.len() ==> emitted_arc(*self, #[trigger] r@[j]),
            decreases self.nodes@[e as int].dep,
        {
            let nd = self.nodes[e];
            proof {
                assert(nd.dep >= 2);
                assert(e != 0);
                assert(node_chained(*self, e as int));
            }
            let a = nd.arc_to_parent.unwrap();
            let flipped: usize = if a % 2 == 0 {
                a + 1
            } else {
                a - 1
            };
            proof {
                assert(flipped == pair_of(a));
                assert(flipped as int == pair_idx(a as int));
                assert(emitted_arc(*self, flipped));
            }
            let ghost r_before = r@;
            let ghost e_before = e as int;
            r.push(flipped);
            e = nd.parent.unwrap();
            proof {
                assert(tree_path(*self, s as int, e_before) == seq![
                    pair_of(self.nodes@[e_before].arc_to_parent->Some_0),
                ].add(tree_path(*self, s as int, e as int)));
                assert(r_before + tree_path(*self, s as int, e_before) =~= r@ + tree_path(
                    *self,
                    s as int,
                    e as int,
                ));
            }
        }
        while s != e
            invariant
                tree_linked(*self),
                s < self.nodes@.len(),
                e < self.nodes@.len(),
                self.nodes@[s as int].dep == self.nodes@[e as int].dep,
                tree_path(*self, s0, e0) == r@ + tree_path(*self, s as int, e as int),
                forall|j: int| 0 <= j < r@.len() ==> emitted_arc(*self, #[trigger] r@[j]),
            decreases self.nodes@[s as int].dep,
        {
            proof {
                if s == 0 || e == 0 {
                    assert(self.nodes@[s as int].dep == 1 && self.nodes@[e as int].dep == 1);
                    if s != 0 {
                        assert(node_chained(*self, s as int));
                        assert(false);
                    }
                    if e != 0 {
                        assert(node_chained(*self, e as int));
                        assert(false);
                    }
                }
                assert(node_chained(*self, s as int));
                assert(node_chained(*self, e as int));
            }
            let nds = self.nodes[s];
            let nde = self.nodes[e];
            let ghost r_before = r@;
            let ghost s_before = s as int;
            let ghost e_before = e as int;
            r.push(nds.arc_to_parent.unwrap());
            proof {
                assert(emitted_arc(*self, self.nodes@[s_before].arc_to_parent->Some_0));
            }
            let a = nde.arc_to_parent.unwrap();
            let flipped: usize = if a % 2 == 0 {
                a + 1
            } else {
                a - 1
            };
            proof {
                assert(flipped == pair_of(a));
                assert(flipped as int == pair_idx(a as int));
                assert(emitted_arc(*self, flipped));
            }
            r.push(flipped);
            s = nds.parent.unwrap();
            e = nde.parent.unwrap();
            proof {
                assert(tree_path(*self, s_before, e_before) == seq![
                    self.nodes@[s_before].arc_to_parent->Some_0,
                    pair_of(self.nodes@[e_before].arc_to_parent->Some_0),
                ].add(tree_path(*self, s as int, e as int)));
                assert(r_before + tree_path(*self, s_before, e_before) =~= r@ + tree_path(
                    *self,
                    s as int,
                    e as int,
                ));
            }
        }
        proof {
            assert(tree_path(*self, s as int, e as int) =~= Seq::<usize>::empty());
            assert(r@ + tree_path(*self, s as int, e as int) =~= r@);
        }
        r
    }
}

} // verus!
