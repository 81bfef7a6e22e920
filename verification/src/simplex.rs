//! The network itself and the simplex solver: paired forward/residual arcs,
//! greedy selection of an initial spanning tree, potential refresh by a walk
//! over the tree arcs, entering-arc selection by most negative reduced cost,
//! and cycle augmentation.

use vstd::prelude::*;

use crate::tree::{
    emitted_arc, node_chained, pair_idx, pair_of, tree_linked, tree_path, Tree, TreeNode,
};
use crate::union_find::{
    labels_wf, lemma_all_zero_root_count, lemma_identity_root_count, lemma_merged_root_count,
    lemma_merged_wf, max_root, merged_labels, root_count, root_of, uf_wf, UnionFindSet,
    UnionResult,
};

verus! {

/// A directed arc with its remaining capacity and per-unit cost.  Arcs are
/// stored in complementary pairs: position `i` and `pair_idx(i)` always hold
/// an arc and its reversed, cost-negated residual twin.
#[derive(Clone, Copy, Debug)]
pub struct Arc {
    pub start: usize,
    pub end: usize,
    pub capacity: u32,
    pub cost_per_unit: i32,
    pub on_tree: bool,
}

impl Arc {
    pub fn new(start: usize, end: usize, capacity: u32, cost_per_unit: i32) -> (r: Arc)
        ensures
            r.start == start,
            r.end == end,
            r.capacity == capacity,
            r.cost_per_unit == cost_per_unit,
            !r.on_tree,
    {
        Arc { start, end, capacity, cost_per_unit, on_tree: false }
    }

    /// The residual twin: reversed direction, no capacity yet, negated cost.
    pub fn as_reverse(&self) -> (r: Arc)
        requires
            self.cost_per_unit > i32::MIN,
        ensures
            r.start == self.end,
            r.end == self.start,
            r.capacity == 0,
            r.cost_per_unit as int == -(self.cost_per_unit as int),
            r.on_tree == self.on_tree,
    {
        Arc {
            start: self.end,
            end: self.start,
            capacity: 0,
            cost_per_unit: -self.cost_per_unit,
            on_tree: self.on_tree,
        }
    }
}

/// Failures the network reports.
#[derive(Clone, Copy, Debug, PartialEq, Eq, Structural)]
pub enum FlowError {
    /// The arcs handed to the constructor do not join all the nodes.
    DisconnectedNetwork,
    /// An arc endpoint lies outside `0..node_count`.
    InvalidArcEndpoint,
    /// Accumulated cost left the representable range.
    NumericOverflow,
    /// The pivot cap was reached before the flow became optimal.
    DidNotConverge,
    /// A structural invariant did not hold during a pivot or while reading
    /// an assignment back; the state stays safe to read but the computation
    /// cannot continue.
    InternalInconsistency,
}

/// Number of forward/residual pairs in an arc store (two slots are unused).
pub open spec fn npairs(arcs: Seq<Arc>) -> int {
    (arcs.len() - 2) / 2
}

/// The two members of a pair mirror each other in endpoints and cost and
/// share the tree mark.
pub open spec fn pair_mirrored(arcs: Seq<Arc>, i: int) -> bool {
    let j = pair_idx(i);
    &&& arcs[i].start == arcs[j].end
    &&& arcs[i].end == arcs[j].start
    &&& arcs[i].cost_per_unit + arcs[j].cost_per_unit == 0
    &&& arcs[i].on_tree == arcs[j].on_tree
}

/// Structural well-formedness of the arc store.
pub open spec fn arcs_wf(arcs: Seq<Arc>, n: int) -> bool {
    &&& arcs.len() >= 2
    &&& arcs.len() % 2 == 0
    &&& forall|i: int|
        2 <= i < arcs.len() ==> (#[trigger] arcs[i]).start < n && arcs[i].end < n
    &&& forall|i: int| 2 <= i < arcs.len() ==> #[trigger] pair_mirrored(arcs, i)
}

/// One pair still sums to what it was built with, and that sum fits.
pub open spec fn pair_cap_ok(arcs: Seq<Arc>, init: Seq<int>, i: int) -> bool {
    &&& arcs[i].capacity + arcs[pair_idx(i)].capacity == init[i] + init[pair_idx(i)]
    &&& 0 <= init[i]
    &&& init[i] + init[pair_idx(i)] <= u32::MAX
}

/// Capacity conservation: within every pair the two capacities always sum to
/// what the pair was built with, and that sum is representable.
pub open spec fn caps_ok(arcs: Seq<Arc>, init: Seq<int>) -> bool {
    &&& init.len() == arcs.len()
    &&& forall|i: int| 2 <= i < arcs.len() ==> #[trigger] pair_cap_ok(arcs, init, i)
}

/// The capacities of the pair at `i` have the same sum in `a` as in `b`.
pub open spec fn pair_conserved(a: Seq<Arc>, b: Seq<Arc>, i: int) -> bool {
    a[i].capacity + a[pair_idx(i)].capacity == b[i].capacity + b[pair_idx(i)].capacity
}

/// Flow moves capacity within a pair, never across pairs: every pair's two
/// capacities keep their original sum.
pub open spec fn all_pairs_conserved(a: Seq<Arc>, b: Seq<Arc>) -> bool {
    forall|i: int| 2 <= i < a.len() ==> #[trigger] pair_conserved(a, b, i)
}

/// Cost of the flow shipped so far: over the first `k` pairs, shipped units
/// (initial minus remaining capacity of the forward arc) times unit cost.
pub open spec fn flow_cost(arcs: Seq<Arc>, init: Seq<int>, k: int) -> int
    decreases k,
{
    if k <= 0 {
        0
    } else {
        flow_cost(arcs, init, k - 1) + (init[2 * k] - arcs[2 * k].capacity) * arcs[
            2 * k
        ].cost_per_unit
    }
}

/// How many of the first `k` pairs are marked as tree arcs.
pub open spec fn tree_pairs(arcs: Seq<Arc>, k: int) -> int
    decreases k,
{
    if k <= 0 {
        0
    } else {
        tree_pairs(arcs, k - 1) + if arcs[2 * k].on_tree {
            1int
        } else {
            0int
        }
    }
}

proof fn lemma_tree_pairs_agree(a1: Seq<Arc>, a2: Seq<Arc>, k: int)
    requires
        2 * k < a1.len(),
        2 * k < a2.len(),
        forall|j: int|
            0 <= j <= 2 * k ==> (#[trigger] a1[j]).on_tree == a2[j].on_tree,
    ensures
        tree_pairs(a1, k) == tree_pairs(a2, k),
    decreases k,
{
    if k > 0 {
        lemma_tree_pairs_agree(a1, a2, k - 1);
        assert(a1[2 * k].on_tree == a2[2 * k].on_tree);
    }
}

/// Changing one entry shifts the tree-pair count by the change of its mark
/// (only even, in-range entries are counted).
proof fn lemma_tree_pairs_update(a1: Seq<Arc>, a2: Seq<Arc>, t: int, k: int)
    requires
        a1.len() == a2.len(),
        0 <= t < a1.len(),
        forall|j: int| 0 <= j < a1.len() && j != t ==> a1[j] == #[trigger] a2[j],
        2 * k < a1.len(),
    ensures
        tree_pairs(a2, k) == tree_pairs(a1, k) + (if t % 2 == 0 && 2 <= t <= 2 * k {
            (if a2[t].on_tree {
                1int
            } else {
                0int
            }) - (if a1[t].on_tree {
                1int
            } else {
                0int
            })
        } else {
            0int
        }),
    decreases k,
{
    if k > 0 {
        lemma_tree_pairs_update(a1, a2, t, k - 1);
    }
}

/// Changing one entry without touching its cost shifts the flow cost by the
/// shipped-units change times that cost.
proof fn lemma_flow_cost_update(a1: Seq<Arc>, a2: Seq<Arc>, init: Seq<int>, t: int, k: int)
    requires
        a1.len() == a2.len(),
        0 <= t < a1.len(),
        forall|j: int| 0 <= j < a1.len() && j != t ==> a1[j] == #[trigger] a2[j],
        a2[t].cost_per_unit == a1[t].cost_per_unit,
        2 * k < a1.len(),
    ensures
        flow_cost(a2, init, k) == flow_cost(a1, init, k) + (if t % 2 == 0 && 2 <= t <= 2 * k {
            (a1[t].capacity - a2[t].capacity) * a1[t].cost_per_unit
        } else {
            0int
        }),
    decreases k,
{
    if k > 0 {
        lemma_flow_cost_update(a1, a2, init, t, k - 1);
        if t == 2 * k {
            assert((init[t] - a2[t].capacity) * a2[t].cost_per_unit == (init[t]
                - a1[t].capacity) * a1[t].cost_per_unit + (a1[t].capacity - a2[t].capacity) * a1[
                t
            ].cost_per_unit) by (nonlinear_arith)
                requires
                    a2[t].cost_per_unit == a1[t].cost_per_unit,
            ;
        }
    }
}

/// Flow cost is zero while every forward arc still has its initial capacity.
proof fn lemma_flow_cost_zero(arcs: Seq<Arc>, init: Seq<int>, k: int)
    requires
        2 * k < arcs.len(),
        forall|j: int| 0 <= j <= 2 * k ==> #[trigger] init[j] == arcs[j].capacity as int,
    ensures
        flow_cost(arcs, init, k) == 0,
    decreases k,
{
    if k > 0 {
        lemma_flow_cost_zero(arcs, init, k - 1);
        assert(init[2 * k] == arcs[2 * k].capacity as int);
    }
}

proof fn lemma_conserved_refl(a: Seq<Arc>)
    ensures
        all_pairs_conserved(a, a),
{
    assert forall|i: int| 2 <= i < a.len() implies #[trigger] pair_conserved(a, a, i) by {}
}

proof fn lemma_conserved_trans(a: Seq<Arc>, b: Seq<Arc>, c: Seq<Arc>)
    requires
        a.len() == b.len(),
        all_pairs_conserved(a, b),
        all_pairs_conserved(b, c),
    ensures
        all_pairs_conserved(a, c),
{
    assert forall|i: int| 2 <= i < a.len() implies #[trigger] pair_conserved(a, c, i) by {
        assert(pair_conserved(a, b, i));
        assert(pair_conserved(b, c, i));
    }
}

proof fn lemma_conserved_same_caps(a: Seq<Arc>, b: Seq<Arc>)
    requires
        a.len() == b.len(),
        a.len() % 2 == 0,
        forall|i: int| 0 <= i < a.len() ==> (#[trigger] a[i]).capacity == b[i].capacity,
    ensures
        all_pairs_conserved(a, b),
{
    assert forall|i: int| 2 <= i < a.len() implies #[trigger] pair_conserved(a, b, i) by {
        assert(2 <= pair_idx(i) < a.len());
        assert(a[pair_idx(i)].capacity == b[pair_idx(i)].capacity);
    }
}

/// Moving `delta` units of capacity from arc `t` to its pair charges exactly
/// `delta` times the cost of `t` to the flow cost.
proof fn lemma_flow_cost_shift(
    a0: Seq<Arc>,
    a1: Seq<Arc>,
    a2: Seq<Arc>,
    init: Seq<int>,
    t: int,
    p: int,
    delta: int,
)
    requires
        a0.len() >= 2,
        a0.len() % 2 == 0,
        2 <= t < a0.len(),
        p == pair_idx(t),
        pair_mirrored(a0, t),
        a1.len() == a0.len(),
        a2.len() == a0.len(),
        forall|j: int| 0 <= j < a0.len() && j != t ==> a0[j] == #[trigger] a1[j],
        a1[t].cost_per_unit == a0[t].cost_per_unit,
        a1[t].capacity == a0[t].capacity - delta,
        forall|j: int| 0 <= j < a0.len() && j != p ==> a1[j] == #[trigger] a2[j],
        a2[p].cost_per_unit == a1[p].cost_per_unit,
        a2[p].capacity == a1[p].capacity + delta,
    ensures
        flow_cost(a2, init, npairs(a0)) == flow_cost(a0, init, npairs(a0)) + delta * a0[
            t
        ].cost_per_unit,
{
    let np = npairs(a0);
    lemma_flow_cost_update(a0, a1, init, t, np);
    lemma_flow_cost_update(a1, a2, init, p, np);
    if t % 2 == 0 {
        assert((a0[t].capacity - a1[t].capacity) * a0[t].cost_per_unit == delta * a0[
            t
        ].cost_per_unit) by (nonlinear_arith)
            requires
                a0[t].capacity - a1[t].capacity == delta,
        ;
    } else {
        assert(a1[p].cost_per_unit as int == -(a0[t].cost_per_unit as int));
        assert((a1[p].capacity - a2[p].capacity) * a1[p].cost_per_unit == delta * a0[
            t
        ].cost_per_unit) by (nonlinear_arith)
            requires
                a1[p].capacity - a2[p].capacity == -delta,
                a1[p].cost_per_unit as int == -(a0[t].cost_per_unit as int),
        ;
    }
}

/// Capacity conservation survives moving `delta` units within one pair.
proof fn lemma_caps_ok_shift(a0: Seq<Arc>, a2: Seq<Arc>, init: Seq<int>, t: int, p: int, delta: int)
    requires
        caps_ok(a0, init),
        a0.len() >= 2,
        a0.len() % 2 == 0,
        2 <= t < a0.len(),
        p == pair_idx(t),
        a2.len() == a0.len(),
        forall|j: int|
            0 <= j < a0.len() && j != t && j != p ==> (#[trigger] a2[j]).capacity == a0[j].capacity,
        a2[t].capacity == a0[t].capacity - delta,
        a2[p].capacity == a0[p].capacity + delta,
    ensures
        caps_ok(a2, init),
        all_pairs_conserved(a2, a0),
{
    assert forall|i: int| 2 <= i < a0.len() implies #[trigger] pair_conserved(a2, a0, i) by {
        assert(pair_cap_ok(a0, init, i));
        assert(pair_idx(pair_idx(i)) == i);
    }
    assert forall|i: int| 2 <= i < a2.len() implies #[trigger] pair_cap_ok(a2, init, i) by {
        assert(pair_cap_ok(a0, init, i));
        assert(pair_idx(pair_idx(i)) == i);
    }
}

/// Structural well-formedness only reads endpoints, costs and tree marks, so
/// it survives any change of capacities alone.
proof fn lemma_arcs_wf_same_shape(a0: Seq<Arc>, a2: Seq<Arc>, n: int)
    requires
        arcs_wf(a0, n),
        a2.len() == a0.len(),
        forall|i: int|
            0 <= i < a0.len() ==> {
                let x = #[trigger] a2[i];
                let y = a0[i];
                x.start == y.start && x.end == y.end && x.cost_per_unit == y.cost_per_unit
                    && x.on_tree == y.on_tree
            },
    ensures
        arcs_wf(a2, n),
{
    assert forall|i: int| 2 <= i < a2.len() implies #[trigger] pair_mirrored(a2, i) by {
        assert(pair_mirrored(a0, i));
        assert(pair_idx(pair_idx(i)) == i);
    }
}

/// Retagging the entering pair onto the tree and the leaving pair off it
/// keeps the store well formed and the pair count unchanged.
proof fn lemma_wf_after_swap(a0: Seq<Arc>, a4: Seq<Arc>, n: int, e: int, l: int)
    requires
        arcs_wf(a0, n),
        a4.len() == a0.len(),
        2 <= e < a0.len(),
        2 <= l < a0.len(),
        !a0[e].on_tree,
        a0[l].on_tree,
        forall|i: int|
            0 <= i < a0.len() ==> {
                let x = #[trigger] a4[i];
                let y = a0[i];
                x.start == y.start && x.end == y.end && x.cost_per_unit == y.cost_per_unit
                    && x.capacity == y.capacity
            },
        forall|i: int|
            0 <= i < a0.len() && i != e && i != pair_idx(e) && i != l && i != pair_idx(l) ==> (
            #[trigger] a4[i]).on_tree == a0[i].on_tree,
        a4[e].on_tree,
        a4[pair_idx(e)].on_tree,
        !a4[l].on_tree,
        !a4[pair_idx(l)].on_tree,
    ensures
        arcs_wf(a4, n),
        tree_pairs(a4, npairs(a0)) == tree_pairs(a0, npairs(a0)),
    decreases a0.len(),
{
    assert(pair_mirrored(a0, e));
    assert(pair_mirrored(a0, l));
    assert(l != e && l != pair_idx(e) && pair_idx(l) != e && pair_idx(l) != pair_idx(e));
    assert forall|i: int| 2 <= i < a4.len() implies #[trigger] pair_mirrored(a4, i) by {
        assert(pair_mirrored(a0, i));
        assert(pair_idx(pair_idx(i)) == i);
        if i == e || i == pair_idx(e) {
            assert(a4[i].on_tree && a4[pair_idx(i)].on_tree);
        } else if i == l || i == pair_idx(l) {
            assert(!a4[i].on_tree && !a4[pair_idx(i)].on_tree);
        }
    }
    lemma_tree_pairs_swap(a0, a4, e, l, npairs(a0));
}

proof fn lemma_tree_pairs_swap(a0: Seq<Arc>, a4: Seq<Arc>, e: int, l: int, k: int)
    requires
        a4.len() == a0.len(),
        2 <= e < a0.len(),
        2 <= l < a0.len(),
        !a0[e].on_tree,
        a0[l].on_tree,
        a0[pair_idx(e)].on_tree == a0[e].on_tree,
        a0[pair_idx(l)].on_tree == a0[l].on_tree,
        forall|i: int|
            0 <= i < a0.len() && i != e && i != pair_idx(e) && i != l && i != pair_idx(l) ==> (
            #[trigger] a4[i]).on_tree == a0[i].on_tree,
        a4[e].on_tree,
        a4[pair_idx(e)].on_tree,
        !a4[l].on_tree,
        !a4[pair_idx(l)].on_tree,
        2 * k < a0.len(),
    ensures
        tree_pairs(a4, k) == tree_pairs(a0, k) + (if 2 <= 2 * k && e % 2 == 0 && e <= 2 * k || e % 2
            == 1 && pair_idx(e) <= 2 * k {
            1int
        } else {
            0int
        }) - (if 2 <= 2 * k && l % 2 == 0 && l <= 2 * k || l % 2 == 1 && pair_idx(l) <= 2 * k {
            1int
        } else {
            0int
        }),
    decreases k,
{
    if k > 0 {
        lemma_tree_pairs_swap(a0, a4, e, l, k - 1);
    }
}

/// Net shipped flow at node `v` over the first `k` pairs: units leaving on
/// forward arcs out of `v` minus units arriving on forward arcs into `v`
/// (shipped units of a pair are its initial minus remaining forward
/// capacity, negative when flow runs against the forward direction).
pub open spec fn net_flow(arcs: Seq<Arc>, init: Seq<int>, v: int, k: int) -> int
    decreases k,
{
    if k <= 0 {
        0
    } else {
        net_flow(arcs, init, v, k - 1) + (if arcs[2 * k].start == v {
            init[2 * k] - arcs[2 * k].capacity
        } else {
            0int
        }) - (if arcs[2 * k].end == v {
            init[2 * k] - arcs[2 * k].capacity
        } else {
            0int
        })
    }
}

/// While every forward arc still has its built capacity, every node is
/// balanced.
pub proof fn lemma_net_flow_at_initial(arcs: Seq<Arc>, init: Seq<int>, v: int, k: int)
    requires
        2 * k < arcs.len(),
        forall|j: int| 0 <= j <= 2 * k ==> #[trigger] init[j] == arcs[j].capacity as int,
    ensures
        net_flow(arcs, init, v, k) == 0,
    decreases k,
{
    if k > 0 {
        lemma_net_flow_at_initial(arcs, init, v, k - 1);
        assert(init[2 * k] == arcs[2 * k].capacity as int);
    }
}

/// Changing one entry without touching its endpoints shifts the net flow at
/// `v` by the shipped-units change, signed by whether the arc leaves or
/// enters `v` (only even, in-range entries carry flow).
proof fn lemma_net_flow_update(a1: Seq<Arc>, a2: Seq<Arc>, init: Seq<int>, t: int, v: int, k: int)
    requires
        a1.len() == a2.len(),
        0 <= t < a1.len(),
        forall|j: int| 0 <= j < a1.len() && j != t ==> a1[j] == #[trigger] a2[j],
        a2[t].start == a1[t].start,
        a2[t].end == a1[t].end,
        2 * k < a1.len(),
    ensures
        net_flow(a2, init, v, k) == net_flow(a1, init, v, k) + (if t % 2 == 0 && 2 <= t <= 2 * k {
            (if a1[t].start == v {
                a1[t].capacity - a2[t].capacity
            } else {
                0int
            }) - (if a1[t].end == v {
                a1[t].capacity - a2[t].capacity
            } else {
                0int
            })
        } else {
            0int
        }),
    decreases k,
{
    if k > 0 {
        lemma_net_flow_update(a1, a2, init, t, v, k - 1);
    }
}

proof fn lemma_net_flow_agree(a1: Seq<Arc>, a2: Seq<Arc>, init: Seq<int>, v: int, k: int)
    requires
        a1.len() == a2.len(),
        forall|j: int|
            0 <= j < a1.len() ==> ((#[trigger] a2[j]).capacity == a1[j].capacity && a2[j].start
                == a1[j].start && a2[j].end == a1[j].end),
        2 * k < a1.len(),
    ensures
        net_flow(a2, init, v, k) == net_flow(a1, init, v, k),
    decreases k,
{
    if k > 0 {
        lemma_net_flow_agree(a1, a2, init, v, k - 1);
    }
}

/// The per-node balance contribution of pushing one unit along the listed
/// arcs: how many leave `v` minus how many enter it.
pub open spec fn seq_net_at(arcs: Seq<Arc>, cyc: Seq<usize>, v: int) -> int
    decreases cyc.len(),
{
    if cyc.len() == 0 {
        0
    } else {
        (if arcs[cyc[0] as int].start == v {
            1int
        } else {
            0int
        }) - (if arcs[cyc[0] as int].end == v {
            1int
        } else {
            0int
        }) + seq_net_at(arcs, cyc.drop_first(), v)
    }
}

proof fn lemma_net_at_push(arcs: Seq<Arc>, cyc: Seq<usize>, x: usize, v: int)
    ensures
        seq_net_at(arcs, cyc.push(x), v) == seq_net_at(arcs, cyc, v) + (if arcs[x as int].start
            == v {
            1int
        } else {
            0int
        }) - (if arcs[x as int].end == v {
            1int
        } else {
            0int
        }),
    decreases cyc.len(),
{
    if cyc.len() == 0 {
        assert(cyc.push(x).drop_first() =~= cyc);
    } else {
        assert(cyc.push(x).drop_first() =~= cyc.drop_first().push(x));
        lemma_net_at_push(arcs, cyc.drop_first(), x, v);
    }
}

/// A unit pushed along a tree path leaves its first node and arrives at its
/// last, balancing everywhere in between.
proof fn lemma_path_net_at(s: Solution, a: int, b: int, v: int)
    requires
        s.wf(),
        s.cert(),
        0 <= a < s.node_count,
        0 <= b < s.node_count,
    ensures
        seq_net_at(s.arcs@, tree_path(s.tree, a, b), v) == (if v == a {
            1int
        } else {
            0int
        }) - (if v == b {
            1int
        } else {
            0int
        }),
    decreases s.tree.nodes@[a].dep + s.tree.nodes@[b].dep,
{
    lemma_cert_tree_linked(s);
    let t = s.tree;
    if a == b {
    } else if t.nodes@[a].dep > t.nodes@[b].dep {
        assert(s.node_linked(a));
        let p = t.nodes@[a].parent->Some_0 as int;
        let au = t.nodes@[a].arc_to_parent->Some_0;
        lemma_path_net_at(s, p, b, v);
        let rest = tree_path(t, p, b);
        assert(tree_path(t, a, b) == seq![au].add(rest));
        assert(seq![au].add(rest).drop_first() =~= rest);
        assert(seq![au].add(rest)[0] == au);
    } else if t.nodes@[a].dep < t.nodes@[b].dep {
        assert(s.node_linked(b));
        let p = t.nodes@[b].parent->Some_0 as int;
        let bu = t.nodes@[b].arc_to_parent->Some_0;
        lemma_path_net_at(s, a, p, v);
        assert(pair_mirrored(s.arcs@, bu as int));
        assert(pair_of(bu) as int == pair_idx(bu as int));
        let rest = tree_path(t, a, p);
        assert(tree_path(t, a, b) == seq![pair_of(bu)].add(rest));
        assert(seq![pair_of(bu)].add(rest).drop_first() =~= rest);
        assert(seq![pair_of(bu)].add(rest)[0] == pair_of(bu));
    } else {
        proof_same_depth_not_root(s, a, b);
        assert(s.node_linked(a));
        assert(s.node_linked(b));
        let pa = t.nodes@[a].parent->Some_0 as int;
        let pb = t.nodes@[b].parent->Some_0 as int;
        let au = t.nodes@[a].arc_to_parent->Some_0;
        let bu = t.nodes@[b].arc_to_parent->Some_0;
        lemma_path_net_at(s, pa, pb, v);
        assert(pair_mirrored(s.arcs@, bu as int));
        assert(pair_of(bu) as int == pair_idx(bu as int));
        let rest = tree_path(t, pa, pb);
        assert(tree_path(t, a, b) == seq![au, pair_of(bu)].add(rest));
        assert(seq![au, pair_of(bu)].add(rest)[0] == au);
        assert(seq![au, pair_of(bu)].add(rest).drop_first() =~= seq![pair_of(bu)].add(rest));
        assert(seq![pair_of(bu)].add(rest)[0] == pair_of(bu));
        assert(seq![pair_of(bu)].add(rest).drop_first() =~= rest);
        assert(seq_net_at(s.arcs@, seq![pair_of(bu)].add(rest), v) == (if s.arcs@[
            pair_of(bu) as int
        ].start == v {
            1int
        } else {
            0int
        }) - (if s.arcs@[pair_of(bu) as int].end == v {
            1int
        } else {
            0int
        }) + seq_net_at(s.arcs@, rest, v));
    }
}

/// The arcs' immutable shape: endpoints and costs are fixed at construction;
/// only capacities and tree marks ever change.
pub open spec fn same_shape(a: Seq<Arc>, b: Seq<Arc>) -> bool {
    &&& a.len() == b.len()
    &&& forall|i: int|
        0 <= i < a.len() ==> ((#[trigger] a[i]).start == b[i].start && a[i].end == b[i].end && a[
            i
        ].cost_per_unit == b[i].cost_per_unit)
}

proof fn lemma_same_shape_trans(a: Seq<Arc>, b: Seq<Arc>, c: Seq<Arc>)
    requires
        same_shape(a, b),
        same_shape(b, c),
    ensures
        same_shape(a, c),
{
}

/// Sum of the per-unit costs of the listed arcs.
pub open spec fn seq_cost_sum(arcs: Seq<Arc>, cyc: Seq<usize>) -> int
    decreases cyc.len(),
{
    if cyc.len() == 0 {
        0
    } else {
        arcs[cyc[0] as int].cost_per_unit + seq_cost_sum(arcs, cyc.drop_first())
    }
}

/// The least capacity among `floor` and the listed arcs, scanned in order.
pub open spec fn seq_min_cap(arcs: Seq<Arc>, cyc: Seq<usize>, floor: int) -> int
    decreases cyc.len(),
{
    if cyc.len() == 0 {
        floor
    } else {
        seq_min_cap(
            arcs,
            cyc.drop_first(),
            if (arcs[cyc[0] as int].capacity as int) < floor {
                arcs[cyc[0] as int].capacity as int
            } else {
                floor
            },
        )
    }
}

proof fn lemma_cost_sum_push(arcs: Seq<Arc>, cyc: Seq<usize>, x: usize)
    ensures
        seq_cost_sum(arcs, cyc.push(x)) == seq_cost_sum(arcs, cyc) + arcs[x as int].cost_per_unit,
    decreases cyc.len(),
{
    if cyc.len() == 0 {
        assert(cyc.push(x).drop_first() =~= cyc);
    } else {
        assert(cyc.push(x).drop_first() =~= cyc.drop_first().push(x));
        lemma_cost_sum_push(arcs, cyc.drop_first(), x);
    }
}

proof fn lemma_min_cap_push(arcs: Seq<Arc>, cyc: Seq<usize>, x: usize, floor: int)
    ensures
        seq_min_cap(arcs, cyc.push(x), floor) == {
            let m = seq_min_cap(arcs, cyc, floor);
            if (arcs[x as int].capacity as int) < m {
                arcs[x as int].capacity as int
            } else {
                m
            }
        },
    decreases cyc.len(),
{
    assert(cyc.push(x)[0] == if cyc.len() == 0 {
        x
    } else {
        cyc[0]
    });
    if cyc.len() == 0 {
        assert(cyc.push(x).drop_first() =~= cyc);
        assert(seq_min_cap(arcs, cyc.push(x), floor) == seq_min_cap(
            arcs,
            cyc,
            if (arcs[x as int].capacity as int) < floor {
                arcs[x as int].capacity as int
            } else {
                floor
            },
        ));
    } else {
        assert(cyc.push(x).drop_first() =~= cyc.drop_first().push(x));
        lemma_min_cap_push(
            arcs,
            cyc.drop_first(),
            x,
            if (arcs[cyc[0] as int].capacity as int) < floor {
                arcs[cyc[0] as int].capacity as int
            } else {
                floor
            },
        );
    }
}

/// The labelling of `0..n` after the first `k` input arcs have been folded in
/// by the greedy union-find: each arc merges the sets of its two endpoints.
pub open spec fn fold_labels(n: int, specs: Seq<Arc>, k: int) -> Seq<int>
    decreases k,
{
    if k <= 0 {
        Seq::new(n as nat, |i: int| i)
    } else {
        merged_labels(
            fold_labels(n, specs, k - 1),
            specs[k - 1].start as int,
            specs[k - 1].end as int,
        )
    }
}

/// The label fold reads only the arcs before `k`.
pub proof fn lemma_fold_labels_prefix(n: int, s1: Seq<Arc>, s2: Seq<Arc>, k: int)
    requires
        0 <= k <= s1.len(),
        k <= s2.len(),
        forall|j: int| 0 <= j < k ==> s1[j] == #[trigger] s2[j],
    ensures
        fold_labels(n, s1, k) == fold_labels(n, s2, k),
    decreases k,
{
    if k > 0 {
        lemma_fold_labels_prefix(n, s1, s2, k - 1);
    }
}

/// Whether input arc `k` joins two sets that were still separate, and so is
/// selected for the initial spanning tree.
pub open spec fn pair_tree_selected(n: int, specs: Seq<Arc>, k: int) -> bool {
    fold_labels(n, specs, k)[specs[k].start as int] != fold_labels(n, specs, k)[specs[k].end as int]
}

/// Whether the input arcs join all `n` nodes into one set.
pub open spec fn input_spans(n: int, specs: Seq<Arc>) -> bool {
    n >= 1 && forall|v: int| 0 <= v < n ==> fold_labels(n, specs, specs.len() as int)[v] == 0
}

/// All arc endpoints lie below the node count.
pub open spec fn endpoints_valid(n: int, specs: Seq<Arc>) -> bool {
    forall|k: int| 0 <= k < specs.len() ==> (#[trigger] specs[k]).start < n && specs[k].end < n
}

proof fn lemma_fold_labels_wf(n: int, specs: Seq<Arc>, k: int)
    requires
        n >= 0,
        endpoints_valid(n, specs),
        0 <= k <= specs.len(),
    ensures
        fold_labels(n, specs, k).len() == n,
        labels_wf(fold_labels(n, specs, k)),
    decreases k,
{
    if k > 0 {
        lemma_fold_labels_wf(n, specs, k - 1);
        lemma_merged_wf(
            fold_labels(n, specs, k - 1),
            specs[k - 1].start as int,
            specs[k - 1].end as int,
        );
    }
}

/// What the constructor builds from input pair `j`: the forward arc copied,
/// the residual twin reversed with zero capacity and negated cost, and both
/// tree-marked exactly when the greedy union-find selected the pair.
pub open spec fn built_pair(store: Seq<Arc>, n: int, specs: Seq<Arc>, j: int) -> bool {
    let f = store[2 + 2 * j];
    let b = store[3 + 2 * j];
    let s = specs[j];
    &&& f.start == s.start
    &&& f.end == s.end
    &&& f.capacity == s.capacity
    &&& f.cost_per_unit == s.cost_per_unit
    &&& b.start == s.end
    &&& b.end == s.start
    &&& b.capacity == 0
    &&& b.cost_per_unit as int == -(s.cost_per_unit as int)
    &&& f.on_tree == pair_tree_selected(n, specs, j)
    &&& b.on_tree == f.on_tree
}

/// How many of the first `k` entries are set.
pub open spec fn count_true(s: Seq<bool>, k: int) -> int
    decreases k,
{
    if k <= 0 {
        0
    } else {
        count_true(s, k - 1) + if s[k - 1] {
            1int
        } else {
            0int
        }
    }
}

proof fn lemma_count_true_bounds(s: Seq<bool>, k: int)
    ensures
        0 <= count_true(s, k),
        k >= 0 ==> count_true(s, k) <= k,
    decreases k,
{
    if k > 0 {
        lemma_count_true_bounds(s, k - 1);
    }
}

proof fn lemma_count_true_missing(s: Seq<bool>, t: int, k: int)
    requires
        0 <= t < k,
        !s[t],
    ensures
        count_true(s, k) <= k - 1,
    decreases k,
{
    lemma_count_true_bounds(s, k - 1);
    if t < k - 1 {
        lemma_count_true_missing(s, t, k - 1);
    }
}

proof fn lemma_count_all_false(s: Seq<bool>, k: int)
    requires
        forall|j: int| 0 <= j < s.len() ==> !(#[trigger] s[j]),
        k <= s.len(),
    ensures
        count_true(s, k) == 0,
    decreases k,
{
    if k > 0 {
        lemma_count_all_false(s, k - 1);
    }
}

proof fn lemma_count_true_update(s: Seq<bool>, s2: Seq<bool>, t: int, k: int)
    requires
        s.len() == s2.len(),
        0 <= t < s.len(),
        !s[t],
        s2[t],
        forall|j: int| 0 <= j < s.len() && j != t ==> s[j] == #[trigger] s2[j],
        k <= s.len(),
    ensures
        count_true(s2, k) == count_true(s, k) + (if t < k {
            1int
        } else {
            0int
        }),
    decreases k,
{
    if k > 0 {
        lemma_count_true_update(s, s2, t, k - 1);
    }
}

/// Every tree arc leaving a set node leads to a set node.
pub open spec fn closure_at(arcs: Seq<Arc>, vis: Seq<bool>, u: int) -> bool {
    forall|i: int|
        2 <= i < arcs.len() && (#[trigger] arcs[i]).on_tree && arcs[i].start == u ==> vis[arcs[
            i
        ].end as int]
}

/// The flow network together with the solver's spanning-tree state.
pub struct Solution {
    /// Number of nodes; every arc endpoint lies below it.
    pub node_count: usize,
    /// Arc store: two unused slots, then forward/residual pairs.
    pub arcs: Vec<Arc>,
    /// Spanning-tree bookkeeping and dual potentials.
    pub tree: Tree,
    /// Cost accumulated by all flow pushed so far.
    pub total_cost: i64,
    /// The capacities the network was built with; a pivot moves capacity
    /// within a pair but never creates or destroys it.
    pub initial_caps: Ghost<Seq<int>>,
}

impl Solution {
    /// Structural invariant: mirrored pairs, conserved capacities, the
    /// accumulated cost equal to the cost of the shipped flow, and exactly
    /// `node_count - 1` tree-marked pairs.
    pub open spec fn wf(self) -> bool {
        &&& 1 <= self.node_count <= 0x4000_0000
        &&& self.tree.nodes@.len() == self.node_count
        &&& self.tree.costs@.len() == self.node_count
        &&& arcs_wf(self.arcs@, self.node_count as int)
        &&& caps_ok(self.arcs@, self.initial_caps@)
        &&& self.total_cost as int == flow_cost(self.arcs@, self.initial_caps@, npairs(self.arcs@))
        &&& tree_pairs(self.arcs@, npairs(self.arcs@)) == self.node_count - 1
    }

    /// A non-root node hangs one level below its parent, knows the tree arc
    /// leading back up, and its potential differs from the parent's by that
    /// arc's cost.
    pub open spec fn node_linked(self, v: int) -> bool {
        let nd = self.tree.nodes@[v];
        &&& nd.parent is Some
        &&& (nd.parent->Some_0 as int) < self.node_count
        &&& nd.dep == self.tree.nodes@[nd.parent->Some_0 as int].dep + 1
        &&& 2 <= nd.dep <= self.node_count
        &&& nd.arc_to_parent is Some
        &&& 2 <= (nd.arc_to_parent->Some_0 as int) < self.arcs@.len()
        &&& self.arcs@[nd.arc_to_parent->Some_0 as int].on_tree
        &&& self.arcs@[nd.arc_to_parent->Some_0 as int].start == v
        &&& self.arcs@[nd.arc_to_parent->Some_0 as int].end == nd.parent->Some_0
        &&& self.tree.costs@[v] == self.tree.costs@[nd.parent->Some_0 as int] + self.arcs@[
            nd.arc_to_parent->Some_0 as int
        ].cost_per_unit
    }

    /// Potentials telescope costs along the tree, so they grow by at most one
    /// cost magnitude per level.
    pub open spec fn pot_bounded(self, v: int) -> bool {
        let d = self.tree.nodes@[v].dep as int;
        -0x8000_0000 * (d - 1) <= self.tree.costs@[v] <= 0x8000_0000 * (d - 1)
    }

    /// The spanning certificate a successful potential refresh leaves behind:
    /// every node reaches the root along tree arcs, with consistent depths
    /// and potentials.
    pub open spec fn cert(self) -> bool {
        &&& self.tree.nodes@[0].dep == 1
        &&& self.tree.nodes@[0].parent is None
        &&& self.tree.costs@[0] == 0
        &&& forall|v: int| 1 <= v < self.node_count ==> self.node_linked(v)
        &&& forall|v: int| 0 <= v < self.node_count ==> self.pot_bounded(v)
    }

    /// Reduced cost of arc `i` under the current potentials.
    pub open spec fn red_cost(self, i: int) -> int {
        self.arcs@[i].cost_per_unit - self.tree.costs@[self.arcs@[i].start as int]
            + self.tree.costs@[self.arcs@[i].end as int]
    }

    /// Every tree arc has reduced cost zero (potentials are consistent).
    pub open spec fn tree_zeroed(self) -> bool {
        forall|i: int|
            2 <= i < self.arcs@.len() && (#[trigger] self.arcs@[i]).on_tree ==> self.red_cost(i)
                == 0
    }

    /// The dual-feasibility test: every arc that still has residual capacity
    /// has non-negative reduced cost.
    pub open spec fn reduced_costs_nonneg(self) -> bool {
        forall|i: int|
            2 <= i < self.arcs@.len() && (#[trigger] self.arcs@[i]).capacity > 0 ==> self.red_cost(
                i,
            ) >= 0
    }

    /// Optimality: fresh consistent potentials under which no residual arc
    /// offers a cost improvement.
    pub open spec fn at_optimum(self) -> bool {
        &&& self.cert()
        &&& self.tree_zeroed()
        &&& self.reduced_costs_nonneg()
    }

    /// The cycle an entering arc closes: the tree path from its head back to
    /// its tail.
    pub open spec fn entering_cycle(self, index: int) -> Seq<usize> {
        tree_path(self.tree, self.arcs@[index].end as int, self.arcs@[index].start as int)
    }

    /// The amount a pivot pushes: the least residual capacity over the
    /// entering arc and the cycle it closes.
    pub open spec fn cycle_bottleneck(self, index: int) -> int {
        seq_min_cap(self.arcs@, self.entering_cycle(index), self.arcs@[index].capacity as int)
    }

    /// Builds the network: every input arc is stored with its residual twin,
    /// pairs whose endpoints were still in separate components become the
    /// initial spanning tree, and inputs that cannot form a network over
    /// `nodes` nodes are rejected.
    pub fn new(nodes: usize, arc_specs: &Vec<Arc>) -> (r: Result<Solution, FlowError>)
        requires
            nodes <= 0x4000_0000,
            arc_specs@.len() <= 0x0800_0000,
            forall|k: int|
                0 <= k < arc_specs@.len() ==> (#[trigger] arc_specs@[k]).cost_per_unit > i32::MIN,
        ensures
            (r is Err && r->Err_0 is InvalidArcEndpoint) <==> !endpoints_valid(
                nodes as int,
                arc_specs@,
            ),
            endpoints_valid(nodes as int, arc_specs@) ==> ((r is Ok) <==> input_spans(
                nodes as int,
                arc_specs@,
            )),
            r is Err ==> (r->Err_0 is InvalidArcEndpoint || r->Err_0 is DisconnectedNetwork),
            r is Ok ==> {
                let s = r->Ok_0;
                &&& s.wf()
                &&& s.node_count == nodes
                &&& s.total_cost == 0
                &&& s.arcs@.len() == 2 + 2 * arc_specs@.len()
                &&& forall|j: int|
                    0 <= j < arc_specs@.len() ==> #[trigger] built_pair(
                        s.arcs@,
                        nodes as int,
                        arc_specs@,
                        j,
                    )
                &&& forall|v: int|
                    net_flow(s.arcs@, s.initial_caps@, v, npairs(s.arcs@)) == 0
            },
    {
        let ghost n = nodes as int;
        let ghost specs = arc_specs@;
        let n_specs = arc_specs.len();
        let mut k: usize = 0;
        while k < n_specs
            invariant
                k <= n_specs,
                n_specs == specs.len(),
                specs == arc_specs@,
                n == nodes as int,
                forall|j: int|
                    0 <= j < k ==> (#[trigger] specs[j]).start < nodes && specs[j].end < nodes,
            decreases n_specs - k,
        {
            let a = arc_specs[k];
            if a.start >= nodes || a.end >= nodes {
                return Err(FlowError::InvalidArcEndpoint);
            }
            k += 1;
        }
        assert(endpoints_valid(n, specs));
        if nodes == 0 {
            return Err(FlowError::DisconnectedNetwork);
        }
        let mut ufs = UnionFindSet::new(nodes);
        let mut store: Vec<Arc> = Vec::new();
        store.push(Arc::new(0, 0, 0, 0));
        store.push(Arc::new(0, 0, 0, 0));
        let mut tree_count: usize = 0;
        let mut k: usize = 0;
        proof {
            lemma_fold_labels_wf(n, specs, 0);
            lemma_identity_root_count(fold_labels(n, specs, 0), n);
        }
        while k < n_specs
            invariant
                k <= n_specs,
                n_specs == specs.len(),
                specs == arc_specs@,
                n == nodes as int,
                1 <= nodes <= 0x4000_0000,
                n_specs <= 0x0800_0000,
                endpoints_valid(n, specs),
                forall|j: int|
                    0 <= j < specs.len() ==> (#[trigger] specs[j]).cost_per_unit > i32::MIN,
                ufs.set_map@.len() == nodes,
                uf_wf(ufs.set_map@),
                fold_labels(n, specs, k as int).len() == n,
                labels_wf(fold_labels(n, specs, k as int)),
                forall|x: int|
                    0 <= x < n ==> root_of(ufs.set_map@, x) == fold_labels(n, specs, k as int)[x],
                tree_count as int == n - root_count(fold_labels(n, specs, k as int), n),
                tree_count <= k,
                store@.len() == 2 + 2 * (k as int),
                forall|j: int| 0 <= j < k ==> #[trigger] built_pair(store@, n, specs, j),
                tree_pairs(store@, k as int) == tree_count as int,
            decreases n_specs - k,
        {
            let ghost lk = fold_labels(n, specs, k as int);
            let ghost lk1 = fold_labels(n, specs, k as int + 1);
            let a = arc_specs[k];
            let ghost m_before = ufs.set_map@;
            let ures = ufs.union(a.start, a.end);
            let on_tree = match ures {
                UnionResult::NotCycle => true,
                UnionResult::Cycle => false,
            };
            proof {
                lemma_merged_wf(lk, a.start as int, a.end as int);
                assert(lk1 == merged_labels(lk, a.start as int, a.end as int));
                if on_tree {
                    lemma_merged_root_count(lk, a.start as int, a.end as int);
                    assert forall|x: int| 0 <= x < n implies root_of(ufs.set_map@, x) == lk1[x] by {
                        assert(max_root(m_before, a.start as int, a.end as int) == if lk[
                            a.start as int
                        ] > lk[a.end as int] {
                            lk[a.start as int]
                        } else {
                            lk[a.end as int]
                        });
                    }
                } else {
                    assert(lk1 == lk);
                }
            }
            let fwd = Arc {
                start: a.start,
                end: a.end,
                capacity: a.capacity,
                cost_per_unit: a.cost_per_unit,
                on_tree,
            };
            let rev_base = a.as_reverse();
            let rev = Arc {
                start: rev_base.start,
                end: rev_base.end,
                capacity: rev_base.capacity,
                cost_per_unit: rev_base.cost_per_unit,
                on_tree,
            };
            let ghost store0 = store@;
            store.push(fwd);
            store.push(rev);
            proof {
                lemma_tree_pairs_agree(store0, store@, k as int);
                assert(store@[2 + 2 * (k as int)] == fwd);
                assert(store@[3 + 2 * (k as int)] == rev);
                assert(built_pair(store@, n, specs, k as int));
                assert forall|j: int| 0 <= j < k + 1 implies #[trigger] built_pair(
                    store@,
                    n,
                    specs,
                    j,
                ) by {
                    if j < k {
                        assert(built_pair(store0, n, specs, j));
                    }
                }
            }
            if on_tree {
                tree_count += 1;
            }
            k += 1;
        }
        let ghost lfin = fold_labels(n, specs, n_specs as int);
        let mut v: usize = 0;
        while v < nodes
            invariant
                v <= nodes,
                n == nodes as int,
                nodes >= 1,
                ufs.set_map@.len() == nodes,
                uf_wf(ufs.set_map@),
                lfin.len() == n,
                forall|x: int| 0 <= x < n ==> root_of(ufs.set_map@, x) == lfin[x],
                forall|x: int| 0 <= x < v ==> lfin[x] == 0,
            decreases nodes - v,
        {
            let root = ufs.find(v);
            if root != 0 {
                proof {
                    assert(lfin[v as int] != 0);
                }
                return Err(FlowError::DisconnectedNetwork);
            }
            v += 1;
        }
        proof {
            lemma_all_zero_root_count(lfin, n);
            assert(tree_count as int == n - 1);
        }
        let tree = Tree::new(nodes);
        let ghost init = Seq::new(store@.len(), |i: int| store@[i].capacity as int);
        let sol = Solution {
            node_count: nodes,
            arcs: store,
            tree,
            total_cost: 0,
            initial_caps: Ghost(init),
        };
        proof {
            assert(sol.arcs@.len() == 2 + 2 * (n_specs as int));
            assert(npairs(sol.arcs@) == n_specs as int);
            assert forall|i: int|
                2 <= i < sol.arcs@.len() implies (#[trigger] sol.arcs@[i]).start < n && sol.arcs@[
                i
            ].end < n && pair_mirrored(sol.arcs@, i) by {
                let j = (i - 2) / 2;
                assert(built_pair(sol.arcs@, n, specs, j));
                if i % 2 == 0 {
                    assert(i == 2 + 2 * j);
                    assert(pair_idx(i) == 3 + 2 * j);
                } else {
                    assert(i == 3 + 2 * j);
                    assert(pair_idx(i) == 2 + 2 * j);
                }
            }
            assert forall|i: int|
                2 <= i < sol.arcs@.len() implies #[trigger] pair_cap_ok(sol.arcs@, init, i) by {
                let j = (i - 2) / 2;
                assert(built_pair(sol.arcs@, n, specs, j));
                if i % 2 == 0 {
                    assert(i == 2 + 2 * j);
                    assert(pair_idx(i) == 3 + 2 * j);
                } else {
                    assert(i == 3 + 2 * j);
                    assert(pair_idx(i) == 2 + 2 * j);
                }
            }
            lemma_flow_cost_zero(sol.arcs@, init, npairs(sol.arcs@));
            assert forall|v: int| net_flow(sol.arcs@, init, v, npairs(sol.arcs@)) == 0 by {
                lemma_net_flow_at_initial(sol.arcs@, init, v, npairs(sol.arcs@));
            }
            assert(sol.wf());
        }
        Ok(sol)
    }

    /// Whether arc `i` may enter the tree: off the tree with residual room.
    pub open spec fn candidate(self, i: int) -> bool {
        !self.arcs@[i].on_tree && self.arcs@[i].capacity > 0
    }

    /// Scans all tree arcs leaving `u`; each one that reaches a node not yet
    /// visited sets that node's depth, parent, parent arc and potential, and
    /// queues it for its own scan.
    #[verifier::rlimit(100)]
    fn dfs_visit(&mut self, u: usize, visited: &mut Vec<bool>, stack: &mut Vec<usize>)
        requires
            old(self).wf(),
            (u as int) < old(self).node_count,
            old(visited)@.len() == old(self).node_count,
            old(visited)@[0],
            old(visited)@[u as int],
            old(self).tree.nodes@[0] == (TreeNode { dep: 1, parent: None, arc_to_parent: None }),
            old(self).tree.costs@[0] == 0,
            1 <= count_true(old(visited)@, old(self).node_count as int) <= old(self).node_count,
            forall|j: int|
                0 <= j < old(stack)@.len() ==> (#[trigger] old(stack)@[j] as int) < old(self).node_count && old(visited)@[old(stack)@[j] as int],
            forall|v: int|
                1 <= v < old(self).node_count && old(visited)@[v] ==> old(self).node_linked(v),
            forall|v: int|
                1 <= v < old(self).node_count && old(visited)@[v] ==> old(visited)@[old(self).tree.nodes@[v].parent->Some_0 as int],
            forall|v: int|
                0 <= v < old(self).node_count && old(visited)@[v] ==> old(self).pot_bounded(v),
            forall|v: int|
                0 <= v < old(self).node_count && old(visited)@[v] ==> old(self).tree.nodes@[
                    v
                ].dep as int <= count_true(old(visited)@, old(self).node_count as int),
            forall|w: int|
                0 <= w < old(self).node_count && old(visited)@[w] && w != u as int && !old(stack)@.contains(w as usize) ==> closure_at(old(self).arcs@, old(visited)@, w),
        ensures
            final(self).wf(),
            final(self).arcs@ == old(self).arcs@,
            final(self).node_count == old(self).node_count,
            final(self).initial_caps == old(self).initial_caps,
            final(self).total_cost == old(self).total_cost,
            final(visited)@.len() == old(visited)@.len(),
            forall|v: int| 0 <= v < old(visited)@.len() && old(visited)@[v] ==> final(visited)@[v],
            final(visited)@[0],
            final(self).tree.nodes@[0] == (TreeNode { dep: 1, parent: None, arc_to_parent: None }),
            final(self).tree.costs@[0] == 0,
            1 <= count_true(final(visited)@, final(self).node_count as int) <= final(self).node_count,
            forall|j: int|
                0 <= j < final(stack)@.len() ==> (#[trigger] final(stack)@[j] as int) < final(self).node_count && final(visited)@[final(stack)@[j] as int],
            forall|v: int|
                1 <= v < final(self).node_count && final(visited)@[v] ==> final(self).node_linked(
                    v,
                ),
            forall|v: int|
                1 <= v < final(self).node_count && final(visited)@[v] ==> final(visited)@[final(self).tree.nodes@[v].parent->Some_0 as int],
            forall|v: int|
                0 <= v < final(self).node_count && final(visited)@[v] ==> final(self).pot_bounded(
                    v,
                ),
            forall|v: int|
                0 <= v < final(self).node_count && final(visited)@[v] ==> final(self).tree.nodes@[
                    v
                ].dep as int <= count_true(final(visited)@, final(self).node_count as int),
            forall|w: int|
                0 <= w < final(self).node_count && final(visited)@[w] && w != u as int && !final(stack)@.contains(w as usize) ==> closure_at(final(self).arcs@, final(visited)@, w),
            closure_at(final(self).arcs@, final(visited)@, u as int),
            final(stack)@.len() - count_true(final(visited)@, final(self).node_count as int) == old(stack)@.len() - count_true(old(visited)@, old(self).node_count as int),
    {
        let ghost n = self.node_count;
        let ghost arcs0 = self.arcs@;
        let ghost base = stack@.len() - count_true(visited@, n as int);
        let m = self.arcs.len();
        let mut i: usize = 2;
        #[verifier::loop_isolation(true)]
        while i < m
            invariant
                2 <= i <= m,
                m == self.arcs@.len(),
                self.wf(),
                self.arcs@ == arcs0,
                self.node_count == n,
                self.initial_caps == old(self).initial_caps,
                self.total_cost == old(self).total_cost,
                visited@.len() == n,
                visited@[0],
                (u as int) < n,
                visited@[u as int],
                forall|v: int| 0 <= v < n && old(visited)@[v] ==> visited@[v],
                self.tree.nodes@[0] == (TreeNode { dep: 1, parent: None, arc_to_parent: None }),
                self.tree.costs@[0] == 0,
                1 <= count_true(visited@, n as int) <= n,
                stack@.len() - count_true(visited@, n as int) == base,
                forall|j: int|
                    0 <= j < stack@.len() ==> (#[trigger] stack@[j] as int) < n && visited@[stack@[
                        j
                    ] as int],
                forall|v: int| 1 <= v < n && visited@[v] ==> self.node_linked(v),
                forall|v: int|
                    1 <= v < n && visited@[v] ==> visited@[self.tree.nodes@[
                        v
                    ].parent->Some_0 as int],
                forall|v: int| 0 <= v < n && visited@[v] ==> self.pot_bounded(v),
                forall|v: int|
                    0 <= v < n && visited@[v] ==> self.tree.nodes@[v].dep as int <= count_true(
                        visited@,
                        n as int,
                    ),
                forall|w: int|
                    0 <= w < n && visited@[w] && w != u as int && !stack@.contains(w as usize)
                        ==> closure_at(self.arcs@, visited@, w),
                forall|ii: int|
                    2 <= ii < i && (#[trigger] self.arcs@[ii]).on_tree && self.arcs@[ii].start == u
                        ==> visited@[self.arcs@[ii].end as int],
            decreases m - i,
        {
            let a = self.arcs[i];
            if a.on_tree && a.start == u && !visited[a.end] {
                let v = a.end;
                let ghost selfa = *self;
                let ghost vis0 = visited@;
                proof {
                    assert(self.pot_bounded(u as int));
                    if u != 0 {
                        assert(self.node_linked(u as int));
                    }
                    assert(self.tree.nodes@[u as int].dep as int <= count_true(vis0, n as int));
                    lemma_count_true_missing(vis0, v as int, n as int);
                    assert(u != v);
                }
                visited[v] = true;
                proof {
                    lemma_count_true_update(vis0, visited@, v as int, n as int);
                }
                let nu = self.tree.nodes[u];
                let cu = self.tree.costs[u];
                let flipped: usize = if i % 2 == 0 {
                    i + 1
                } else {
                    i - 1
                };
                proof {
                    assert(pair_mirrored(self.arcs@, i as int));
                    assert(flipped as int == pair_idx(i as int));
                }
                self.tree.nodes[v] = TreeNode {
                    dep: nu.dep + 1,
                    parent: Some(u),
                    arc_to_parent: Some(flipped),
                };
                self.tree.costs[v] = cu - (a.cost_per_unit as i64);
                let ghost stacka = stack@;
                stack.push(v);
                proof {
                    assert(self.node_linked(v as int));
                    assert(self.pot_bounded(v as int));
                    assert forall|w: int| 1 <= w < n && visited@[w] implies self.node_linked(
                        w,
                    ) by {
                        if w != v as int {
                            assert(vis0[w]);
                            assert(selfa.node_linked(w));
                            assert(vis0[selfa.tree.nodes@[w].parent->Some_0 as int]);
                            assert(selfa.tree.nodes@[w].parent->Some_0 as int != v as int);
                            assert(self.tree.nodes@[w] == selfa.tree.nodes@[w]);
                        }
                    }
                    assert forall|w: int| 1 <= w < n && visited@[w] implies visited@[(
                    #[trigger] self.tree.nodes@[w]).parent->Some_0 as int] by {
                        if w != v as int {
                            assert(vis0[w]);
                            assert(selfa.node_linked(w));
                            assert((selfa.tree.nodes@[w].parent->Some_0 as int) < n);
                            assert(self.tree.nodes@[w] == selfa.tree.nodes@[w]);
                            assert(vis0[selfa.tree.nodes@[w].parent->Some_0 as int]);
                            assert(selfa.tree.nodes@[w].parent->Some_0 as int != v as int);
                            assert(visited@ == vis0.update(v as int, true));
                            assert(visited@[self.tree.nodes@[w].parent->Some_0 as int]);
                        } else {
                            assert(self.tree.nodes@[w].parent->Some_0 == u);
                            assert(vis0[u as int]);
                            assert(visited@[u as int]);
                            assert(visited@[self.tree.nodes@[w].parent->Some_0 as int]);
                        }
                    }
                    assert forall|w: int| 0 <= w < n && visited@[w] implies self.pot_bounded(w)
                        && self.tree.nodes@[w].dep as int <= count_true(visited@, n as int) by {
                        if w != v as int {
                            assert(vis0[w]);
                            assert(selfa.pot_bounded(w));
                        }
                    }
                    assert forall|w: int|
                        0 <= w < n && visited@[w] && w != u as int && !stack@.contains(w as usize)
                            implies closure_at(self.arcs@, visited@, w) by {
                        assert(stack@[stack@.len() - 1] == v);
                        assert(stack@.contains(v));
                        assert(w != v as int);
                        assert(vis0[w]);
                        if stacka.contains(w as usize) {
                            let idx = choose|idx: int|
                                0 <= idx < stacka.len() && stacka[idx] == w as usize;
                            assert(stack@[idx] == w as usize);
                            assert(false);
                        }
                        assert(closure_at(self.arcs@, vis0, w));
                        assert forall|ii: int|
                            2 <= ii < self.arcs@.len() && (#[trigger] self.arcs@[ii]).on_tree
                                && self.arcs@[ii].start == w implies visited@[self.arcs@[
                            ii
                        ].end as int] by {
                            assert(vis0[self.arcs@[ii].end as int]);
                        }
                    }
                }
            }
            i += 1;
        }
    }

    /// Walks the tree arcs from the root, assigning each node reached its
    /// depth, parent, parent arc and potential.  Returns which nodes the walk
    /// reached; tree arcs out of reached nodes always lead to reached nodes.
    #[verifier::rlimit(100)]
    fn dfs_build_tree(&mut self) -> (visited: Vec<bool>)
        requires
            old(self).wf(),
        ensures
            final(self).wf(),
            final(self).arcs@ == old(self).arcs@,
            final(self).node_count == old(self).node_count,
            final(self).initial_caps == old(self).initial_caps,
            final(self).total_cost == old(self).total_cost,
            visited@.len() == old(self).node_count,
            visited@[0],
            final(self).tree.nodes@[0] == (TreeNode {
                dep: 1,
                parent: None,
                arc_to_parent: None,
            }),
            final(self).tree.costs@[0] == 0,
            forall|v: int|
                1 <= v < final(self).node_count && visited@[v] ==> final(self).node_linked(v),
            forall|v: int|
                0 <= v < final(self).node_count && visited@[v] ==> final(self).pot_bounded(v),
            forall|w: int| 0 <= w < final(self).node_count && visited@[w] ==> closure_at(
                final(self).arcs@,
                visited@,
                w,
            ),
    {
        let n = self.node_count;
        let ghost arcs0 = self.arcs@;
        self.tree.clear();
        let mut visited: Vec<bool> = Vec::new();
        while visited.len() < n
            invariant
                visited@.len() <= n,
                forall|j: int| 0 <= j < visited@.len() ==> !(#[trigger] visited@[j]),
            decreases n - visited@.len(),
        {
            visited.push(false);
        }
        proof {
            lemma_count_all_false(visited@, n as int);
        }
        let ghost visf = visited@;
        visited[0] = true;
        proof {
            lemma_count_true_update(visf, visited@, 0, n as int);
        }
        let mut stack: Vec<usize> = Vec::new();
        stack.push(0);
        proof {
            assert(stack@[0] == 0usize);
            assert(stack@.contains(0usize));
            assert forall|w: int|
                0 <= w < n && visited@[w] && !stack@.contains(w as usize) implies closure_at(
                self.arcs@,
                visited@,
                w,
            ) by {
                assert(w == 0 ==> stack@.contains(w as usize));
                assert(!visited@[w] || w == 0);
            }
        }
        while stack.len() > 0
            invariant
                self.wf(),
                self.arcs@ == arcs0,
                self.node_count == n,
                self.initial_caps == old(self).initial_caps,
                self.total_cost == old(self).total_cost,
                visited@.len() == n,
                visited@[0],
                self.tree.nodes@[0] == (TreeNode { dep: 1, parent: None, arc_to_parent: None }),
                self.tree.costs@[0] == 0,
                1 <= count_true(visited@, n as int) <= n,
                forall|j: int|
                    0 <= j < stack@.len() ==> (#[trigger] stack@[j] as int) < n && visited@[stack@[
                        j
                    ] as int],
                forall|v: int| 1 <= v < n && visited@[v] ==> self.node_linked(v),
                forall|v: int|
                    1 <= v < n && visited@[v] ==> visited@[self.tree.nodes@[
                        v
                    ].parent->Some_0 as int],
                forall|v: int| 0 <= v < n && visited@[v] ==> self.pot_bounded(v),
                forall|v: int|
                    0 <= v < n && visited@[v] ==> self.tree.nodes@[v].dep as int <= count_true(
                        visited@,
                        n as int,
                    ),
                forall|w: int|
                    0 <= w < n && visited@[w] && !stack@.contains(w as usize) ==> closure_at(
                        self.arcs@,
                        visited@,
                        w,
                    ),
            decreases n - count_true(visited@, n as int) + stack@.len(),
        {
            let ghost stack0 = stack@;
            let u = stack.pop().unwrap();
            let ghost base = stack@.len() - count_true(visited@, n as int);
            proof {
                assert(stack0 =~= stack@.push(u));
                assert forall|w: int|
                    0 <= w < n && visited@[w] && w != u as int && !stack@.contains(w as usize)
                        implies closure_at(self.arcs@, visited@, w) by {
                    if stack0.contains(w as usize) {
                        let idx = choose|idx: int|
                            0 <= idx < stack0.len() && stack0[idx] == w as usize;
                        if idx < stack0.len() - 1 {
                            assert(stack@[idx] == w as usize);
                            assert(stack@.contains(w as usize));
                        }
                        assert(false);
                    }
                }
            }
            self.dfs_visit(u, &mut visited, &mut stack);
            proof {
                assert forall|w: int|
                    0 <= w < n && visited@[w] && !stack@.contains(w as usize) implies closure_at(
                    self.arcs@,
                    visited@,
                    w,
                ) by {
                    if w != u as int {
                        assert(closure_at(self.arcs@, visited@, w));
                    }
                }
            }
        }
        visited
    }
}

/// With a spanning certificate in hand, any visited set that contains the
/// root and is closed under tree arcs contains every node: each node's
/// parent chain leads down to the root through tree arcs.
proof fn lemma_cert_all_visited(sold: Solution, snew: Solution, vis: Seq<bool>, v: int)
    requires
        sold.wf(),
        sold.cert(),
        snew.arcs@ == sold.arcs@,
        snew.node_count == sold.node_count,
        vis.len() == sold.node_count,
        vis[0],
        forall|w: int| 0 <= w < snew.node_count && vis[w] ==> closure_at(snew.arcs@, vis, w),
        0 <= v < sold.node_count,
    ensures
        vis[v],
    decreases sold.tree.nodes@[v].dep,
{
    if v != 0 {
        assert(sold.node_linked(v));
        let p = sold.tree.nodes@[v].parent->Some_0 as int;
        let a = sold.tree.nodes@[v].arc_to_parent->Some_0 as int;
        lemma_cert_all_visited(sold, snew, vis, p);
        let b = pair_idx(a);
        assert(pair_mirrored(sold.arcs@, a));
        assert(2 <= b < sold.arcs@.len());
        assert(sold.arcs@[b].on_tree && sold.arcs@[b].start == p && sold.arcs@[b].end == v);
        assert(closure_at(snew.arcs@, vis, p));
    }
}

/// Two potential assignments that both zero every tree arc and both vanish
/// at the root agree everywhere the new parent chains reach.
proof fn lemma_pots_agree(sold: Solution, snew: Solution, v: int)
    requires
        sold.wf(),
        sold.cert(),
        sold.tree_zeroed(),
        snew.arcs@ == sold.arcs@,
        snew.node_count == sold.node_count,
        snew.cert(),
        0 <= v < sold.node_count,
    ensures
        snew.tree.costs@[v] == sold.tree.costs@[v],
    decreases snew.tree.nodes@[v].dep,
{
    if v != 0 {
        assert(snew.node_linked(v));
        let p = snew.tree.nodes@[v].parent->Some_0 as int;
        let a = snew.tree.nodes@[v].arc_to_parent->Some_0 as int;
        lemma_pots_agree(sold, snew, p);
        assert(sold.red_cost(a) == 0);
    }
}

proof fn lemma_pots_agree_all(sold: Solution, snew: Solution)
    requires
        sold.wf(),
        sold.cert(),
        sold.tree_zeroed(),
        snew.arcs@ == sold.arcs@,
        snew.node_count == sold.node_count,
        snew.tree.costs@.len() == sold.tree.costs@.len(),
        snew.cert(),
    ensures
        snew.tree.costs@ == sold.tree.costs@,
        forall|i: int| 0 <= i < snew.arcs@.len() ==> snew.red_cost(i) == sold.red_cost(i),
{
    assert forall|v: int| 0 <= v < snew.tree.costs@.len() implies snew.tree.costs@[v]
        == sold.tree.costs@[v] by {
        lemma_pots_agree(sold, snew, v);
    }
    assert(snew.tree.costs@ =~= sold.tree.costs@);
}

/// A spanning certificate projects onto the tree-walk invariant that
/// `Tree::traverse` needs.
proof fn lemma_cert_tree_linked(s: Solution)
    requires
        s.wf(),
        s.cert(),
    ensures
        tree_linked(s.tree),
{
    assert forall|v: int| 0 <= v < s.tree.nodes@.len() implies 1 <= (#[trigger] s.tree.nodes@[
        v
    ]).dep by {
        if v != 0 {
            assert(s.node_linked(v));
        }
    }
    assert forall|v: int| 1 <= v < s.tree.nodes@.len() implies node_chained(s.tree, v) by {
        assert(s.node_linked(v));
    }
}

/// The spanning law: between pivots (after any successful potential refresh,
/// and so whenever the solver hands back control) the tree-marked arcs join
/// all the nodes — any collection of nodes that holds the root and is closed
/// under tree arcs holds every node.  Together with `wf`, which fixes the
/// number of tree-marked pairs at `node_count - 1`, the marked arcs form a
/// spanning tree.
pub proof fn lemma_tree_spans(s: Solution, group: Set<int>, v: int)
    requires
        s.wf(),
        s.cert(),
        group.contains(0),
        forall|i: int|
            2 <= i < s.arcs@.len() && (#[trigger] s.arcs@[i]).on_tree && group.contains(
                s.arcs@[i].start as int,
            ) ==> group.contains(s.arcs@[i].end as int),
        0 <= v < s.node_count,
    ensures
        group.contains(v),
    decreases s.tree.nodes@[v].dep,
{
    if v != 0 {
        assert(s.node_linked(v));
        let p = s.tree.nodes@[v].parent->Some_0 as int;
        let a = s.tree.nodes@[v].arc_to_parent->Some_0 as int;
        lemma_tree_spans(s, group, p);
        let b = pair_idx(a);
        assert(pair_mirrored(s.arcs@, a));
        assert(2 <= b < s.arcs@.len());
        assert(s.arcs@[b].on_tree && s.arcs@[b].start == p && s.arcs@[b].end == v);
    }
}

/// A collection of nodes is closed under the tree-marked arcs.
pub open spec fn group_closed(arcs: Seq<Arc>, group: Set<int>) -> bool {
    forall|i: int|
        2 <= i < arcs.len() && (#[trigger] arcs[i]).on_tree && group.contains(
            arcs[i].start as int,
        ) ==> group.contains(arcs[i].end as int)
}

/// The tree-marked arcs join all nodes to the root: any collection of nodes
/// that holds the root and is closed under marked arcs holds every node.
pub open spec fn marks_span(arcs: Seq<Arc>, n: int) -> bool {
    forall|group: Set<int>|
        #![trigger group_closed(arcs, group)]
        group_closed(arcs, group) && group.contains(0) ==> forall|v: int|
            0 <= v < n ==> group.contains(v)
}

/// The pair number of arc index `i`: pairs sit at positions `(2q+2, 2q+3)`.
pub open spec fn pair_no(i: int) -> int {
    (i - 2) / 2
}

/// Whether the pair at `q` holds the parent arc of some node below `vmax`.
pub open spec fn pair_covered(s: Solution, q: int, vmax: int) -> bool {
    exists|v: int|
        1 <= v < vmax && (#[trigger] s.tree.nodes@[v]).arc_to_parent is Some && pair_no(
            s.tree.nodes@[v].arc_to_parent->Some_0 as int,
        ) == q
}

/// How many of the first `k` pairs hold a parent arc of a node below `vmax`.
pub open spec fn covered_count(s: Solution, k: int, vmax: int) -> int
    decreases k,
{
    if k <= 0 {
        0
    } else {
        covered_count(s, k - 1, vmax) + if pair_covered(s, k - 1, vmax) {
            1int
        } else {
            0int
        }
    }
}

proof fn lemma_covered_count_base(s: Solution, k: int)
    ensures
        covered_count(s, k, 1) == 0,
    decreases k,
{
    if k > 0 {
        lemma_covered_count_base(s, k - 1);
        assert(!pair_covered(s, k - 1, 1));
    }
}

proof fn lemma_covered_count_frame(s: Solution, k: int, m: int, qstar: int)
    requires
        forall|q: int|
            0 <= q < k && q != qstar ==> (#[trigger] pair_covered(s, q, m + 1) <==> pair_covered(
                s,
                q,
                m,
            )),
        !pair_covered(s, qstar, m),
        pair_covered(s, qstar, m + 1),
    ensures
        covered_count(s, k, m + 1) == covered_count(s, k, m) + (if 0 <= qstar < k {
            1int
        } else {
            0int
        }),
    decreases k,
{
    if k > 0 {
        lemma_covered_count_frame(s, k - 1, m, qstar);
    }
}

/// Distinct nodes keep their parent arcs in distinct pairs: two nodes sharing
/// a pair would be each other's parent, which the depths forbid.
proof fn lemma_covered_pointwise(s: Solution, m: int)
    requires
        s.wf(),
        s.cert(),
        1 <= m < s.node_count,
    ensures
        forall|q: int|
            #[trigger] pair_covered(s, q, m + 1) <==> (pair_covered(s, q, m) || q == pair_no(
                s.tree.nodes@[m].arc_to_parent->Some_0 as int,
            )),
        !pair_covered(s, pair_no(s.tree.nodes@[m].arc_to_parent->Some_0 as int), m),
{
    assert(s.node_linked(m));
    let am = s.tree.nodes@[m].arc_to_parent->Some_0 as int;
    let qstar = pair_no(am);
    assert forall|q: int|
        #[trigger] pair_covered(s, q, m + 1) <==> (pair_covered(s, q, m) || q == qstar) by {
        if pair_covered(s, q, m) {
            let v = choose|v: int|
                1 <= v < m && (#[trigger] s.tree.nodes@[v]).arc_to_parent is Some && pair_no(
                    s.tree.nodes@[v].arc_to_parent->Some_0 as int,
                ) == q;
            assert(1 <= v < m + 1 && s.tree.nodes@[v].arc_to_parent is Some && pair_no(
                s.tree.nodes@[v].arc_to_parent->Some_0 as int,
            ) == q);
        }
        if q == qstar {
            assert(1 <= m < m + 1 && s.tree.nodes@[m].arc_to_parent is Some && pair_no(
                s.tree.nodes@[m].arc_to_parent->Some_0 as int,
            ) == q);
        }
        if pair_covered(s, q, m + 1) && !pair_covered(s, q, m) {
            let v = choose|v: int|
                1 <= v < m + 1 && (#[trigger] s.tree.nodes@[v]).arc_to_parent is Some && pair_no(
                    s.tree.nodes@[v].arc_to_parent->Some_0 as int,
                ) == q;
            assert(v == m);
        }
    }
    if pair_covered(s, qstar, m) {
        let v = choose|v: int|
            1 <= v < m && (#[trigger] s.tree.nodes@[v]).arc_to_parent is Some && pair_no(
                s.tree.nodes@[v].arc_to_parent->Some_0 as int,
            ) == qstar;
        assert(s.node_linked(v));
        let av = s.tree.nodes@[v].arc_to_parent->Some_0 as int;
        assert(av == am || av == pair_idx(am));
        if av == am {
            assert(s.arcs@[av].start == v && s.arcs@[am].start == m);
        } else {
            assert(pair_mirrored(s.arcs@, am));
            assert(s.arcs@[av].start == s.arcs@[am].end);
            assert(v as int == s.tree.nodes@[m].parent->Some_0 as int);
            assert(s.arcs@[av].end == s.arcs@[am].start);
            assert(s.tree.nodes@[v].parent->Some_0 == m);
            assert(s.tree.nodes@[v].dep == s.tree.nodes@[m].dep + 1);
            assert(s.tree.nodes@[m].dep == s.tree.nodes@[v].dep + 1);
        }
        assert(false);
    }
}

proof fn lemma_covered_le_marked(s: Solution, k: int, vmax: int)
    requires
        s.wf(),
        s.cert(),
        vmax <= s.node_count,
        2 * k < s.arcs@.len(),
    ensures
        covered_count(s, k, vmax) <= tree_pairs(s.arcs@, k),
        0 <= covered_count(s, k, vmax),
    decreases k,
{
    if k > 0 {
        lemma_covered_le_marked(s, k - 1, vmax);
        if pair_covered(s, k - 1, vmax) {
            let v = choose|v: int|
                1 <= v < vmax && (#[trigger] s.tree.nodes@[v]).arc_to_parent is Some && pair_no(
                    s.tree.nodes@[v].arc_to_parent->Some_0 as int,
                ) == k - 1;
            assert(s.node_linked(v));
            let av = s.tree.nodes@[v].arc_to_parent->Some_0 as int;
            assert(av == 2 * k || av == 2 * k + 1);
            assert(pair_mirrored(s.arcs@, av));
            assert(s.arcs@[2 * k].on_tree);
        }
    }
}

/// Every non-root node contributes a fresh covered pair, so all
/// `node_count - 1` covered pairs are distinct.
proof fn lemma_covered_count_all(s: Solution, vmax: int)
    requires
        s.wf(),
        s.cert(),
        1 <= vmax <= s.node_count,
    ensures
        covered_count(s, npairs(s.arcs@), vmax) == vmax - 1,
    decreases vmax,
{
    if vmax == 1 {
        lemma_covered_count_base(s, npairs(s.arcs@));
    } else {
        lemma_covered_count_all(s, vmax - 1);
        lemma_covered_pointwise(s, vmax - 1);
        assert(s.node_linked(vmax - 1));
        let am = s.tree.nodes@[vmax - 1].arc_to_parent->Some_0 as int;
        assert(0 <= pair_no(am) < npairs(s.arcs@));
        lemma_covered_count_frame(s, npairs(s.arcs@), vmax - 1, pair_no(am));
    }
}

/// Under a fresh spanning certificate, every tree-marked arc is some node's
/// parent arc or its pair, and so has reduced cost zero: there are exactly
/// `node_count - 1` marked pairs, and the `node_count - 1` parent arcs sit in
/// distinct pairs, so they exhaust the marked pairs.
proof fn lemma_cert_marks_zeroed(s: Solution)
    requires
        s.wf(),
        s.cert(),
    ensures
        s.tree_zeroed(),
{
    let np = npairs(s.arcs@);
    lemma_covered_count_all(s, s.node_count as int);
    assert forall|k: int| 0 <= k <= np implies covered_count(s, k, s.node_count as int)
        <= tree_pairs(s.arcs@, k) && 0 <= covered_count(s, k, s.node_count as int) by {
        lemma_covered_le_marked(s, k, s.node_count as int);
    }
    assert forall|i: int|
        2 <= i < s.arcs@.len() && (#[trigger] s.arcs@[i]).on_tree implies s.red_cost(i) == 0 by {
        let q = pair_no(i);
        assert(i == 2 * q + 2 || i == 2 * q + 3);
        assert(0 <= q < np);
        assert(pair_mirrored(s.arcs@, i));
        assert(s.arcs@[2 * q + 2].on_tree);
        lemma_marked_is_covered(s, q);
        let v = choose|v: int|
            1 <= v < s.node_count && (#[trigger] s.tree.nodes@[v]).arc_to_parent is Some
                && pair_no(s.tree.nodes@[v].arc_to_parent->Some_0 as int) == q;
        assert(s.node_linked(v));
        let av = s.tree.nodes@[v].arc_to_parent->Some_0 as int;
        assert(s.red_cost(av) == 0);
        assert(pair_mirrored(s.arcs@, av));
        assert(s.red_cost(pair_idx(av)) == 0);
        assert(i == av || i == pair_idx(av));
    }
}

/// With the covered count equal to the marked count, a marked pair that no
/// parent arc covers cannot exist: the counts would then differ.
proof fn lemma_marked_is_covered(s: Solution, q: int)
    requires
        s.wf(),
        s.cert(),
        0 <= q < npairs(s.arcs@),
        s.arcs@[2 * q + 2].on_tree,
        covered_count(s, npairs(s.arcs@), s.node_count as int) == s.node_count - 1,
        forall|k: int|
            0 <= k <= npairs(s.arcs@) ==> #[trigger] covered_count(s, k, s.node_count as int)
                <= tree_pairs(s.arcs@, k) && 0 <= covered_count(s, k, s.node_count as int),
    ensures
        pair_covered(s, q, s.node_count as int),
{
    if !pair_covered(s, q, s.node_count as int) {
        lemma_count_gap(s, q, npairs(s.arcs@));
    }
}

/// If some marked pair below `k` is uncovered, the covered count falls
/// strictly short of the marked count at `k`.
proof fn lemma_count_gap(s: Solution, q: int, k: int)
    requires
        s.wf(),
        s.cert(),
        0 <= q < k,
        2 * k < s.arcs@.len(),
        s.arcs@[2 * q + 2].on_tree,
        !pair_covered(s, q, s.node_count as int),
    ensures
        covered_count(s, k, s.node_count as int) < tree_pairs(s.arcs@, k),
    decreases k,
{
    if q == k - 1 {
        lemma_covered_le_marked(s, k - 1, s.node_count as int);
    } else {
        lemma_count_gap(s, q, k - 1);
        if pair_covered(s, k - 1, s.node_count as int) {
            let v = choose|v: int|
                1 <= v < s.node_count && (#[trigger] s.tree.nodes@[v]).arc_to_parent is Some
                    && pair_no(s.tree.nodes@[v].arc_to_parent->Some_0 as int) == k - 1;
            assert(s.node_linked(v));
            let av = s.tree.nodes@[v].arc_to_parent->Some_0 as int;
            assert(av == 2 * k || av == 2 * k + 1);
            assert(pair_mirrored(s.arcs@, av));
            assert(s.arcs@[2 * k].on_tree);
        }
    }
}

/// With consistent potentials (every tree arc at reduced cost zero), the
/// costs along a tree path telescope to the potential difference of its
/// endpoints.
proof fn lemma_path_cost_sum(s: Solution, a: int, b: int)
    requires
        s.wf(),
        s.cert(),
        s.tree_zeroed(),
        0 <= a < s.node_count,
        0 <= b < s.node_count,
    ensures
        seq_cost_sum(s.arcs@, tree_path(s.tree, a, b)) == s.tree.costs@[a] - s.tree.costs@[b],
    decreases s.tree.nodes@[a].dep + s.tree.nodes@[b].dep,
{
    lemma_cert_tree_linked(s);
    let t = s.tree;
    if a == b {
        assert(seq_cost_sum(s.arcs@, tree_path(t, a, b)) == 0);
    } else if t.nodes@[a].dep > t.nodes@[b].dep {
        assert(s.node_linked(a));
        let p = t.nodes@[a].parent->Some_0 as int;
        let au = t.nodes@[a].arc_to_parent->Some_0;
        lemma_path_cost_sum(s, p, b);
        assert(s.red_cost(au as int) == 0);
        let rest = tree_path(t, p, b);
        assert(tree_path(t, a, b) == seq![au].add(rest));
        assert(seq![au].add(rest).drop_first() =~= rest);
        assert(seq![au].add(rest)[0] == au);
        assert(seq_cost_sum(s.arcs@, tree_path(t, a, b)) == s.arcs@[au as int].cost_per_unit
            + seq_cost_sum(s.arcs@, rest));
        assert(s.arcs@[au as int].cost_per_unit == t.costs@[a] - t.costs@[p]);
    } else if t.nodes@[a].dep < t.nodes@[b].dep {
        assert(s.node_linked(b));
        let p = t.nodes@[b].parent->Some_0 as int;
        let bu = t.nodes@[b].arc_to_parent->Some_0;
        lemma_path_cost_sum(s, a, p);
        assert(s.red_cost(bu as int) == 0);
        assert(pair_mirrored(s.arcs@, bu as int));
        assert(pair_of(bu) as int == pair_idx(bu as int));
        let rest = tree_path(t, a, p);
        assert(tree_path(t, a, b) == seq![pair_of(bu)].add(rest));
        assert(seq![pair_of(bu)].add(rest).drop_first() =~= rest);
        assert(seq![pair_of(bu)].add(rest)[0] == pair_of(bu));
        assert(s.arcs@[bu as int].cost_per_unit == t.costs@[b] - t.costs@[p]);
        assert(s.arcs@[pair_of(bu) as int].cost_per_unit == t.costs@[p] - t.costs@[b]);
        assert(seq_cost_sum(s.arcs@, tree_path(t, a, b)) == s.arcs@[
            pair_of(bu) as int
        ].cost_per_unit + seq_cost_sum(s.arcs@, rest));
    } else {
        proof_same_depth_not_root(s, a, b);
        assert(s.node_linked(a));
        assert(s.node_linked(b));
        let pa = t.nodes@[a].parent->Some_0 as int;
        let pb = t.nodes@[b].parent->Some_0 as int;
        let au = t.nodes@[a].arc_to_parent->Some_0;
        let bu = t.nodes@[b].arc_to_parent->Some_0;
        lemma_path_cost_sum(s, pa, pb);
        assert(s.red_cost(au as int) == 0);
        assert(s.red_cost(bu as int) == 0);
        assert(pair_mirrored(s.arcs@, bu as int));
        assert(pair_of(bu) as int == pair_idx(bu as int));
        let rest = tree_path(t, pa, pb);
        assert(tree_path(t, a, b) == seq![au, pair_of(bu)].add(rest));
        assert(seq![au, pair_of(bu)].add(rest)[0] == au);
        assert(seq![au, pair_of(bu)].add(rest).drop_first() =~= seq![pair_of(bu)].add(rest));
        assert(seq![pair_of(bu)].add(rest)[0] == pair_of(bu));
        assert(seq![pair_of(bu)].add(rest).drop_first() =~= rest);
        assert(s.arcs@[au as int].cost_per_unit == t.costs@[a] - t.costs@[pa]);
        assert(s.arcs@[bu as int].cost_per_unit == t.costs@[b] - t.costs@[pb]);
        assert(s.arcs@[pair_of(bu) as int].cost_per_unit == t.costs@[pb] - t.costs@[b]);
        assert(seq_cost_sum(s.arcs@, seq![pair_of(bu)].add(rest)) == s.arcs@[
            pair_of(bu) as int
        ].cost_per_unit + seq_cost_sum(s.arcs@, rest));
        assert(seq_cost_sum(s.arcs@, tree_path(t, a, b)) == s.arcs@[au as int].cost_per_unit
            + s.arcs@[pair_of(bu) as int].cost_per_unit + seq_cost_sum(s.arcs@, rest));
    }
}

/// Two distinct nodes at equal depth are both below the root.
proof fn proof_same_depth_not_root(s: Solution, a: int, b: int)
    requires
        s.wf(),
        s.cert(),
        0 <= a < s.node_count,
        0 <= b < s.node_count,
        a != b,
        s.tree.nodes@[a].dep == s.tree.nodes@[b].dep,
    ensures
        a != 0,
        b != 0,
{
    if a == 0 || b == 0 {
        if a != 0 {
            assert(s.node_linked(a));
        }
        if b != 0 {
            assert(s.node_linked(b));
        }
    }
}

/// Everything the tree walk emits is a valid tree-marked arc index: it is
/// some node's parent arc or that arc's pair, and the certificate bounds
/// those and marks them.
proof fn lemma_cycle_arc_ok(s: Solution, e: usize)
    requires
        s.wf(),
        s.cert(),
        emitted_arc(s.tree, e),
    ensures
        2 <= (e as int) < s.arcs@.len(),
        s.arcs@[e as int].on_tree,
{
    let v = choose|v: int|
        1 <= v < s.tree.nodes@.len() && (#[trigger] s.tree.nodes@[v]).arc_to_parent is Some && {
            let a = s.tree.nodes@[v].arc_to_parent->Some_0;
            e == a || e as int == pair_idx(a as int)
        };
    assert(s.node_linked(v));
    let a = s.tree.nodes@[v].arc_to_parent->Some_0;
    assert(pair_mirrored(s.arcs@, a as int));
    assert(2 <= pair_idx(a as int) < s.arcs@.len());
}

impl Solution {
    /// Recomputes depths, parents and potentials from the root over the
    /// current tree arcs; the walk must reach every node, else the network is
    /// reported disconnected.  A full walk zeroes the reduced cost of every
    /// tree arc, and whenever the marked arcs join all nodes the walk cannot
    /// fail.  Potentials are a function of the tree alone, so a refresh of an
    /// already consistent state succeeds and reproduces the same potentials.
    #[verifier::rlimit(100)]
    fn refresh_tree(&mut self) -> (r: Result<(), FlowError>)
        requires
            old(self).wf(),
        ensures
            final(self).wf(),
            final(self).arcs@ == old(self).arcs@,
            final(self).node_count == old(self).node_count,
            final(self).initial_caps == old(self).initial_caps,
            final(self).total_cost == old(self).total_cost,
            r is Ok ==> final(self).cert() && final(self).tree_zeroed(),
            r is Err ==> r->Err_0 is DisconnectedNetwork,
            marks_span(old(self).arcs@, old(self).node_count as int) ==> r is Ok,
            old(self).cert() && old(self).tree_zeroed() ==> r is Ok && final(self).tree.costs@
                == old(self).tree.costs@,
    {
        let ghost sold = *old(self);
        let visited = self.dfs_build_tree();
        let n = self.node_count;
        let mut v: usize = 0;
        while v < n
            invariant
                v <= n,
                forall|x: int| 0 <= x < v ==> visited@[x],
            decreases n - v,
        {
            if !visited[v] {
                proof {
                    if sold.cert() && sold.tree_zeroed() {
                        lemma_cert_all_visited(sold, *self, visited@, v as int);
                    }
                    if marks_span(sold.arcs@, sold.node_count as int) {
                        let group = Set::new(
                            |x: int| 0 <= x < sold.node_count && visited@[x],
                        );
                        assert forall|i: int|
                            2 <= i < sold.arcs@.len() && (#[trigger] sold.arcs@[i]).on_tree
                                && group.contains(sold.arcs@[i].start as int) implies
                            group.contains(sold.arcs@[i].end as int) by {
                            assert(visited@[sold.arcs@[i].start as int]);
                            assert(closure_at(self.arcs@, visited@, sold.arcs@[i].start as int));
                            assert(visited@[sold.arcs@[i].end as int]);
                        }
                        assert(group_closed(sold.arcs@, group));
                        assert(group.contains(0));
                        assert(group.contains(v as int));
                        assert(false);
                    }
                }
                return Err(FlowError::DisconnectedNetwork);
            }
            v += 1;
        }
        proof {
            assert forall|w: int| 1 <= w < self.node_count implies self.node_linked(w) by {
                assert(visited@[w]);
            }
            assert forall|w: int| 0 <= w < self.node_count implies self.pot_bounded(w) by {
                assert(visited@[w]);
            }
            assert(self.cert());
            lemma_cert_marks_zeroed(*self);
            if sold.cert() && sold.tree_zeroed() {
                lemma_pots_agree_all(sold, *self);
            }
        }
        Ok(())
    }

    /// Refreshes the potentials, then scans every non-tree arc with residual
    /// capacity and picks the one with the most negative reduced cost, the
    /// first such in index order.  `None` means the flow is optimal.
    fn find_arc_to_augment(&mut self) -> (r: Result<Option<usize>, FlowError>)
        requires
            old(self).wf(),
        ensures
            final(self).wf(),
            final(self).arcs@ == old(self).arcs@,
            final(self).node_count == old(self).node_count,
            final(self).initial_caps == old(self).initial_caps,
            final(self).total_cost == old(self).total_cost,
            r is Ok ==> final(self).cert() && final(self).tree_zeroed(),
            r is Ok && r->Ok_0 is None ==> final(self).at_optimum(),
            r is Ok && r->Ok_0 is Some ==> {
                let t = r->Ok_0->Some_0 as int;
                &&& 2 <= t < final(self).arcs@.len()
                &&& final(self).candidate(t)
                &&& final(self).red_cost(t) < 0
                &&& forall|j: int|
                    2 <= j < final(self).arcs@.len() && final(self).candidate(j) ==> final(self).red_cost(t)
                        <= final(self).red_cost(j)
                &&& forall|j: int|
                    2 <= j < t && final(self).candidate(j) ==> final(self).red_cost(t) < final(self).red_cost(j)
            },
            r is Err ==> r->Err_0 is DisconnectedNetwork,
            marks_span(old(self).arcs@, old(self).node_count as int) ==> r is Ok,
            old(self).cert() && old(self).tree_zeroed() ==> r is Ok && final(self).tree.costs@
                == old(self).tree.costs@,
    {
        match self.refresh_tree() {
            Err(e) => {
                return Err(e);
            },
            Ok(()) => {},
        }
        let m = self.arcs.len();
        let mut best: i64 = 0;
        let mut found: Option<usize> = None;
        let mut i: usize = 2;
        while i < m
            invariant
                2 <= i <= m,
                m == self.arcs@.len(),
                found is None ==> best == 0 && forall|j: int|
                    2 <= j < i && self.candidate(j) ==> self.red_cost(j) >= 0,
                found is Some ==> {
                    let t = found->Some_0 as int;
                    &&& 2 <= t < i
                    &&& self.candidate(t)
                    &&& best as int == self.red_cost(t)
                    &&& best < 0
                    &&& forall|j: int|
                        2 <= j < i && self.candidate(j) ==> best as int <= self.red_cost(j)
                    &&& forall|j: int|
                        2 <= j < t && self.candidate(j) ==> (best as int) < self.red_cost(j)
                },
            decreases m - i,
        {
            let a = self.arcs[i];
            if !a.on_tree && a.capacity > 0 {
                proof {
                    assert(self.pot_bounded(a.start as int));
                    assert(self.pot_bounded(a.end as int));
                    if a.start != 0 {
                        assert(self.node_linked(a.start as int));
                    }
                    if a.end != 0 {
                        assert(self.node_linked(a.end as int));
                    }
                }
                let now: i64 = (a.cost_per_unit as i64) - self.tree.costs[a.start]
                    + self.tree.costs[a.end];
                if now < best {
                    best = now;
                    found = Some(i);
                }
            }
            i += 1;
        }
        proof {
            if found is None {
                assert forall|j: int|
                    2 <= j < self.arcs@.len() && (#[trigger] self.arcs@[j]).capacity > 0 implies
                    self.red_cost(j) >= 0 by {
                    if self.arcs@[j].on_tree {
                        assert(self.red_cost(j) == 0);
                    } else {
                        assert(self.candidate(j));
                    }
                }
            }
        }
        Ok(found)
    }

    /// Moves `delta` units of capacity from arc `t` to its residual twin and
    /// charges `delta` times the arc's unit cost to the accumulated total.
    /// Nothing is changed when the move would underflow the arc or overflow
    /// the total.
    #[verifier::rlimit(100)]
    fn push_flow(&mut self, t: usize, delta: u32) -> (r: Result<(), FlowError>)
        requires
            old(self).wf(),
            2 <= (t as int) < old(self).arcs@.len(),
        ensures
            final(self).wf(),
            final(self).node_count == old(self).node_count,
            final(self).initial_caps == old(self).initial_caps,
            final(self).tree == old(self).tree,
            final(self).arcs@.len() == old(self).arcs@.len(),
            forall|i: int|
                0 <= i < old(self).arcs@.len() ==> {
                    let fa = final(self).arcs@[i];
                    let oa = #[trigger] old(self).arcs@[i];
                    fa.start == oa.start && fa.end == oa.end && fa.cost_per_unit
                        == oa.cost_per_unit && fa.on_tree == oa.on_tree
                },
            all_pairs_conserved(final(self).arcs@, old(self).arcs@),
            r is Ok ==> final(self).arcs@[t as int].capacity == old(self).arcs@[
                t as int
            ].capacity - delta && final(self).arcs@[pair_idx(t as int)].capacity == old(self).arcs@[pair_idx(t as int)].capacity + delta && forall|i: int|
                0 <= i < old(self).arcs@.len() && i != t as int && i != pair_idx(t as int)
                    ==> (#[trigger] final(self).arcs@[i]).capacity == old(self).arcs@[i].capacity,
            r is Ok ==> final(self).total_cost as int == old(self).total_cost + (delta as int)
                * old(self).arcs@[t as int].cost_per_unit,
            r is Ok ==> forall|v: int|
                net_flow(
                    final(self).arcs@,
                    old(self).initial_caps@,
                    v,
                    npairs(old(self).arcs@),
                ) == net_flow(old(self).arcs@, old(self).initial_caps@, v, npairs(old(self).arcs@))
                    + (if old(self).arcs@[t as int].start == v {
                    delta as int
                } else {
                    0int
                }) - (if old(self).arcs@[t as int].end == v {
                    delta as int
                } else {
                    0int
                }),
            r is Err ==> final(self).arcs@ == old(self).arcs@ && final(self).total_cost == old(self).total_cost,
            r is Err ==> (r->Err_0 is NumericOverflow || r->Err_0 is InternalInconsistency),
    {
        let ghost a0 = self.arcs@;
        let ghost init = self.initial_caps@;
        let ghost np = npairs(self.arcs@);
        let c = self.arcs[t].capacity;
        if c < delta {
            proof {
                lemma_conserved_refl(self.arcs@);
            }
            return Err(FlowError::InternalInconsistency);
        }
        let p: usize = if t % 2 == 0 {
            t + 1
        } else {
            t - 1
        };
        proof {
            assert(p as int == pair_idx(t as int));
            assert(pair_mirrored(a0, t as int));
            assert(pair_cap_ok(a0, init, t as int));
            assert(a0[t as int].capacity + a0[p as int].capacity == init[t as int] + init[
                p as int
            ]);
            assert(init[t as int] + init[p as int] <= u32::MAX);
        }
        let cost = self.arcs[t].cost_per_unit;
        proof {
            assert((cost as int) * (delta as int) <= 0x7fff_ffff_ffff_ffff && (cost as int) * (
            delta as int) >= -0x8000_0000_0000_0000) by (nonlinear_arith)
                requires
                    -0x8000_0000 <= cost as int <= 0x7fff_ffff,
                    0 <= delta as int <= 0xffff_ffff,
            ;
        }
        let prod: i64 = (cost as i64) * (delta as i64);
        if prod > 0 && self.total_cost > i64::MAX - prod {
            proof {
                lemma_conserved_refl(self.arcs@);
            }
            return Err(FlowError::NumericOverflow);
        }
        if prod < 0 && self.total_cost < i64::MIN - prod {
            proof {
                lemma_conserved_refl(self.arcs@);
            }
            return Err(FlowError::NumericOverflow);
        }
        let mut at = self.arcs[t];
        at.capacity = c - delta;
        self.arcs[t] = at;
        let ghost a1 = self.arcs@;
        let mut ap = self.arcs[p];
        ap.capacity = ap.capacity + delta;
        self.arcs[p] = ap;
        self.total_cost = self.total_cost + prod;
        proof {
            let a2 = self.arcs@;
            assert(2 * np == a0.len() - 2);
            lemma_flow_cost_shift(a0, a1, a2, init, t as int, p as int, delta as int);
            assert(prod as int == (delta as int) * (cost as int)) by (nonlinear_arith)
                requires
                    prod as int == (cost as i64 as int) * (delta as i64 as int),
                    cost as i64 as int == cost as int,
                    delta as i64 as int == delta as int,
            ;
            lemma_caps_ok_shift(a0, a2, init, t as int, p as int, delta as int);
            lemma_arcs_wf_same_shape(a0, a2, self.node_count as int);
            lemma_tree_pairs_update(a0, a1, t as int, np);
            lemma_tree_pairs_update(a1, a2, p as int, np);
            assert forall|v: int|
                net_flow(a2, init, v, np) == net_flow(a0, init, v, np) + (if a0[
                t as int
            ].start == v {
                delta as int
            } else {
                0int
            }) - (if a0[t as int].end == v {
                delta as int
            } else {
                0int
            }) by {
                lemma_net_flow_update(a0, a1, init, t as int, v, np);
                lemma_net_flow_update(a1, a2, init, p as int, v, np);
                assert(a0[p as int].start == a0[t as int].end);
                assert(a0[p as int].end == a0[t as int].start);
            }
            assert(self.wf());
        }
        Ok(())
    }

    /// Brings the entering pair onto the tree and takes the leaving pair off.
    #[verifier::rlimit(100)]
    fn swap_tree_marks(&mut self, entering: usize, leaving: usize)
        requires
            old(self).wf(),
            2 <= (entering as int) < old(self).arcs@.len(),
            2 <= (leaving as int) < old(self).arcs@.len(),
            !old(self).arcs@[entering as int].on_tree,
            old(self).arcs@[leaving as int].on_tree,
        ensures
            final(self).wf(),
            final(self).node_count == old(self).node_count,
            final(self).initial_caps == old(self).initial_caps,
            final(self).tree == old(self).tree,
            final(self).total_cost == old(self).total_cost,
            final(self).arcs@.len() == old(self).arcs@.len(),
            forall|i: int|
                0 <= i < old(self).arcs@.len() ==> {
                    let fa = final(self).arcs@[i];
                    let oa = #[trigger] old(self).arcs@[i];
                    fa.start == oa.start && fa.end == oa.end && fa.cost_per_unit
                        == oa.cost_per_unit && fa.capacity == oa.capacity
                },
            final(self).arcs@[entering as int].on_tree,
            final(self).arcs@[pair_idx(entering as int)].on_tree,
            !final(self).arcs@[leaving as int].on_tree,
            !final(self).arcs@[pair_idx(leaving as int)].on_tree,
            forall|i: int|
                0 <= i < old(self).arcs@.len() && i != entering as int && i != pair_idx(
                    entering as int,
                ) && i != leaving as int && i != pair_idx(leaving as int) ==> (
                #[trigger] final(self).arcs@[i]).on_tree == old(self).arcs@[i].on_tree,
    {
        let ghost a0 = self.arcs@;
        let ghost init = self.initial_caps@;
        let ghost np = npairs(self.arcs@);
        let pe: usize = if entering % 2 == 0 {
            entering + 1
        } else {
            entering - 1
        };
        let pl: usize = if leaving % 2 == 0 {
            leaving + 1
        } else {
            leaving - 1
        };
        proof {
            assert(pe as int == pair_idx(entering as int));
            assert(pl as int == pair_idx(leaving as int));
            assert(pair_mirrored(a0, entering as int));
            assert(pair_mirrored(a0, leaving as int));
            assert(pair_idx(pair_idx(entering as int)) == entering as int);
            assert(pair_idx(pair_idx(leaving as int)) == leaving as int);
        }
        let mut ae = self.arcs[entering];
        ae.on_tree = true;
        self.arcs[entering] = ae;
        let ghost a1 = self.arcs@;
        let mut af = self.arcs[pe];
        af.on_tree = true;
        self.arcs[pe] = af;
        let ghost a2 = self.arcs@;
        let mut al = self.arcs[leaving];
        al.on_tree = false;
        self.arcs[leaving] = al;
        let ghost a3 = self.arcs@;
        let mut ag = self.arcs[pl];
        ag.on_tree = false;
        self.arcs[pl] = ag;
        proof {
            let a4 = self.arcs@;
            assert(2 * np == a0.len() - 2);
            lemma_flow_cost_update(a0, a1, init, entering as int, np);
            assert((a0[entering as int].capacity - a1[entering as int].capacity) * a0[
                entering as int
            ].cost_per_unit == 0) by (nonlinear_arith)
                requires
                    a1[entering as int].capacity == a0[entering as int].capacity,
            ;
            assert(flow_cost(a1, init, np) == flow_cost(a0, init, np));
            lemma_flow_cost_update(a1, a2, init, pe as int, np);
            assert((a1[pe as int].capacity - a2[pe as int].capacity) * a1[
                pe as int
            ].cost_per_unit == 0) by (nonlinear_arith)
                requires
                    a2[pe as int].capacity == a1[pe as int].capacity,
            ;
            assert(flow_cost(a2, init, np) == flow_cost(a1, init, np));
            lemma_flow_cost_update(a2, a3, init, leaving as int, np);
            assert((a2[leaving as int].capacity - a3[leaving as int].capacity) * a2[
                leaving as int
            ].cost_per_unit == 0) by (nonlinear_arith)
                requires
                    a3[leaving as int].capacity == a2[leaving as int].capacity,
            ;
            assert(flow_cost(a3, init, np) == flow_cost(a2, init, np));
            lemma_flow_cost_update(a3, a4, init, pl as int, np);
            assert((a3[pl as int].capacity - a4[pl as int].capacity) * a3[
                pl as int
            ].cost_per_unit == 0) by (nonlinear_arith)
                requires
                    a4[pl as int].capacity == a3[pl as int].capacity,
            ;
            assert(flow_cost(a4, init, np) == flow_cost(a3, init, np));
            assert(np == npairs(a4));
            lemma_wf_after_swap(a0, a4, self.node_count as int, entering as int, leaving as int);
            assert forall|i: int| 2 <= i < a4.len() implies #[trigger] pair_cap_ok(a4, init, i) by {
                assert(pair_cap_ok(a0, init, i));
                assert(2 <= pair_idx(i) < a4.len());
                assert(a4[i].capacity == a0[i].capacity);
                assert(a4[pair_idx(i)].capacity == a0[pair_idx(i)].capacity);
            }
            assert(self.wf());
        }
    }

    /// One simplex pivot: the entering arc closes a cycle with the tree path
    /// between its endpoints; the bottleneck residual capacity on that cycle
    /// is pushed around it, charging the entering arc's reduced cost per
    /// unit, and if the bottleneck was a tree arc, the entering pair replaces
    /// it on the tree.  Capacity within each pair is conserved, and arc
    /// endpoints, costs and the tree state are untouched, in every outcome.
    #[verifier::rlimit(100)]
    fn pivot(&mut self, index: usize) -> (r: Result<(), FlowError>)
        requires
            old(self).wf(),
            old(self).cert(),
            old(self).tree_zeroed(),
            2 <= (index as int) < old(self).arcs@.len(),
            !old(self).arcs@[index as int].on_tree,
            old(self).red_cost(index as int) < 0,
        ensures
            final(self).wf(),
            final(self).node_count == old(self).node_count,
            final(self).initial_caps == old(self).initial_caps,
            final(self).tree == old(self).tree,
            same_shape(final(self).arcs@, old(self).arcs@),
            all_pairs_conserved(final(self).arcs@, old(self).arcs@),
            r is Err ==> (r->Err_0 is NumericOverflow || r->Err_0 is InternalInconsistency),
            r is Ok ==> forall|v: int|
                net_flow(final(self).arcs@, old(self).initial_caps@, v, npairs(old(self).arcs@))
                    == net_flow(
                    old(self).arcs@,
                    old(self).initial_caps@,
                    v,
                    npairs(old(self).arcs@),
                ),
            r is Ok ==> {
                let cyc = old(self).entering_cycle(index as int);
                let d = old(self).cycle_bottleneck(index as int);
                &&& 0 <= d <= old(self).arcs@[index as int].capacity
                &&& final(self).arcs@[index as int].capacity == old(self).arcs@[
                    index as int
                ].capacity - d
                &&& final(self).arcs@[pair_idx(index as int)].capacity == old(self).arcs@[
                    pair_idx(index as int)
                ].capacity + d
                &&& final(self).total_cost == old(self).total_cost + d * old(self).red_cost(
                    index as int,
                )
                &&& final(self).total_cost <= old(self).total_cost
                &&& (d == old(self).arcs@[index as int].capacity ==> forall|i: int|
                    0 <= i < old(self).arcs@.len() ==> (#[trigger] final(self).arcs@[i]).on_tree
                        == old(self).arcs@[i].on_tree)
                &&& (d < old(self).arcs@[index as int].capacity ==> exists|lv: usize|
                    #![auto]
                    {
                        &&& cyc.contains(lv)
                        &&& 2 <= (lv as int) < old(self).arcs@.len()
                        &&& old(self).arcs@[lv as int].on_tree
                        &&& d == old(self).arcs@[lv as int].capacity
                        &&& final(self).arcs@[index as int].on_tree
                        &&& final(self).arcs@[pair_idx(index as int)].on_tree
                        &&& !final(self).arcs@[lv as int].on_tree
                        &&& !final(self).arcs@[pair_idx(lv as int)].on_tree
                        &&& forall|i: int|
                            0 <= i < old(self).arcs@.len() && i != index as int && i != pair_idx(
                                index as int,
                            ) && i != lv as int && i != pair_idx(lv as int) ==> (#[trigger] final(self).arcs@[i]).on_tree == old(self).arcs@[i].on_tree
                    })
            },
    {
        proof {
            lemma_cert_tree_linked(*self);
        }
        let e_end = self.arcs[index].end;
        let e_start = self.arcs[index].start;
        let cycle = self.tree.traverse(e_end, e_start);
        let ghost before = *old(self);
        let ghost cyc = cycle@;
        proof {
            assert(cyc == before.entering_cycle(index as int));
            assert forall|j: int| 0 <= j < cyc.len() implies 2 <= (#[trigger] cyc[
                j
            ] as int) < self.arcs@.len() && self.arcs@[cyc[j] as int].on_tree by {
                lemma_cycle_arc_ok(*self, cyc[j]);
            }
        }
        let mut delta: u32 = self.arcs[index].capacity;
        let mut leaving: usize = index;
        let mut j: usize = 0;
        proof {
            assert(cyc.subrange(0, 0) =~= Seq::<usize>::empty());
        }
        while j < cycle.len()
            invariant
                j <= cyc.len(),
                cycle@ == cyc,
                2 <= (leaving as int) < self.arcs@.len(),
                leaving == index || (self.arcs@[leaving as int].on_tree && cyc.contains(leaving)),
                delta == self.arcs@[leaving as int].capacity,
                leaving != index ==> (delta as int) < self.arcs@[index as int].capacity,
                delta as int == seq_min_cap(
                    self.arcs@,
                    cyc.subrange(0, j as int),
                    self.arcs@[index as int].capacity as int,
                ),
            decreases cyc.len() - j,
        {
            let ci = cycle[j];
            proof {
                assert(cyc.subrange(0, j as int + 1) =~= cyc.subrange(0, j as int).push(ci));
                lemma_min_cap_push(
                    self.arcs@,
                    cyc.subrange(0, j as int),
                    ci,
                    self.arcs@[index as int].capacity as int,
                );
                assert(cyc.contains(ci));
            }
            if self.arcs[ci].capacity < delta {
                delta = self.arcs[ci].capacity;
                leaving = ci;
            }
            j += 1;
        }
        proof {
            assert(cyc.subrange(0, cyc.len() as int) =~= cyc);
            assert(delta as int == before.cycle_bottleneck(index as int));
            lemma_conserved_refl(self.arcs@);
        }
        let ghost d = delta as int;
        let mut j: usize = 0;
        proof {
            assert(cyc.subrange(0, 0) =~= Seq::<usize>::empty());
        }
        while j < cycle.len()
            invariant
                j <= cyc.len(),
                cycle@ == cyc,
                self.wf(),
                self.node_count == before.node_count,
                self.initial_caps == before.initial_caps,
                self.tree == before.tree,
                same_shape(self.arcs@, before.arcs@),
                d == delta as int,
                2 <= (index as int) < self.arcs@.len(),
                2 <= (leaving as int) < self.arcs@.len(),
                leaving == index || self.arcs@[leaving as int].on_tree,
                !self.arcs@[index as int].on_tree,
                all_pairs_conserved(self.arcs@, before.arcs@),
                forall|i: int|
                    0 <= i < before.arcs@.len() ==> (#[trigger] self.arcs@[i]).on_tree
                        == before.arcs@[i].on_tree,
                self.arcs@[index as int].capacity == before.arcs@[index as int].capacity,
                self.arcs@[pair_idx(index as int)].capacity == before.arcs@[
                    pair_idx(index as int)
                ].capacity,
                self.total_cost as int == before.total_cost + d * seq_cost_sum(
                    before.arcs@,
                    cyc.subrange(0, j as int),
                ),
                forall|v: int|
                    net_flow(self.arcs@, before.initial_caps@, v, npairs(before.arcs@))
                        == net_flow(before.arcs@, before.initial_caps@, v, npairs(before.arcs@)) + d
                        * seq_net_at(before.arcs@, cyc.subrange(0, j as int), v),
                forall|jj: int|
                    0 <= jj < cyc.len() ==> 2 <= (#[trigger] cyc[jj] as int) < self.arcs@.len()
                        && before.arcs@[cyc[jj] as int].on_tree,
            decreases cyc.len() - j,
        {
            let ci = cycle[j];
            let ghost mid = *self;
            proof {
                assert(self.arcs@[ci as int].on_tree);
                assert(pair_mirrored(self.arcs@, ci as int));
                assert(self.arcs@[pair_idx(ci as int)].on_tree);
                assert(ci as int != index as int);
                assert(pair_idx(ci as int) != index as int);
                assert(pair_idx(pair_idx(ci as int)) == ci as int);
                assert(ci as int != pair_idx(index as int));
            }
            match self.push_flow(ci, delta) {
                Err(e) => {
                    proof {
                        lemma_conserved_trans(self.arcs@, mid.arcs@, before.arcs@);
                        lemma_same_shape_trans(self.arcs@, mid.arcs@, before.arcs@);
                    }
                    return Err(e);
                },
                Ok(()) => {},
            }
            proof {
                lemma_conserved_trans(self.arcs@, mid.arcs@, before.arcs@);
                lemma_same_shape_trans(self.arcs@, mid.arcs@, before.arcs@);
                assert(cyc.subrange(0, j as int + 1) =~= cyc.subrange(0, j as int).push(ci));
                lemma_cost_sum_push(before.arcs@, cyc.subrange(0, j as int), ci);
                assert(mid.arcs@[ci as int].cost_per_unit == before.arcs@[ci as int].cost_per_unit);
                assert(d * (seq_cost_sum(before.arcs@, cyc.subrange(0, j as int)) + before.arcs@[
                    ci as int
                ].cost_per_unit) == d * seq_cost_sum(before.arcs@, cyc.subrange(0, j as int)) + d
                    * before.arcs@[ci as int].cost_per_unit) by (nonlinear_arith);
                assert(mid.arcs@[ci as int].start == before.arcs@[ci as int].start
                    && mid.arcs@[ci as int].end == before.arcs@[ci as int].end);
                assert forall|v: int|
                    net_flow(self.arcs@, before.initial_caps@, v, npairs(before.arcs@))
                        == net_flow(before.arcs@, before.initial_caps@, v, npairs(before.arcs@)) + d
                        * seq_net_at(before.arcs@, cyc.subrange(0, j as int + 1), v) by {
                    lemma_net_at_push(before.arcs@, cyc.subrange(0, j as int), ci, v);
                    let sa = seq_net_at(before.arcs@, cyc.subrange(0, j as int), v);
                    assert(seq_net_at(before.arcs@, cyc.subrange(0, j as int + 1), v) == sa + (
                    if before.arcs@[ci as int].start == v {
                        1int
                    } else {
                        0int
                    }) - (if before.arcs@[ci as int].end == v {
                        1int
                    } else {
                        0int
                    }));
                    assert(d * (sa + 1) == d * sa + d) by (nonlinear_arith);
                    assert(d * (sa - 1) == d * sa - d) by (nonlinear_arith);
                }
            }
            j += 1;
        }
        proof {
            assert(cyc.subrange(0, cyc.len() as int) =~= cyc);
        }
        let ghost mid2 = *self;
        match self.push_flow(index, delta) {
            Err(e) => {
                proof {
                    lemma_conserved_trans(self.arcs@, mid2.arcs@, before.arcs@);
                    lemma_same_shape_trans(self.arcs@, mid2.arcs@, before.arcs@);
                }
                return Err(e);
            },
            Ok(()) => {},
        }
        proof {
            lemma_conserved_trans(self.arcs@, mid2.arcs@, before.arcs@);
            lemma_same_shape_trans(self.arcs@, mid2.arcs@, before.arcs@);
            lemma_path_cost_sum(before, e_end as int, e_start as int);
            assert(seq_cost_sum(before.arcs@, cyc) == before.tree.costs@[e_end as int]
                - before.tree.costs@[e_start as int]);
            assert(d * (seq_cost_sum(before.arcs@, cyc)) + d * before.arcs@[
                index as int
            ].cost_per_unit == d * before.red_cost(index as int)) by (nonlinear_arith)
                requires
                    seq_cost_sum(before.arcs@, cyc) + before.arcs@[index as int].cost_per_unit
                        == before.red_cost(index as int),
            ;
            assert(d * before.red_cost(index as int) <= 0) by (nonlinear_arith)
                requires
                    d >= 0,
                    before.red_cost(index as int) < 0,
            ;
            assert forall|v: int|
                net_flow(self.arcs@, before.initial_caps@, v, npairs(before.arcs@)) == net_flow(
                before.arcs@,
                before.initial_caps@,
                v,
                npairs(before.arcs@),
            ) by {
                lemma_path_net_at(before, e_end as int, e_start as int, v);
                let sa = seq_net_at(before.arcs@, cyc, v);
                assert(mid2.arcs@[index as int].start == before.arcs@[index as int].start
                    && mid2.arcs@[index as int].end == before.arcs@[index as int].end);
                assert(d * 1int == d && d * (-1int) == -d && d * 0int == 0) by (nonlinear_arith);
                assert(sa == 1 || sa == -1 || sa == 0);
            }
        }
        if leaving != index {
            proof {
                assert(self.arcs@[leaving as int].on_tree);
                assert(!self.arcs@[index as int].on_tree);
            }
            let ghost mid3 = *self;
            self.swap_tree_marks(index, leaving);
            proof {
                lemma_conserved_same_caps(self.arcs@, mid3.arcs@);
                lemma_conserved_trans(self.arcs@, mid3.arcs@, before.arcs@);
                lemma_same_shape_trans(self.arcs@, mid3.arcs@, before.arcs@);
                assert(pair_idx(pair_idx(index as int)) == index as int);
                assert(pair_idx(pair_idx(leaving as int)) == leaving as int);
                assert forall|v: int|
                    net_flow(self.arcs@, before.initial_caps@, v, npairs(before.arcs@))
                        == net_flow(mid3.arcs@, before.initial_caps@, v, npairs(before.arcs@)) by {
                    lemma_net_flow_agree(
                        mid3.arcs@,
                        self.arcs@,
                        before.initial_caps@,
                        v,
                        npairs(before.arcs@),
                    );
                }
            }
        }
        Ok(())
    }

    /// Runs simplex pivots until no arc with residual capacity has negative
    /// reduced cost, or the pivot cap is reached.  Capacity within each arc
    /// pair is conserved and arc endpoints and costs stay fixed whatever the
    /// outcome; on success the net shipped flow at every node is unchanged,
    /// so a network whose nodes were balanced (as built) still carries a
    /// circulation.  A solve started at an optimal state performs no pivot
    /// and leaves the network and the accumulated cost untouched.
    pub fn solve(&mut self, max_pivots: usize) -> (r: Result<(), FlowError>)
        requires
            old(self).wf(),
        ensures
            final(self).wf(),
            final(self).node_count == old(self).node_count,
            final(self).initial_caps == old(self).initial_caps,
            final(self).arcs@.len() == old(self).arcs@.len(),
            same_shape(final(self).arcs@, old(self).arcs@),
            all_pairs_conserved(final(self).arcs@, old(self).arcs@),
            r is Ok ==> forall|v: int|
                net_flow(final(self).arcs@, old(self).initial_caps@, v, npairs(old(self).arcs@))
                    == net_flow(
                    old(self).arcs@,
                    old(self).initial_caps@,
                    v,
                    npairs(old(self).arcs@),
                ),
            r is Ok ==> final(self).at_optimum(),
            old(self).at_optimum() ==> r is Ok && final(self).arcs@ == old(self).arcs@ && final(self).total_cost == old(self).total_cost,
            marks_span(old(self).arcs@, old(self).node_count as int) && (forall|i: int|
                2 <= i < old(self).arcs@.len() ==> (#[trigger] old(self).arcs@[i]).capacity == 0)
                ==> r is Ok,
    {
        let mut pivots: usize = 0;
        proof {
            lemma_conserved_refl(self.arcs@);
        }
        loop
            invariant
                self.wf(),
                pivots <= max_pivots,
                self.node_count == old(self).node_count,
                self.initial_caps == old(self).initial_caps,
                self.arcs@.len() == old(self).arcs@.len(),
                same_shape(self.arcs@, old(self).arcs@),
                all_pairs_conserved(self.arcs@, old(self).arcs@),
                forall|v: int|
                    net_flow(self.arcs@, old(self).initial_caps@, v, npairs(old(self).arcs@))
                        == net_flow(
                        old(self).arcs@,
                        old(self).initial_caps@,
                        v,
                        npairs(old(self).arcs@),
                    ),
                old(self).at_optimum() ==> self.arcs@ == old(self).arcs@ && self.total_cost == old(self).total_cost && self.cert() && self.tree_zeroed() && self.reduced_costs_nonneg(),
                marks_span(old(self).arcs@, old(self).node_count as int) && (forall|i: int|
                    2 <= i < old(self).arcs@.len() ==> (#[trigger] old(self).arcs@[i]).capacity
                        == 0) ==> self.arcs@ == old(self).arcs@,
            decreases max_pivots - pivots,
        {
            let ghost entry = *self;
            let found = match self.find_arc_to_augment() {
                Err(e) => {
                    proof {
                        if old(self).at_optimum() {
                            assert(false);
                        }
                        if marks_span(old(self).arcs@, old(self).node_count as int) && (forall|
                            i: int,
                        |
                            2 <= i < old(self).arcs@.len() ==> (#[trigger] old(self).arcs@[
                                i
                            ]).capacity == 0) {
                            assert(marks_span(entry.arcs@, entry.node_count as int));
                            assert(false);
                        }
                    }
                    return Err(e);
                },
                Ok(f) => f,
            };
            match found {
                None => {
                    return Ok(());
                },
                Some(i) => {
                    proof {
                        if old(self).at_optimum() {
                            assert(entry.cert() && entry.tree_zeroed());
                            assert(self.red_cost(i as int) == entry.red_cost(i as int));
                            assert(entry.reduced_costs_nonneg());
                            assert(self.arcs@[i as int].capacity > 0);
                            assert(false);
                        }
                        if marks_span(old(self).arcs@, old(self).node_count as int) && (forall|
                            ii: int,
                        |
                            2 <= ii < old(self).arcs@.len() ==> (#[trigger] old(self).arcs@[
                                ii
                            ]).capacity == 0) {
                            assert(self.candidate(i as int));
                            assert(self.arcs@[i as int].capacity == 0);
                            assert(false);
                        }
                    }
                    if pivots == max_pivots {
                        return Err(FlowError::DidNotConverge);
                    }
                    let ghost at_pivot = *self;
                    match self.pivot(i) {
                        Err(e) => {
                            proof {
                                lemma_conserved_trans(self.arcs@, at_pivot.arcs@, old(self).arcs@);
                                lemma_same_shape_trans(self.arcs@, at_pivot.arcs@, old(self).arcs@);
                            }
                            return Err(e);
                        },
                        Ok(()) => {},
                    }
                    proof {
                        lemma_conserved_trans(self.arcs@, at_pivot.arcs@, old(self).arcs@);
                        lemma_same_shape_trans(self.arcs@, at_pivot.arcs@, old(self).arcs@);
                    }
                    pivots += 1;
                },
            }
        }
    }
}

} // verus!
