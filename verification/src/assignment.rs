//! The balanced-quota assignment layer: weighted points are mapped onto a
//! small set of centers by a minimum-cost flow.  A source feeds one unit per
//! point, every point may reach every center at the cost of its squared
//! distance less the center's weight, every center drains into a sink under a
//! balanced quota, and a strongly discounted return arc from the sink to the
//! source makes a full assignment the cheapest circulation.

use vstd::prelude::*;

use crate::simplex::{
    endpoints_valid, fold_labels, input_spans, lemma_fold_labels_prefix, marks_span,
    pair_tree_selected, Arc, FlowError, Solution,
};
use crate::union_find::merged_labels;

verus! {

/// Machine limit on coordinates and weights, so that squared distances and
/// their sums stay inside 64-bit arithmetic.
pub const COORD_LIMIT: i64 = 1_000_000_000;

/// A point to be assigned, with its position and weight.
#[derive(Clone, Copy, Debug)]
pub struct WeightedPoint {
    pub x: i64,
    pub y: i64,
    pub weight: i64,
}

/// A center that points are assigned to; its weight discounts distances.
#[derive(Clone, Copy, Debug)]
pub struct Center {
    pub x: i64,
    pub y: i64,
    pub weight: i64,
}

/// The cost of assigning `p` to `c`: squared Euclidean distance less the
/// center's weight.
pub open spec fn spec_pair_cost(p: WeightedPoint, c: Center) -> int {
    (p.x - c.x) * (p.x - c.x) + (p.y - c.y) * (p.y - c.y) - c.weight
}

/// Squared Euclidean distance between `p` and `c`.
pub open spec fn spec_sq_dist(p: WeightedPoint, c: Center) -> int {
    (p.x - c.x) * (p.x - c.x) + (p.y - c.y) * (p.y - c.y)
}

pub open spec fn point_in_limits(p: WeightedPoint) -> bool {
    &&& -COORD_LIMIT <= p.x <= COORD_LIMIT
    &&& -COORD_LIMIT <= p.y <= COORD_LIMIT
    &&& -COORD_LIMIT <= p.weight <= COORD_LIMIT
}

pub open spec fn center_in_limits(c: Center) -> bool {
    &&& -COORD_LIMIT <= c.x <= COORD_LIMIT
    &&& -COORD_LIMIT <= c.y <= COORD_LIMIT
    &&& -COORD_LIMIT <= c.weight <= COORD_LIMIT
}

/// The balanced quota of center `c`: an even share of the points, with the
/// remainder spread over the first centers.
pub open spec fn spec_quota(n_points: int, n_centers: int, c: int) -> int {
    n_points / n_centers + if c < n_points % n_centers {
        1int
    } else {
        0int
    }
}

/// Sum of the quotas of the first `k` centers.
pub open spec fn quota_total(n_points: int, n_centers: int, k: int) -> int
    decreases k,
{
    if k <= 0 {
        0
    } else {
        quota_total(n_points, n_centers, k - 1) + spec_quota(n_points, n_centers, k - 1)
    }
}

/// The balanced quotas exhaust the points exactly.
pub proof fn lemma_quota_total(n_points: int, n_centers: int, k: int)
    requires
        0 <= n_points,
        1 <= n_centers,
        0 <= k <= n_centers,
    ensures
        quota_total(n_points, n_centers, k) == k * (n_points / n_centers) + (if k <= n_points
            % n_centers {
            k
        } else {
            n_points % n_centers
        }),
        k == n_centers ==> quota_total(n_points, n_centers, k) == n_points,
    decreases k,
{
    vstd::arithmetic::div_mod::lemma_fundamental_div_mod(n_points, n_centers);
    vstd::arithmetic::div_mod::lemma_mod_bound(n_points, n_centers);
    vstd::arithmetic::div_mod::lemma_div_pos_is_pos(n_points, n_centers);
    if k > 0 {
        lemma_quota_total(n_points, n_centers, k - 1);
        assert(k * (n_points / n_centers) == (k - 1) * (n_points / n_centers) + n_points
            / n_centers) by (nonlinear_arith);
    } else {
        assert(0 * (n_points / n_centers) == 0) by (nonlinear_arith);
    }
}

/// How many of the first `k` points are assigned to center `c`.
pub open spec fn count_assigned(asg: Seq<usize>, c: int, k: int) -> int
    decreases k,
{
    if k <= 0 {
        0
    } else {
        count_assigned(asg, c, k - 1) + if asg[k - 1] == c {
            1int
        } else {
            0int
        }
    }
}

proof fn lemma_count_assigned_bound(asg: Seq<usize>, c: int, k: int)
    ensures
        0 <= count_assigned(asg, c, k),
        k >= 0 ==> count_assigned(asg, c, k) <= k,
    decreases k,
{
    if k > 0 {
        lemma_count_assigned_bound(asg, c, k - 1);
    }
}

proof fn lemma_count_assigned_agree(a1: Seq<usize>, a2: Seq<usize>, c: int, k: int)
    requires
        0 <= k <= a1.len(),
        k <= a2.len(),
        forall|j: int| 0 <= j < k ==> a1[j] == #[trigger] a2[j],
    ensures
        count_assigned(a1, c, k) == count_assigned(a2, c, k),
    decreases k,
{
    if k > 0 {
        lemma_count_assigned_agree(a1, a2, c, k - 1);
    }
}

/// Sum over the first `k` points of the assignment cost of the chosen center.
pub open spec fn total_assignment_cost(
    pts: Seq<WeightedPoint>,
    cts: Seq<Center>,
    asg: Seq<usize>,
    k: int,
) -> int
    decreases k,
{
    if k <= 0 {
        0
    } else {
        total_assignment_cost(pts, cts, asg, k - 1) + spec_pair_cost(
            pts[k - 1],
            cts[asg[k - 1] as int],
        )
    }
}

/// Sum over the first `k` points of the squared distance to the chosen center.
pub open spec fn total_sq_dist(
    pts: Seq<WeightedPoint>,
    cts: Seq<Center>,
    asg: Seq<usize>,
    k: int,
) -> int
    decreases k,
{
    if k <= 0 {
        0
    } else {
        total_sq_dist(pts, cts, asg, k - 1) + spec_sq_dist(pts[k - 1], cts[asg[k - 1] as int])
    }
}

proof fn lemma_totals_agree(
    pts: Seq<WeightedPoint>,
    cts: Seq<Center>,
    a1: Seq<usize>,
    a2: Seq<usize>,
    k: int,
)
    requires
        0 <= k <= a1.len(),
        k <= a2.len(),
        forall|j: int| 0 <= j < k ==> a1[j] == #[trigger] a2[j],
    ensures
        total_assignment_cost(pts, cts, a1, k) == total_assignment_cost(pts, cts, a2, k),
        total_sq_dist(pts, cts, a1, k) == total_sq_dist(pts, cts, a2, k),
    decreases k,
{
    if k > 0 {
        lemma_totals_agree(pts, cts, a1, a2, k - 1);
    }
}

/// Evaluates the assignment cost of one point-center pairing exactly.
pub fn pair_cost(p: &WeightedPoint, c: &Center) -> (r: i64)
    requires
        point_in_limits(*p),
        center_in_limits(*c),
    ensures
        r as int == spec_pair_cost(*p, *c),
        0 <= spec_sq_dist(*p, *c) <= 0x7000_0000_0000_0000,
{
    let dx = p.x - c.x;
    let dy = p.y - c.y;
    proof {
        assert(dx * dx <= 4_000_000_000_000_000_000 && dx * dx >= 0) by (nonlinear_arith)
            requires
                -2_000_000_000 <= dx <= 2_000_000_000,
        ;
        assert(dy * dy <= 4_000_000_000_000_000_000 && dy * dy >= 0) by (nonlinear_arith)
            requires
                -2_000_000_000 <= dy <= 2_000_000_000,
        ;
    }
    dx * dx + dy * dy - c.weight
}

/// The balanced capacity quotas of spec `spec_quota`: they sum to the number
/// of points, giving every point a seat and no center any slack.
pub fn center_quotas(n_points: usize, n_centers: usize) -> (q: Vec<u32>)
    requires
        n_centers >= 1,
        n_points <= 0x3fff_ffff,
    ensures
        q@.len() == n_centers,
        forall|c: int|
            0 <= c < n_centers ==> #[trigger] q@[c] as int == spec_quota(
                n_points as int,
                n_centers as int,
                c,
            ),
        quota_total(n_points as int, n_centers as int, n_centers as int) == n_points,
{
    let share = n_points / n_centers;
    let extra = n_points % n_centers;
    let mut q: Vec<u32> = Vec::new();
    proof {
        vstd::arithmetic::div_mod::lemma_fundamental_div_mod(n_points as int, n_centers as int);
        vstd::arithmetic::div_mod::lemma_mod_bound(n_points as int, n_centers as int);
        vstd::arithmetic::div_mod::lemma_div_pos_is_pos(n_points as int, n_centers as int);
        assert(share <= n_points) by (nonlinear_arith)
            requires
                share == n_points as int / n_centers as int,
                n_centers >= 1,
                n_points >= 0,
        ;
        lemma_quota_total(n_points as int, n_centers as int, n_centers as int);
    }
    let mut c: usize = 0;
    while c < n_centers
        invariant
            c <= n_centers,
            q@.len() == c,
            share == n_points as int / n_centers as int,
            extra == n_points as int % n_centers as int,
            share <= n_points <= 0x3fff_ffff,
            forall|j: int|
                0 <= j < c ==> #[trigger] q@[j] as int == spec_quota(
                    n_points as int,
                    n_centers as int,
                    j,
                ),
        decreases n_centers - c,
    {
        let quota: u32 = if c < extra {
            (share + 1) as u32
        } else {
            share as u32
        };
        q.push(quota);
        c += 1;
    }
    q
}

/// The outcome of a solved assignment: the chosen center of every point, the
/// objective value (squared distances less center weights), and the plain sum
/// of squared distances to the chosen centers.
pub struct Assignment {
    pub assigned_center: Vec<usize>,
    pub total_cost: i64,
    pub total_squared_distance: i64,
}

/// Translates weighted points and centers into a flow network, runs the
/// solver, and reads the realized assignment back out of the residual
/// capacities.
pub struct AssignmentBuilder {
    pub points: Vec<WeightedPoint>,
    pub centers: Vec<Center>,
}

/// Inputs the builder accepts: at least one center, machine-bounded sizes and
/// coordinates.
pub open spec fn builder_ok(b: AssignmentBuilder) -> bool {
    &&& 1 <= b.centers@.len() <= 0x400
    &&& b.points@.len() <= 0x1_0000
    &&& forall|p: int| 0 <= p < b.points@.len() ==> point_in_limits(#[trigger] b.points@[p])
    &&& forall|c: int| 0 <= c < b.centers@.len() ==> center_in_limits(#[trigger] b.centers@[c])
}

/// Every pairing cost fits the network's cost word, with one unit to spare
/// for the return arc's discount.
pub open spec fn costs_in_range(b: AssignmentBuilder) -> bool {
    forall|p: int, c: int|
        0 <= p < b.points@.len() && 0 <= c < b.centers@.len() ==> i32::MIN
            < #[trigger] spec_pair_cost(b.points@[p], b.centers@[c]) <= i32::MAX - 1
}

impl AssignmentBuilder {
    pub fn new(points: Vec<WeightedPoint>, centers: Vec<Center>) -> (r: AssignmentBuilder)
        ensures
            r.points == points,
            r.centers == centers,
    {
        AssignmentBuilder { points, centers }
    }

    /// Builds the flow network of the assignment: the source feeds every
    /// point one unit, every point reaches every center at the pairing cost,
    /// every center drains into the sink under its balanced quota, and the
    /// sink returns to the source at a discount below every pairing cost, so
    /// that a circulation assigning every point is the cheapest one.  The
    /// network is always connected, so construction fails exactly when some
    /// pairing cost leaves the cost word's range.
    pub fn build_network(&self) -> (r: Result<Solution, FlowError>)
        requires
            builder_ok(*self),
        ensures
            (r is Err) <==> !costs_in_range(*self),
            r is Err ==> r->Err_0 is NumericOverflow,
            r is Ok ==> {
                let s = r->Ok_0;
                &&& s.wf()
                &&& s.node_count == self.points@.len() + self.centers@.len() + 2
                &&& s.arcs@.len() == 2 + 2 * (self.points@.len() + self.points@.len()
                    * self.centers@.len() + self.centers@.len() + 1)
                &&& s.total_cost == 0
                &&& marks_span(s.arcs@, s.node_count as int)
                &&& forall|v: int|
                    crate::simplex::net_flow(s.arcs@, s.initial_caps@, v, crate::simplex::npairs(s.arcs@)) == 0
            },
            r is Ok && self.points@.len() == 0 ==> forall|i: int|
                2 <= i < r->Ok_0.arcs@.len() ==> (#[trigger] r->Ok_0.arcs@[i]).capacity == 0,
    {
        let p_n = self.points.len();
        let c_n = self.centers.len();
        proof {
            assert(p_n * c_n <= 0x400_0000) by (nonlinear_arith)
                requires
                    p_n <= 0x1_0000,
                    c_n <= 0x400,
            ;
        }
        let mut costs: Vec<i32> = Vec::new();
        let mut max_cost: i32 = 0;
        let mut p: usize = 0;
        while p < p_n
            invariant
                p <= p_n,
                costs@.len() == p * c_n,
                0 <= max_cost <= i32::MAX - 1,
                forall|pp: int, cc: int|
                    0 <= pp < p && 0 <= cc < c_n ==> i32::MIN < #[trigger] spec_pair_cost(
                        self.points@[pp],
                        self.centers@[cc],
                    ) <= i32::MAX - 1,
                forall|k: int|
                    0 <= k < costs@.len() ==> i32::MIN < #[trigger] costs@[k] <= max_cost,
            decreases p_n - p,
        {
            let mut c: usize = 0;
            while c < c_n
                invariant
                    c <= c_n,
                    p < p_n,
                    costs@.len() == p * c_n + c,
                    0 <= max_cost <= i32::MAX - 1,
                    forall|pp: int, cc: int|
                        0 <= pp < p && 0 <= cc < c_n ==> i32::MIN < #[trigger] spec_pair_cost(
                            self.points@[pp],
                            self.centers@[cc],
                        ) <= i32::MAX - 1,
                    forall|cc: int|
                        0 <= cc < c ==> i32::MIN < #[trigger] spec_pair_cost(
                            self.points@[p as int],
                            self.centers@[cc],
                        ) <= i32::MAX - 1,
                    forall|k: int|
                        0 <= k < costs@.len() ==> i32::MIN < #[trigger] costs@[k] <= max_cost,
                decreases c_n - c,
            {
                let cost64 = pair_cost(&self.points[p], &self.centers[c]);
                if cost64 <= (i32::MIN as i64) || cost64 > (i32::MAX as i64) - 1 {
                    return Err(FlowError::NumericOverflow);
                }
                let cost32: i32 = cost64 as i32;
                if cost32 > max_cost {
                    max_cost = cost32;
                }
                costs.push(cost32);
                c += 1;
            }
            proof {
                assert(p * c_n + c_n == (p + 1) * c_n) by (nonlinear_arith);
            }
            p += 1;
        }
        proof {
            assert(costs_in_range(*self));
        }
        let quotas = center_quotas(p_n, c_n);
        let n_nodes = p_n + c_n + 2;
        let sink = p_n + c_n + 1;
        let ghost nn = n_nodes as int;
        let mut specs: Vec<Arc> = Vec::new();
        let discount: i32 = -max_cost - 1;
        specs.push(Arc::new(sink, 0, p_n as u32, discount));
        proof {
            assert(fold_labels(nn, specs@, 0).len() == nn);
            assert(fold_labels(nn, specs@, 1) == merged_labels(
                fold_labels(nn, specs@, 0),
                sink as int,
                0,
            ));
            assert(fold_labels(nn, specs@, 1).len() == nn);
            assert forall|v: int|
                0 <= v < nn implies #[trigger] fold_labels(nn, specs@, specs@.len() as int)[v] == (
            if v == 0 || v == sink as int {
                0int
            } else {
                v
            }) by {}
            assert(fold_labels(nn, specs@, 0)[sink as int] == sink as int);
            assert(fold_labels(nn, specs@, 0)[0] == 0);
            assert(pair_tree_selected(nn, specs@, 0));
            assert(specs@[0].start == sink && specs@[0].end == 0 && specs@[0].capacity == p_n);
        }
        let mut c: usize = 0;
        while c < c_n
            invariant
                c <= c_n,
                c_n == self.centers@.len(),
                quotas@.len() == c_n,
                specs@.len() == 1 + c,
                n_nodes == p_n + c_n + 2,
                nn == n_nodes as int,
                sink == p_n + c_n + 1,
                specs@[0].start == sink && specs@[0].end == 0 && specs@[0].capacity == p_n,
                forall|cc: int|
                    0 <= cc < c ==> (#[trigger] specs@[1 + cc]).start == 1 + p_n + cc && specs@[
                        1 + cc
                    ].end == sink && specs@[1 + cc].capacity == quotas@[cc],
                forall|k: int| 0 <= k < specs@.len() ==> #[trigger] pair_tree_selected(
                    nn,
                    specs@,
                    k,
                ),
                forall|k: int|
                    0 <= k < specs@.len() ==> (#[trigger] specs@[k]).start < n_nodes && specs@[
                        k
                    ].end < n_nodes && specs@[k].cost_per_unit > i32::MIN,
                fold_labels(nn, specs@, specs@.len() as int).len() == nn,
                forall|v: int|
                    0 <= v < nn ==> #[trigger] fold_labels(nn, specs@, specs@.len() as int)[v] == (
                if v == 0 || v == sink as int || (p_n < v && v < p_n + 1 + c) {
                    0int
                } else {
                    v
                }),
            decreases c_n - c,
        {
            let ghost specs0 = specs@;
            specs.push(Arc::new(1 + p_n + c, sink, quotas[c], 0));
            proof {
                lemma_fold_labels_prefix(nn, specs0, specs@, specs0.len() as int);
                let lk = fold_labels(nn, specs@, specs@.len() as int - 1);
                assert(lk.len() == nn);
                assert(fold_labels(nn, specs@, specs@.len() as int) == merged_labels(
                    lk,
                    1 + p_n + c,
                    sink as int,
                ));
                assert(fold_labels(nn, specs@, specs@.len() as int).len() == nn);
                assert(lk[1 + p_n + c] == 1 + p_n + c);
                assert(lk[sink as int] == 0);
                assert forall|v: int|
                    0 <= v < nn implies #[trigger] fold_labels(nn, specs@, specs@.len() as int)[v]
                        == (if v == 0 || v == sink as int || (p_n < v && v < p_n + 1 + c + 1) {
                    0int
                } else {
                    v
                }) by {}
                assert forall|k: int|
                    0 <= k < specs@.len() implies #[trigger] pair_tree_selected(nn, specs@, k) by {
                    if k < specs0.len() {
                        lemma_fold_labels_prefix(nn, specs0, specs@, k);
                        assert(pair_tree_selected(nn, specs0, k));
                    } else {
                        assert(lk[1 + p_n + c] == 1 + p_n + c);
                        assert(lk[sink as int] == 0);
                    }
                }
            }
            c += 1;
        }
        let mut p: usize = 0;
        while p < p_n
            invariant
                p <= p_n,
                c_n == self.centers@.len(),
                quotas@.len() == c_n,
                specs@.len() == 1 + c_n + p,
                n_nodes == p_n + c_n + 2,
                nn == n_nodes as int,
                sink == p_n + c_n + 1,
                specs@[0].start == sink && specs@[0].end == 0 && specs@[0].capacity == p_n,
                forall|cc: int|
                    0 <= cc < c_n ==> (#[trigger] specs@[1 + cc]).start == 1 + p_n + cc && specs@[
                        1 + cc
                    ].end == sink && specs@[1 + cc].capacity == quotas@[cc],
                forall|pp: int|
                    0 <= pp < p ==> (#[trigger] specs@[1 + c_n + pp]).start == 0 && specs@[
                        1 + c_n + pp
                    ].end == 1 + pp && specs@[1 + c_n + pp].capacity == 1,
                forall|k: int| 0 <= k < specs@.len() ==> #[trigger] pair_tree_selected(
                    nn,
                    specs@,
                    k,
                ),
                forall|k: int|
                    0 <= k < specs@.len() ==> (#[trigger] specs@[k]).start < n_nodes && specs@[
                        k
                    ].end < n_nodes && specs@[k].cost_per_unit > i32::MIN,
                fold_labels(nn, specs@, specs@.len() as int).len() == nn,
                forall|v: int|
                    0 <= v < nn ==> #[trigger] fold_labels(nn, specs@, specs@.len() as int)[v] == (
                if v == 0 || v > p_n || (0 < v && v < 1 + p) {
                    0int
                } else {
                    v
                }),
            decreases p_n - p,
        {
            let ghost specs0 = specs@;
            specs.push(Arc::new(0, 1 + p, 1, 0));
            proof {
                lemma_fold_labels_prefix(nn, specs0, specs@, specs0.len() as int);
                let lk = fold_labels(nn, specs@, specs@.len() as int - 1);
                assert(lk.len() == nn);
                assert(fold_labels(nn, specs@, specs@.len() as int) == merged_labels(
                    lk,
                    0,
                    1 + p as int,
                ));
                assert(fold_labels(nn, specs@, specs@.len() as int).len() == nn);
                assert(lk[0] == 0);
                assert(lk[1 + p as int] == 1 + p as int);
                assert forall|v: int|
                    0 <= v < nn implies #[trigger] fold_labels(nn, specs@, specs@.len() as int)[v]
                        == (if v == 0 || v > p_n || (0 < v && v < 1 + p + 1) {
                    0int
                } else {
                    v
                }) by {}
                assert forall|k: int|
                    0 <= k < specs@.len() implies #[trigger] pair_tree_selected(nn, specs@, k) by {
                    if k < specs0.len() {
                        lemma_fold_labels_prefix(nn, specs0, specs@, k);
                        assert(pair_tree_selected(nn, specs0, k));
                    } else {
                        assert(lk[0] == 0);
                        assert(lk[1 + p as int] == 1 + p as int);
                    }
                }
            }
            p += 1;
        }
        proof {
            assert(p_n * c_n <= 0x400_0000) by (nonlinear_arith)
                requires
                    p_n <= 0x1_0000,
                    c_n <= 0x400,
            ;
            assert forall|v: int|
                0 <= v < nn implies #[trigger] fold_labels(nn, specs@, specs@.len() as int)[v]
                    == 0 by {}
        }
        let mut p: usize = 0;
        while p < p_n
            invariant
                p <= p_n,
                p_n == self.points@.len(),
                c_n == self.centers@.len(),
                p_n <= 0x1_0000,
                c_n <= 0x400,
                costs@.len() == p_n * c_n,
                specs@.len() == 1 + c_n + p_n + p * c_n,
                n_nodes == p_n + c_n + 2,
                nn == n_nodes as int,
                specs@[0].start == sink && specs@[0].end == 0 && specs@[0].capacity == p_n,
                forall|cc: int|
                    0 <= cc < c_n ==> (#[trigger] specs@[1 + cc]).start == 1 + p_n + cc && specs@[
                        1 + cc
                    ].end == sink && specs@[1 + cc].capacity == quotas@[cc],
                forall|pp: int|
                    0 <= pp < p_n ==> (#[trigger] specs@[1 + c_n + pp]).start == 0 && specs@[
                        1 + c_n + pp
                    ].end == 1 + pp && specs@[1 + c_n + pp].capacity == 1,
                forall|k: int| 0 <= k < 1 + c_n + p_n ==> #[trigger] pair_tree_selected(
                    nn,
                    specs@,
                    k,
                ),
                quotas@.len() == c_n,
                sink == p_n + c_n + 1,
                forall|k: int|
                    0 <= k < costs@.len() ==> i32::MIN < #[trigger] costs@[k] <= max_cost,
                0 <= max_cost <= i32::MAX - 1,
                forall|k: int|
                    0 <= k < specs@.len() ==> (#[trigger] specs@[k]).start < n_nodes && specs@[
                        k
                    ].end < n_nodes && specs@[k].cost_per_unit > i32::MIN,
                fold_labels(nn, specs@, specs@.len() as int).len() == nn,
                forall|v: int|
                    0 <= v < nn ==> #[trigger] fold_labels(nn, specs@, specs@.len() as int)[v]
                        == 0,
            decreases p_n - p,
        {
            let mut c: usize = 0;
            while c < c_n
                invariant
                    c <= c_n,
                    p < p_n,
                    p_n == self.points@.len(),
                    c_n == self.centers@.len(),
                    p_n <= 0x1_0000,
                    c_n <= 0x400,
                    costs@.len() == p_n * c_n,
                    specs@.len() == 1 + c_n + p_n + p * c_n + c,
                    n_nodes == p_n + c_n + 2,
                    nn == n_nodes as int,
                specs@[0].start == sink && specs@[0].end == 0 && specs@[0].capacity == p_n,
                    forall|cc: int|
                        0 <= cc < c_n ==> (#[trigger] specs@[1 + cc]).start == 1 + p_n + cc && specs@[
                            1 + cc
                        ].end == sink && specs@[1 + cc].capacity == quotas@[cc],
                    forall|pp: int|
                        0 <= pp < p_n ==> (#[trigger] specs@[1 + c_n + pp]).start == 0 && specs@[
                            1 + c_n + pp
                        ].end == 1 + pp && specs@[1 + c_n + pp].capacity == 1,
                    forall|k: int| 0 <= k < 1 + c_n + p_n ==> #[trigger] pair_tree_selected(
                        nn,
                        specs@,
                        k,
                    ),
                    quotas@.len() == c_n,
                    sink == p_n + c_n + 1,
                    forall|k: int|
                        0 <= k < costs@.len() ==> i32::MIN < #[trigger] costs@[k] <= max_cost,
                    0 <= max_cost <= i32::MAX - 1,
                    forall|k: int|
                        0 <= k < specs@.len() ==> (#[trigger] specs@[k]).start < n_nodes && specs@[
                            k
                        ].end < n_nodes && specs@[k].cost_per_unit > i32::MIN,
                    fold_labels(nn, specs@, specs@.len() as int).len() == nn,
                    forall|v: int|
                        0 <= v < nn ==> #[trigger] fold_labels(nn, specs@, specs@.len() as int)[v]
                            == 0,
                decreases c_n - c,
            {
                proof {
                    assert(0 <= p * c_n + c < p_n * c_n && p * c_n + c <= 0x400_0000) by (
                    nonlinear_arith)
                        requires
                            0 <= p < p_n,
                            0 <= c < c_n,
                            p_n <= 0x1_0000,
                            c_n <= 0x400,
                    ;
                }
                let idx = p * c_n + c;
                let ghost specs0 = specs@;
                specs.push(Arc::new(1 + p, 1 + p_n + c, 1, costs[idx]));
                proof {
                    lemma_fold_labels_prefix(nn, specs0, specs@, specs0.len() as int);
                    let lk = fold_labels(nn, specs@, specs@.len() as int - 1);
                    assert(lk.len() == nn);
                    assert(fold_labels(nn, specs@, specs@.len() as int) == merged_labels(
                        lk,
                        1 + p as int,
                        1 + p_n + c,
                    ));
                    assert(lk[1 + p as int] == 0 && lk[1 + p_n + c] == 0);
                    assert(fold_labels(nn, specs@, specs@.len() as int) == lk);
                    assert forall|k: int|
                        0 <= k < 1 + c_n + p_n implies #[trigger] pair_tree_selected(
                        nn,
                        specs@,
                        k,
                    ) by {
                        lemma_fold_labels_prefix(nn, specs0, specs@, k);
                        assert(pair_tree_selected(nn, specs0, k));
                    }
                }
                c += 1;
            }
            proof {
                assert(p * c_n + c_n == (p + 1) * c_n) by (nonlinear_arith);
            }
            p += 1;
        }
        proof {
            assert(endpoints_valid(nn, specs@));
            assert(input_spans(nn, specs@));
            assert(specs@.len() == 1 + c_n + p_n + p_n * c_n);
        }
        let r = Solution::new(n_nodes, &specs);
        match r {
            Ok(s) => {
                proof {
                    let sa = s.arcs@;
                    assert forall|j: int|
                        0 <= j < 1 + c_n + p_n implies (#[trigger] sa[2 + 2 * j]).on_tree && sa[
                        3 + 2 * j
                    ].on_tree by {
                        assert(crate::simplex::built_pair(sa, nn, specs@, j));
                        assert(pair_tree_selected(nn, specs@, j));
                    }
                    assert(crate::simplex::built_pair(sa, nn, specs@, 0));
                    assert(sa[3].on_tree && sa[3].start == 0 && sa[3].end == sink);
                    assert forall|group: Set<int>|
                        #![trigger crate::simplex::group_closed(sa, group)]
                        crate::simplex::group_closed(sa, group) && group.contains(0) implies (
                    forall|v: int| 0 <= v < nn ==> group.contains(v)) by {
                        assert(group.contains(sink as int));
                        assert forall|cc: int| 0 <= cc < c_n implies #[trigger] group.contains(
                            1 + p_n + cc,
                        ) by {
                            assert(crate::simplex::built_pair(sa, nn, specs@, 1 + cc));
                            assert(sa[3 + 2 * (1 + cc)].on_tree && sa[3 + 2 * (1 + cc)].start
                                == sink && sa[3 + 2 * (1 + cc)].end == 1 + p_n + cc);
                        }
                        assert forall|pp: int| 0 <= pp < p_n implies #[trigger] group.contains(
                            1 + pp,
                        ) by {
                            assert(crate::simplex::built_pair(sa, nn, specs@, 1 + c_n + pp));
                            assert(sa[2 + 2 * (1 + c_n + pp)].on_tree && sa[2 + 2 * (1 + c_n
                                + pp)].start == 0 && sa[2 + 2 * (1 + c_n + pp)].end == 1 + pp);
                        }
                        assert forall|v: int| 0 <= v < nn implies #[trigger] group.contains(
                            v,
                        ) by {
                            if v != 0 && v != sink as int {
                                if v <= p_n {
                                    assert(group.contains(1 + (v - 1)));
                                } else {
                                    assert(group.contains(1 + p_n + (v - 1 - p_n)));
                                }
                            }
                        }
                    }
                    if p_n == 0 {
                        vstd::arithmetic::div_mod::lemma_basic_div_specific_divisor(c_n as int);
                        vstd::arithmetic::div_mod::lemma_small_mod(0nat, c_n as nat);
                        assert(spec_quota(0, c_n as int, 0) == 0);
                        assert forall|i: int|
                            2 <= i < sa.len() implies (#[trigger] sa[i]).capacity == 0 by {
                            let j = (i - 2) / 2;
                            assert(crate::simplex::built_pair(sa, nn, specs@, j));
                            if i % 2 == 0 {
                                assert(i == 2 + 2 * j);
                                assert(sa[i].capacity == specs@[j].capacity);
                                if j >= 1 {
                                    assert(specs@[1 + (j - 1)].capacity == quotas@[j - 1]);
                                    assert(specs@[j].capacity == quotas@[j - 1]);
                                    assert(quotas@[j - 1] as int == spec_quota(
                                        0,
                                        c_n as int,
                                        j - 1,
                                    ));
                                }
                            } else {
                                assert(i == 3 + 2 * j);
                                assert(sa[i].capacity == 0);
                            }
                        }
                    }
                }
                Ok(s)
            },
            Err(e) => {
                proof {
                    assert(false);
                }
                Err(e)
            },
        }
    }

    /// Builds the network, runs the solver, and reads the assignment out of
    /// the residual capacities: point `p` went to the one center whose arc
    /// from `p` was saturated.  Returns the chosen center of every point, the
    /// objective value and the sum of squared distances of that assignment,
    /// after checking that the realized occupancy meets every balanced quota.
    #[verifier::rlimit(100)]
    pub fn solve_assignment(&self, max_pivots: usize) -> (r: Result<Assignment, FlowError>)
        requires
            builder_ok(*self),
        ensures
            !costs_in_range(*self) ==> r is Err && r->Err_0 is NumericOverflow,
            self.points@.len() == 0 ==> r is Ok,
            r is Ok ==> {
                let a = r->Ok_0;
                let pts = self.points@;
                let cts = self.centers@;
                &&& a.assigned_center@.len() == pts.len()
                &&& forall|p: int|
                    0 <= p < pts.len() ==> (#[trigger] a.assigned_center@[p] as int) < cts.len()
                &&& a.total_cost as int == total_assignment_cost(
                    pts,
                    cts,
                    a.assigned_center@,
                    pts.len() as int,
                )
                &&& a.total_squared_distance as int == total_sq_dist(
                    pts,
                    cts,
                    a.assigned_center@,
                    pts.len() as int,
                )
                &&& forall|c: int|
                    0 <= c < cts.len() ==> #[trigger] count_assigned(
                        a.assigned_center@,
                        c,
                        pts.len() as int,
                    ) == spec_quota(pts.len() as int, cts.len() as int, c)
            },
    {
        let ghost pts = self.points@;
        let ghost cts = self.centers@;
        let mut network = match self.build_network() {
            Err(e) => {
                proof {
                    if self.points@.len() == 0 {
                        assert(costs_in_range(*self));
                        assert(false);
                    }
                }
                return Err(e);
            },
            Ok(s) => s,
        };
        let ghost net0 = network;
        match network.solve(max_pivots) {
            Err(e) => {
                proof {
                    if self.points@.len() == 0 {
                        assert(marks_span(net0.arcs@, net0.node_count as int));
                        assert(forall|i: int|
                            2 <= i < net0.arcs@.len() ==> (#[trigger] net0.arcs@[i]).capacity
                                == 0);
                        assert(false);
                    }
                }
                return Err(e);
            },
            Ok(()) => {},
        }
        let p_n = self.points.len();
        let c_n = self.centers.len();
        proof {
            assert(p_n * c_n <= 0x400_0000) by (nonlinear_arith)
                requires
                    p_n <= 0x1_0000,
                    c_n <= 0x400,
            ;
        }
        let mut assigned: Vec<usize> = Vec::new();
        let mut counts: Vec<u32> = Vec::new();
        let mut total_cost: i64 = 0;
        let mut total_sq: i64 = 0;
        let mut c: usize = 0;
        while c < c_n
            invariant
                c <= c_n,
                counts@.len() == c,
                forall|cc: int| 0 <= cc < c ==> #[trigger] counts@[cc] == 0,
            decreases c_n - c,
        {
            counts.push(0);
            c += 1;
        }
        let mut p: usize = 0;
        while p < p_n
            invariant
                p <= p_n,
                p_n == pts.len(),
                c_n == cts.len(),
                p_n <= 0x1_0000,
                c_n <= 0x400,
                c_n >= 1,
                builder_ok(*self),
                costs_in_range(*self),
                assigned@.len() == p,
                counts@.len() == c_n,
                network.arcs@.len() == 2 + 2 * (p_n + p_n * c_n + c_n + 1),
                forall|j: int| 0 <= j < p ==> (#[trigger] assigned@[j] as int) < c_n,
                total_cost as int == total_assignment_cost(pts, cts, assigned@, p as int),
                -0x8000_0000 * (p as int) <= total_cost as int <= 0x8000_0000 * (p as int),
                total_sq as int == total_sq_dist(pts, cts, assigned@, p as int),
                0 <= total_sq as int <= 0x1_0000_0000 * (p as int),
                forall|cc: int|
                    0 <= cc < c_n ==> #[trigger] counts@[cc] as int == count_assigned(
                        assigned@,
                        cc,
                        p as int,
                    ),
            decreases p_n - p,
        {
            let mut chosen: usize = 0;
            let mut hits: usize = 0;
            let mut c: usize = 0;
            while c < c_n
                invariant
                    c <= c_n,
                    hits <= c,
                    p < p_n,
                    hits >= 1 ==> chosen < c_n,
                    network.arcs@.len() == 2 + 2 * (p_n + p_n * c_n + c_n + 1),
                decreases c_n - c,
            {
                proof {
                    assert(0 <= p * c_n + c && p * c_n + c < p_n * c_n) by (nonlinear_arith)
                        requires
                            0 <= p < p_n,
                            0 <= c < c_n,
                    ;
                }
                let idx = 2 + 2 * (1 + c_n + p_n + p * c_n + c);
                if network.arcs[idx].capacity == 0 {
                    if hits == 0 {
                        chosen = c;
                    }
                    hits += 1;
                }
                c += 1;
            }
            if hits != 1 {
                proof {
                    assert(self.points@.len() != 0);
                }
                return Err(FlowError::InternalInconsistency);
            }
            let cost64 = pair_cost(&self.points[p], &self.centers[chosen]);
            proof {
                assert(i32::MIN < spec_pair_cost(pts[p as int], cts[chosen as int]) <= i32::MAX
                    - 1);
            }
            let w = self.centers[chosen].weight;
            let sq = cost64 + w;
            total_cost = total_cost + cost64;
            total_sq = total_sq + sq;
            let ghost asg0 = assigned@;
            assigned.push(chosen);
            let cnt = counts[chosen];
            proof {
                lemma_count_assigned_bound(asg0, chosen as int, p as int);
            }
            counts[chosen] = cnt + 1;
            proof {
                lemma_totals_agree(pts, cts, asg0, assigned@, p as int);
                assert forall|cc: int|
                    0 <= cc < c_n implies #[trigger] counts@[cc] as int == count_assigned(
                    assigned@,
                    cc,
                    p as int + 1,
                ) by {
                    lemma_count_assigned_agree(asg0, assigned@, cc, p as int);
                }
            }
            p += 1;
        }
        let quotas = center_quotas(p_n, c_n);
        let mut c: usize = 0;
        while c < c_n
            invariant
                c <= c_n,
                c_n == cts.len(),
                p_n == pts.len(),
                counts@.len() == c_n,
                quotas@.len() == c_n,
                assigned@.len() == p_n,
                forall|cc: int|
                    0 <= cc < c_n ==> #[trigger] counts@[cc] as int == count_assigned(
                        assigned@,
                        cc,
                        p_n as int,
                    ),
                forall|cc: int|
                    0 <= cc < c_n ==> #[trigger] quotas@[cc] as int == spec_quota(
                        p_n as int,
                        c_n as int,
                        cc,
                    ),
                forall|cc: int|
                    0 <= cc < c ==> #[trigger] count_assigned(assigned@, cc, p_n as int)
                        == spec_quota(p_n as int, c_n as int, cc),
            decreases c_n - c,
        {
            if counts[c] != quotas[c] {
                proof {
                    if self.points@.len() == 0 {
                        vstd::arithmetic::div_mod::lemma_basic_div_specific_divisor(c_n as int);
                        vstd::arithmetic::div_mod::lemma_small_mod(0nat, c_n as nat);
                        assert(counts@[c as int] as int == count_assigned(assigned@, c as int, 0));
                        assert(quotas@[c as int] as int == spec_quota(0, c_n as int, c as int));
                        assert(false);
                    }
                }
                return Err(FlowError::InternalInconsistency);
            }
            c += 1;
        }
        Ok(Assignment { assigned_center: assigned, total_cost, total_squared_distance: total_sq })
    }
}

} // verus!
