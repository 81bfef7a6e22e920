use redistricter::simplex::{Arc, FlowError, Solution};
use redistricter::union_find::{UnionFindSet, UnionResult};

fn small_instance_arcs() -> Vec<Arc> {
    let arcs: Vec<[i32; 4]> = vec![
        [0, 1, 1, 0],
        [0, 2, 1, 0],
        [0, 3, 1, 0],
        [0, 4, 1, 0],
        [1, 5, 1, 10],
        [1, 6, 1, 8],
        [2, 5, 1, -6],
        [2, 6, 1, 10],
        [3, 5, 1, 4],
        [3, 6, 1, 8],
        [4, 5, 1, 2],
        [4, 6, 1, 7],
        [5, 7, 2, -100],
        [6, 7, 2, -100],
    ];
    arcs.iter()
        .map(|a| Arc::new(a[0] as usize, a[1] as usize, a[2] as u32, a[3]))
        .collect()
}

#[test]
fn test_simplex() {
    let mut solver = Solution::new(8, &small_instance_arcs()).unwrap();
    solver.solve(100_000).unwrap();
    println!("{}", solver.total_cost);
}

#[test]
fn known_instance_total_cost() {
    // No directed cycle exists in this network, so the cheapest circulation
    // ships nothing and the accumulated cost stays zero, whatever degenerate
    // pivots the tree goes through on the way to the optimality certificate.
    let mut solver = Solution::new(8, &small_instance_arcs()).unwrap();
    solver.solve(100_000).unwrap();
    assert_eq!(solver.total_cost, 0);
}

#[test]
fn conservation_across_solve() {
    let mut solver = Solution::new(8, &small_instance_arcs()).unwrap();
    let sums_before: Vec<u64> = (0..solver.arcs.len() / 2 - 1)
        .map(|k| {
            solver.arcs[2 * k + 2].capacity as u64 + solver.arcs[2 * k + 3].capacity as u64
        })
        .collect();
    solver.solve(100_000).unwrap();
    let sums_after: Vec<u64> = (0..solver.arcs.len() / 2 - 1)
        .map(|k| {
            solver.arcs[2 * k + 2].capacity as u64 + solver.arcs[2 * k + 3].capacity as u64
        })
        .collect();
    assert_eq!(sums_before, sums_after);
}

#[test]
fn tree_size_is_node_count_minus_one() {
    let mut solver = Solution::new(8, &small_instance_arcs()).unwrap();
    let count_pairs = |s: &Solution| {
        (0..s.arcs.len() / 2 - 1)
            .filter(|&k| s.arcs[2 * k + 2].on_tree)
            .count()
    };
    assert_eq!(count_pairs(&solver), 7);
    solver.solve(100_000).unwrap();
    assert_eq!(count_pairs(&solver), 7);
}

#[test]
fn optimality_certificate_at_termination() {
    let mut solver = Solution::new(8, &small_instance_arcs()).unwrap();
    solver.solve(100_000).unwrap();
    for i in 2..solver.arcs.len() {
        let a = solver.arcs[i];
        if a.capacity > 0 {
            let red = a.cost_per_unit as i64 - solver.tree.costs[a.start]
                + solver.tree.costs[a.end];
            assert!(red >= 0);
        }
    }
}

#[test]
fn solve_is_idempotent() {
    let mut solver = Solution::new(8, &small_instance_arcs()).unwrap();
    solver.solve(100_000).unwrap();
    let total = solver.total_cost;
    let caps: Vec<u32> = solver.arcs.iter().map(|a| a.capacity).collect();
    let marks: Vec<bool> = solver.arcs.iter().map(|a| a.on_tree).collect();
    solver.solve(100_000).unwrap();
    assert_eq!(solver.total_cost, total);
    let caps2: Vec<u32> = solver.arcs.iter().map(|a| a.capacity).collect();
    let marks2: Vec<bool> = solver.arcs.iter().map(|a| a.on_tree).collect();
    assert_eq!(caps, caps2);
    assert_eq!(marks, marks2);
}

#[test]
fn negative_cycle_is_cancelled() {
    // A two-node cycle whose round trip is profitable: one unit circulates
    // twice, for a total cost of 2 * (1 - 3) = -4.
    let arcs = vec![Arc::new(0, 1, 2, 1), Arc::new(1, 0, 2, -3)];
    let mut solver = Solution::new(2, &arcs).unwrap();
    solver.solve(100_000).unwrap();
    assert_eq!(solver.total_cost, -4);
    assert_eq!(solver.arcs[2].capacity, 0);
    assert_eq!(solver.arcs[4].capacity, 0);
}

#[test]
fn invalid_endpoint_is_rejected() {
    let arcs = vec![Arc::new(0, 5, 1, 0)];
    let r = Solution::new(3, &arcs);
    assert!(matches!(r, Err(FlowError::InvalidArcEndpoint)));
}

#[test]
fn disconnected_network_is_rejected() {
    let arcs = vec![Arc::new(0, 1, 1, 0), Arc::new(2, 3, 1, 0)];
    let r = Solution::new(4, &arcs);
    assert!(matches!(r, Err(FlowError::DisconnectedNetwork)));
}

#[test]
fn empty_network_is_rejected() {
    let arcs: Vec<Arc> = vec![];
    let r = Solution::new(0, &arcs);
    assert!(matches!(r, Err(FlowError::DisconnectedNetwork)));
}

#[test]
fn pivot_cap_is_reported() {
    let arcs = vec![Arc::new(0, 1, 2, 1), Arc::new(1, 0, 2, -3)];
    let mut solver = Solution::new(2, &arcs).unwrap();
    let r = solver.solve(0);
    assert!(matches!(r, Err(FlowError::DidNotConverge)));
}

#[test]
fn total_cost_overflow_is_reported() {
    // Circulating the full u32 capacity against the most negative costs
    // overflows the 64-bit accumulator partway through the pivot.
    let arcs = vec![
        Arc::new(0, 1, u32::MAX, -i32::MAX),
        Arc::new(1, 0, u32::MAX, -i32::MAX),
    ];
    let mut solver = Solution::new(2, &arcs).unwrap();
    let r = solver.solve(100_000);
    assert!(matches!(r, Err(FlowError::NumericOverflow)));
}

#[test]
fn arc_new_and_reverse() {
    let a = Arc::new(3, 5, 7, -11);
    assert_eq!(a.start, 3);
    assert_eq!(a.end, 5);
    assert_eq!(a.capacity, 7);
    assert_eq!(a.cost_per_unit, -11);
    assert!(!a.on_tree);
    let r = a.as_reverse();
    assert_eq!(r.start, 5);
    assert_eq!(r.end, 3);
    assert_eq!(r.capacity, 0);
    assert_eq!(r.cost_per_unit, 11);
}

#[test]
fn union_find_detects_cycles() {
    let mut ufs = UnionFindSet::new(4);
    assert!(matches!(ufs.union(0, 1), UnionResult::NotCycle));
    assert!(matches!(ufs.union(2, 3), UnionResult::NotCycle));
    assert!(matches!(ufs.union(1, 0), UnionResult::Cycle));
    assert!(matches!(ufs.union(1, 3), UnionResult::NotCycle));
    assert!(matches!(ufs.union(0, 2), UnionResult::Cycle));
    assert_eq!(ufs.find(3), 0);
    assert_eq!(ufs.find(2), 0);
}
