use ch_router::costs::{add_edge_costs, scalarize, COST_DIMENSION, INFINITY};
use ch_router::dijkstra::{Dijkstra, RouteError};
use ch_router::graph::{Edge, Graph};

fn cv(a: u64, b: u64, c: u64) -> Vec<u64> {
    vec![a, b, c]
}

fn plain_edge(source: usize, target: usize, costs: Vec<u64>) -> Edge {
    Edge::new(source, target, costs, -1, -1)
}

/// Three nodes, a two-edge route 0->1->2 of scalar cost 7 and a direct
/// edge 0->2 of scalar cost 9 under weight (1, 0, 0).
fn triangle() -> Graph {
    let edges = vec![
        plain_edge(0, 1, cv(3, 1, 0)),
        plain_edge(1, 2, cv(4, 1, 0)),
        plain_edge(0, 2, cv(9, 0, 0)),
    ];
    Graph::new(4, edges).unwrap()
}

#[test]
fn from_isolated() {
    // node 3 has no edges at all: starting there finds nothing
    let g = triangle();
    let mut d = Dijkstra::new();
    assert!(d.find_shortest_path(&g, 3, 2, &cv(1, 0, 0)).is_none());
}

#[test]
fn to_isolated() {
    // node 3 has no edges at all: aiming there finds nothing
    let g = triangle();
    let mut d = Dijkstra::new();
    assert!(d.find_shortest_path(&g, 0, 3, &cv(1, 0, 0)).is_none());
}

#[test]
fn to_one_way() {
    let edges = vec![plain_edge(0, 1, cv(2, 0, 0))];
    let g = Graph::new(2, edges).unwrap();
    let mut d = Dijkstra::new();
    let r = d.find_shortest_path(&g, 0, 1, &cv(1, 0, 0)).unwrap();
    assert_eq!(r.0, vec![0]);
    assert_eq!(r.2, 2);
}

#[test]
fn from_one_way() {
    // the only edge runs 0 -> 1, so there is no route 1 -> 0
    let edges = vec![plain_edge(0, 1, cv(2, 0, 0))];
    let g = Graph::new(2, edges).unwrap();
    let mut d = Dijkstra::new();
    assert!(d.find_shortest_path(&g, 1, 0, &cv(1, 0, 0)).is_none());
}

#[test]
fn normal_case() {
    let g = triangle();
    let mut d = Dijkstra::new();
    let r = d.find_shortest_path(&g, 0, 2, &cv(1, 0, 0)).unwrap();
    assert_eq!(r.0, vec![0, 1]);
    assert_eq!(r.1, cv(7, 2, 0));
    assert_eq!(r.2, 7);
}

#[test]
fn source_equals_target_returns_empty_zero_cost_path() {
    let g = triangle();
    let mut d = Dijkstra::new();
    let r = d.find_shortest_path(&g, 1, 1, &cv(1, 1, 1)).unwrap();
    assert_eq!(r.0, Vec::<usize>::new());
    assert_eq!(r.1, cv(0, 0, 0));
    assert_eq!(r.2, 0);
}

#[test]
fn returned_scalar_equals_scalarized_vector() {
    let g = triangle();
    let w = cv(2, 1, 0);
    let mut d = Dijkstra::new();
    let r = d.find_shortest_path(&g, 0, 2, &w).unwrap();
    // route 0->1->2: vector (7, 2, 0), scalar 2*7 + 1*2 = 16; direct edge scores 18
    assert_eq!(r.0, vec![0, 1]);
    assert_eq!(r.1, cv(7, 2, 0));
    assert_eq!(r.2, 16);
    assert_eq!(r.2, scalarize(&r.1, &w));
}

#[test]
fn disconnected_pair_returns_none() {
    // two components: {0, 1} and {2, 3}
    let edges = vec![plain_edge(0, 1, cv(1, 0, 0)), plain_edge(2, 3, cv(1, 0, 0))];
    let g = Graph::new(4, edges).unwrap();
    let mut d = Dijkstra::new();
    assert!(d.find_shortest_path(&g, 0, 3, &cv(1, 0, 0)).is_none());
}

#[test]
fn raising_a_weight_component_never_lowers_the_cost() {
    let g = triangle();
    let mut d = Dijkstra::new();
    let before = d.find_shortest_path(&g, 0, 2, &cv(1, 0, 0)).unwrap().2;
    // raising the second weight makes the two-edge route dearer, so the
    // best route switches to the direct edge; the cost must not drop
    let after = d.find_shortest_path(&g, 0, 2, &cv(1, 3, 0)).unwrap().2;
    assert_eq!(before, 7);
    assert_eq!(after, 9);
    assert!(after >= before);
}

#[test]
fn edge_costs_of_returned_route_sum_to_returned_vector() {
    let g = triangle();
    let mut d = Dijkstra::new();
    let r = d.find_shortest_path(&g, 0, 2, &cv(1, 0, 0)).unwrap();
    let mut sum = vec![0u64; COST_DIMENSION];
    for &edge_id in &r.0 {
        let expected = match edge_id {
            0 => cv(3, 1, 0),
            1 => cv(4, 1, 0),
            2 => cv(9, 0, 0),
            _ => panic!("unknown edge id"),
        };
        for k in 0..COST_DIMENSION {
            sum[k] += expected[k];
        }
    }
    assert_eq!(sum, r.1);
}

#[test]
fn shortcut_unpacks_in_stored_order_for_both_origins() {
    // edge 2 is a shortcut standing for edges (0, 1)
    let edges = vec![
        plain_edge(0, 1, cv(1, 0, 0)),
        plain_edge(1, 2, cv(2, 0, 0)),
        Edge::new(0, 2, cv(3, 0, 0), 0, 1),
    ];
    let g = Graph::new(3, edges).unwrap();
    // traversed forward from its source
    assert_eq!(g.unwrap_edges(vec![2], 0), vec![0, 1]);
    // discovered as part of a backward segment: same original order
    assert_eq!(g.unwrap_edges(vec![2], 2), vec![0, 1]);
}

#[test]
fn route_through_shortcut_returns_original_edges() {
    // the shortcut 0->2 is cheaper than the chain it replaces, so the
    // search takes it; the reported path must hold original edges only
    let edges = vec![
        plain_edge(0, 1, cv(5, 0, 0)),
        plain_edge(1, 2, cv(5, 0, 0)),
        Edge::new(0, 2, cv(4, 0, 0), 0, 1),
        plain_edge(2, 3, cv(1, 0, 0)),
    ];
    let g = Graph::new(4, edges).unwrap();
    let mut d = Dijkstra::new();
    let r = d.find_shortest_path(&g, 0, 3, &cv(1, 0, 0)).unwrap();
    assert_eq!(r.0, vec![0, 1, 3]);
    assert_eq!(r.2, 5);
}

#[test]
fn out_of_range_endpoint_is_an_input_error() {
    let g = triangle();
    let mut d = Dijkstra::new();
    let r = d.find_shortest_path_checked(&g, 0, 99, &cv(1, 0, 0));
    assert_eq!(r, Err(RouteError::InvalidNodeId));
    let r = d.find_shortest_path_checked(&g, 99, 0, &cv(1, 0, 0));
    assert_eq!(r, Err(RouteError::InvalidNodeId));
}

#[test]
fn wrong_weight_dimension_is_an_input_error() {
    let g = triangle();
    let mut d = Dijkstra::new();
    let r = d.find_shortest_path_checked(&g, 0, 2, &vec![1u64, 2u64]);
    assert_eq!(r, Err(RouteError::InvalidCostInput));
}

#[test]
fn checked_entry_accepts_a_valid_query() {
    let g = triangle();
    let mut d = Dijkstra::new();
    let r = d.find_shortest_path_checked(&g, 0, 2, &cv(1, 0, 0)).unwrap();
    let p = r.unwrap();
    assert_eq!(p.0, vec![0, 1]);
    assert_eq!(p.2, 7);
}

#[test]
fn graph_rejects_out_of_range_endpoint() {
    let edges = vec![plain_edge(0, 5, cv(1, 0, 0))];
    assert!(Graph::new(2, edges).is_none());
}

#[test]
fn graph_rejects_forward_shortcut_reference() {
    // a shortcut may only reference earlier edges
    let edges = vec![
        Edge::new(0, 1, cv(1, 0, 0), 1, 2),
        plain_edge(1, 2, cv(1, 0, 0)),
        plain_edge(0, 1, cv(1, 0, 0)),
    ];
    assert!(Graph::new(3, edges).is_none());
}

#[test]
fn graph_rejects_wrong_cost_dimension() {
    let edges = vec![Edge::new(0, 1, vec![1u64], -1, -1)];
    assert!(Graph::new(2, edges).is_none());
}

#[test]
fn unreached_distance_marker_is_largest_scalar() {
    assert_eq!(INFINITY, u64::MAX);
}

#[test]
fn unpacking_a_consistent_shortcut_keeps_its_cost() {
    // the shortcut's stored cost is the componentwise sum of (A, B), so
    // the unpacked edges carry exactly the cost the path reported
    let a = cv(1, 2, 0);
    let b = cv(2, 1, 0);
    let shortcut_cost = add_edge_costs(&a, &b);
    let edges = vec![
        plain_edge(0, 1, a.clone()),
        plain_edge(1, 2, b.clone()),
        Edge::new(0, 2, shortcut_cost.clone(), 0, 1),
    ];
    let g = Graph::new(3, edges).unwrap();
    let unpacked = g.unwrap_edges(vec![2], 0);
    assert_eq!(unpacked, vec![0, 1]);
    assert_eq!(add_edge_costs(&a, &b), shortcut_cost);
}

#[test]
fn a_later_cheaper_route_supersedes_an_earlier_label() {
    // the direct edge 0->1 is found first, then the detour over node 2
    // improves it, leaving a stale queue entry to be discarded
    let edges = vec![
        plain_edge(0, 1, cv(10, 0, 0)),
        plain_edge(0, 2, cv(1, 0, 0)),
        plain_edge(2, 1, cv(1, 0, 0)),
    ];
    let g = Graph::new(3, edges).unwrap();
    let mut d = Dijkstra::new();
    let r = d.find_shortest_path(&g, 0, 1, &cv(1, 0, 0)).unwrap();
    assert_eq!(r.0, vec![1, 2]);
    assert_eq!(r.1, cv(2, 0, 0));
    assert_eq!(r.2, 2);
}
