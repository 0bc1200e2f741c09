//! Shortest-path precomputation: distances checked against brute force, and
//! heap-driven search order.
use railsim::edge::Edge;
use railsim::network::Network;
use railsim::node::Node;
use railsim::package::Package;
use railsim::train::Train;

fn s(x: &str) -> String {
    x.to_string()
}

/// Brute force: the least walk weight from `src` to every station, by
/// relaxing every rail until nothing changes (enough rounds for any simple
/// walk on so small a graph).
fn brute_force_distances(n: usize, edges: &[(usize, usize, u64)], src: usize) -> Vec<Option<u64>> {
    let mut dist: Vec<Option<u64>> = vec![None; n];
    dist[src] = Some(0);
    for _round in 0..n + 1 {
        for &(a, b, w) in edges {
            if let Some(da) = dist[a] {
                let cand = da + w;
                if dist[b].map_or(true, |db| cand < db) {
                    dist[b] = Some(cand);
                }
            }
        }
    }
    dist
}

fn diamond_network() -> (Network, Vec<(usize, usize, u64)>) {
    // A diamond with a long shortcut and an unreachable island:
    //   A -1- B -1- C,  A -5- C,  C -2- D (one way),  E isolated.
    let mut net = Network::new();
    net.initialize_node(vec![
        Node::new(s("A")),
        Node::new(s("B")),
        Node::new(s("C")),
        Node::new(s("D")),
        Node::new(s("E")),
    ])
    .unwrap();
    let raw = vec![(0usize, 1usize, 1u64), (1, 0, 1), (1, 2, 1), (2, 1, 1), (0, 2, 5), (2, 0, 5), (2, 3, 2)];
    let mut edges = Vec::new();
    for (i, &(a, b, w)) in raw.iter().enumerate() {
        edges.push(Edge::new(format!("E{}", i), a, b, w));
    }
    net.initialize_edge(edges).unwrap();
    (net, raw)
}

#[test]
fn shortest_distances_match_brute_force() {
    let (net, raw) = diamond_network();
    for src in 0..5usize {
        let (dist, _prev) = net.dijkstra(src);
        let expect = brute_force_distances(5, &raw, src);
        assert_eq!(dist, expect, "distances from station {}", src);
    }
}

#[test]
fn nearer_station_wins_over_direct_rail() {
    // The direct rail A-C weighs 5, but the two-hop walk through B weighs 2.
    // Getting 2 (not 5) requires the frontier to hand out the least
    // tentative distance first.
    let (net, _) = diamond_network();
    let (dist, prev) = net.dijkstra(0);
    assert_eq!(dist[2], Some(2));
    // The predecessor on the shortest walk to C is B, not A.
    assert_eq!(prev[2], Some(1));
    assert_eq!(prev[1], Some(0));
    assert_eq!(prev[0], None);
    // The island stays unreached, never recorded with a made-up distance.
    assert_eq!(dist[4], None);
    assert_eq!(prev[4], None);
}

#[test]
fn precomputation_attaches_exact_distances_to_critical_stations() {
    let (mut net, _) = diamond_network();
    // One package D -> A makes A, D critical; a train at B makes B critical.
    net.initialize_train(vec![Train::new(s("Q1"), 10, 1)]).unwrap();
    net.initialize_package(vec![Package::new(s("K1"), 1, 3, 0)]).unwrap();
    net.calculate_shortest_distance_between_packages();
    // Runs start at K1's endpoints: A (index 0) and D (index 3).
    // B is critical and 1 away from A; D is unreachable from anywhere
    // (its rail points in, none point out), so no run from D reaches B.
    let tb = net.node[1].get_shortest_path();
    assert_eq!(tb.len(), 1);
    assert_eq!(tb[0].destination, 0);
    assert_eq!(tb[0].distance_to_destination, 1);
    // D is critical and 4 away from A (A-B-C-D = 1+1+2).
    let td = net.node[3].get_shortest_path();
    assert_eq!(td.len(), 1);
    assert_eq!(td[0].destination, 0);
    assert_eq!(td[0].distance_to_destination, 4);
    // The predecessor map of that run steps back along A-B-C-D.
    assert_eq!(td[0].path[3], Some(2));
    assert_eq!(td[0].path[2], Some(1));
    assert_eq!(td[0].path[1], Some(0));
    assert_eq!(td[0].path[0], None);
    // A is the source of its own run and gets no record for it; D's run
    // reaches nothing, so A's table stays empty.
    assert_eq!(net.node[0].get_shortest_path().len(), 0);
}
