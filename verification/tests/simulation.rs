//! End-to-end simulation runs: the worked delivery scenario, capacity
//! limits, the unservable configuration, and the movement log.
use railsim::edge::Edge;
use railsim::network::Network;
use railsim::node::Node;
use railsim::package::Package;
use railsim::train::{History, Location, Train};
use railsim::SimError;

fn s(x: &str) -> String {
    x.to_string()
}

/// Build a network from name-based descriptors, synthesizing the reverse
/// rail of every declared line, as the loading layer does.
fn build(
    stations: &[&str],
    lines: &[(&str, &str, &str, u64)],
    trains: &[(&str, u64, &str)],
    packages: &[(&str, u64, &str, &str)],
) -> Network {
    let mut net = Network::new();
    net.initialize_node(stations.iter().map(|n| Node::new(s(n))).collect()).unwrap();
    let mut edges = Vec::new();
    for &(name, a, b, w) in lines {
        let ia = net.get_node(s(a)).unwrap();
        let ib = net.get_node(s(b)).unwrap();
        edges.push(Edge::new(s(name), ia, ib, w));
        edges.push(Edge::new(format!("{} R", name), ib, ia, w));
    }
    net.initialize_edge(edges).unwrap();
    let mut ts = Vec::new();
    for &(name, cap, at) in trains {
        let ia = net.get_node(s(at)).unwrap();
        ts.push(Train::new(s(name), cap, ia));
    }
    net.initialize_train(ts).unwrap();
    let mut ps = Vec::new();
    for &(name, w, a, b) in packages {
        let ia = net.get_node(s(a)).unwrap();
        let ib = net.get_node(s(b)).unwrap();
        ps.push(Package::new(s(name), w, ia, ib));
    }
    net.initialize_package(ps).unwrap();
    net
}

#[test]
fn worked_single_package_delivery() {
    // Stations A,B,C; lines E1: A-B (30) and E2: B-C (10); train Q1 of
    // capacity 6 parked at B; package K1 of weight 5 from A to C.
    let mut net = build(
        &["A", "B", "C"],
        &[("E1", "A", "B", 30), ("E2", "B", "C", 10)],
        &[("Q1", 6, "B")],
        &[("K1", 5, "A", "C")],
    );
    net.calculate_shortest_distance_between_packages();
    // B's nearest critical station is C (10 away) but it offers nothing;
    // A (30 away) offers the pickup, so Q1 first heads for A.
    assert_eq!(net.simulate(), Ok(()));
    assert!(net.has_all_package_delivered());
    let k1 = net.get_package(s("K1")).unwrap();
    assert!(net.package[k1].get_arrived());

    let log = net.sorted_history();
    assert_eq!(log.len(), 3);
    // Departure from B with nothing loaded, closed by the arrival at A.
    assert_eq!(log[0].w, 0);
    assert_eq!(log[0].t, s("Q1"));
    assert_eq!(log[0].n1, s("B"));
    assert_eq!(log[0].p1, Vec::<String>::new());
    assert_eq!(log[0].n2, s("A"));
    assert_eq!(log[0].p2, Vec::<String>::new());
    // Departure from A carrying K1, closed by the arrival at B.
    assert_eq!(log[1].w, 30);
    assert_eq!(log[1].n1, s("A"));
    assert_eq!(log[1].p1, vec![s("K1")]);
    assert_eq!(log[1].n2, s("B"));
    assert_eq!(log[1].p2, Vec::<String>::new());
    // Departure from B, closed by the arrival at C where K1 is unloaded.
    assert_eq!(log[2].w, 60);
    assert_eq!(log[2].n1, s("B"));
    assert_eq!(log[2].p1, Vec::<String>::new());
    assert_eq!(log[2].n2, s("C"));
    assert_eq!(log[2].p2, vec![s("K1")]);
    // The log is non-decreasing in time, and the stopped train's record of
    // the leg it never took was pruned: every record has its arrival.
    for i in 1..log.len() {
        assert!(log[i - 1].w <= log[i].w);
    }
    for r in &log {
        assert!(!r.n2.is_empty());
    }
    let q1 = net.get_train(s("Q1")).unwrap();
    assert!(net.train[q1].is_not_end());
    assert!(matches!(net.train[q1].get_location(), Location::Node(_)));
}

#[test]
fn capacity_limits_each_load() {
    // Two packages of weight 4 wait at A for B; the train holds 6, so it
    // must make two trips, never exceeding its capacity.
    let mut net = build(
        &["A", "B"],
        &[("E1", "A", "B", 10)],
        &[("Q1", 6, "A")],
        &[("P1", 4, "A", "B"), ("P2", 4, "A", "B")],
    );
    net.calculate_shortest_distance_between_packages();
    assert_eq!(net.simulate(), Ok(()));
    assert!(net.has_all_package_delivered());
    let log = net.sorted_history();
    // First departure from A takes only the first package that fits.
    assert_eq!(log[0].n1, s("A"));
    assert_eq!(log[0].p1, vec![s("P1")]);
    // Every departure loads at most one of the two (4 + 4 > 6).
    for r in &log {
        assert!(r.p1.len() <= 1);
    }
}

#[test]
fn unreachable_delivery_is_detected() {
    // C is an island: no rail reaches it, so K1 can never arrive. The run
    // must end with the unservable-configuration error, not spin forever.
    let mut net = build(
        &["A", "B", "C"],
        &[("E1", "A", "B", 5)],
        &[("Q1", 6, "A")],
        &[("K1", 5, "A", "C")],
    );
    net.calculate_shortest_distance_between_packages();
    assert_eq!(net.simulate(), Err(SimError::UnreachableDelivery));
    assert!(!net.has_all_package_delivered());
}

#[test]
fn multiple_trains_and_packages_all_arrive() {
    // A larger web of stations with three trains sharing the work.
    let mut net = build(
        &[
            "A", "B", "C", "D", "E", "F", "G", "H", "I", "J", "K", "L", "M", "N", "O", "P", "Q",
            "R",
        ],
        &[
            ("E1", "A", "B", 5),
            ("E2", "A", "C", 7),
            ("E3", "A", "D", 11),
            ("E4", "A", "E", 17),
            ("E5", "E", "F", 7),
            ("E6", "F", "G", 6),
            ("E7", "G", "H", 3),
            ("E8", "H", "I", 1),
            ("E9", "I", "J", 1),
            ("E10", "E", "J", 10),
            ("E11", "J", "L", 9),
            ("E12", "J", "K", 12),
            ("E13", "L", "M", 8),
            ("E14", "L", "N", 10),
            ("E15", "K", "M", 4),
            ("E16", "N", "O", 13),
            ("E17", "P", "O", 15),
            ("E18", "E", "P", 9),
            ("E19", "O", "Q", 20),
            ("E20", "Q", "R", 22),
            ("E21", "M", "N", 10),
            ("E22", "H", "L", 15),
        ],
        &[("Q1", 6, "B"), ("Q2", 20, "Q"), ("Q3", 15, "J")],
        &[
            ("K1", 5, "C", "H"),
            ("K2", 16, "D", "M"),
            ("K3", 9, "R", "J"),
            ("K4", 15, "H", "Q"),
            ("K5", 10, "K", "H"),
        ],
    );
    net.calculate_shortest_distance_between_packages();
    assert_eq!(net.simulate(), Ok(()));
    assert!(net.has_all_package_delivered());
    let log = net.sorted_history();
    for i in 1..log.len() {
        assert!(log[i - 1].w <= log[i].w);
    }
}

#[test]
fn log_merge_is_stable_on_equal_stamps() {
    // Two trains each hold one record with the same stamp: the merged log
    // keeps the first train's record first.
    let mut net = Network::new();
    net.initialize_node(vec![Node::new(s("A")), Node::new(s("B"))]).unwrap();
    net.initialize_train(vec![Train::new(s("Q1"), 1, 0), Train::new(s("Q2"), 1, 1)]).unwrap();
    let mut h1 = History::new(7, s("Q1"));
    h1.register_departure(s("A"), vec![]);
    let mut h0 = History::new(3, s("Q1"));
    h0.register_departure(s("A"), vec![]);
    net.train[0].history = vec![h0, h1];
    let mut h2 = History::new(7, s("Q2"));
    h2.register_departure(s("B"), vec![]);
    net.train[1].history = vec![h2];
    let log = net.sorted_history();
    assert_eq!(log.len(), 3);
    assert_eq!(log[0].w, 3);
    assert_eq!(log[1].w, 7);
    assert_eq!(log[1].t, s("Q1"));
    assert_eq!(log[2].w, 7);
    assert_eq!(log[2].t, s("Q2"));
}

#[test]
fn stopped_train_never_moves_again() {
    // One package, one train: after the delivery the train stops; ticking
    // the network further (directly) leaves the stopped train untouched.
    let mut net = build(
        &["A", "B"],
        &[("E1", "A", "B", 2)],
        &[("Q1", 6, "A")],
        &[("K1", 1, "A", "B")],
    );
    net.calculate_shortest_distance_between_packages();
    assert_eq!(net.simulate(), Ok(()));
    let q1 = net.get_train(s("Q1")).unwrap();
    assert!(net.train[q1].is_not_end());
    let hist_len = net.train[q1].get_history().len();
    let mut t = net.train.remove(q1);
    let time = net.time;
    let r = t.deliver(time, &mut net.node, &net.edge, &mut net.package);
    assert_eq!(r, Ok(()));
    assert_eq!(t.get_history().len(), hist_len);
    assert!(matches!(t.get_location(), Location::Node(_)));
    net.train.insert(q1, t);
}
