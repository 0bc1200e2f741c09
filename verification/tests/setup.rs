//! Setup-time behaviour: registration, lookups, and the setup errors.
use railsim::edge::Edge;
use railsim::network::Network;
use railsim::node::Node;
use railsim::package::Package;
use railsim::train::Train;
use railsim::SimError;

fn s(x: &str) -> String {
    x.to_string()
}

#[test]
fn register_and_look_up_stations() {
    let mut net = Network::new();
    let nodes = vec![Node::new(s("A")), Node::new(s("B")), Node::new(s("C"))];
    assert_eq!(net.initialize_node(nodes), Ok(()));
    assert_eq!(net.get_node(s("A")), Ok(0));
    assert_eq!(net.get_node(s("B")), Ok(1));
    assert_eq!(net.get_node(s("C")), Ok(2));
    assert_eq!(net.get_node(s("D")), Err(SimError::NotFound));
}

#[test]
fn duplicate_station_name_is_rejected() {
    let mut net = Network::new();
    let nodes = vec![Node::new(s("A")), Node::new(s("B")), Node::new(s("A"))];
    assert_eq!(net.initialize_node(nodes), Err(SimError::DuplicateName));
    // Nothing was registered.
    assert_eq!(net.get_node(s("A")), Err(SimError::NotFound));
}

#[test]
fn edge_with_unknown_station_is_rejected() {
    let mut net = Network::new();
    net.initialize_node(vec![Node::new(s("A")), Node::new(s("B"))]).unwrap();
    let edges = vec![Edge::new(s("E1"), 0, 1, 10), Edge::new(s("E2"), 1, 7, 10)];
    assert_eq!(net.initialize_edge(edges), Err(SimError::NotFound));
}

#[test]
fn edges_register_with_their_start_station() {
    let mut net = Network::new();
    net.initialize_node(vec![Node::new(s("A")), Node::new(s("B"))]).unwrap();
    let edges = vec![Edge::new(s("E1"), 0, 1, 10), Edge::new(s("E1 R"), 1, 0, 10)];
    assert_eq!(net.initialize_edge(edges), Ok(()));
    assert_eq!(net.get_edge(s("E1")), Ok(0));
    assert_eq!(net.get_edge(s("E1 R")), Ok(1));
    assert_eq!(net.get_edge(s("E9")), Err(SimError::NotFound));
    // Each station's outgoing list holds exactly the rail that leaves it.
    assert_eq!(net.node[0].edge, vec![0]);
    assert_eq!(net.node[1].edge, vec![1]);
    let nbrs = net.node[0].get_neighbours(&net.edge);
    assert_eq!(nbrs, vec![(1usize, 10u64)]);
}

#[test]
fn train_at_unknown_station_is_rejected() {
    let mut net = Network::new();
    net.initialize_node(vec![Node::new(s("A"))]).unwrap();
    let trains = vec![Train::new(s("Q1"), 5, 3)];
    assert_eq!(net.initialize_train(trains), Err(SimError::NotFound));
}

#[test]
fn train_start_marks_station_critical() {
    let mut net = Network::new();
    net.initialize_node(vec![Node::new(s("A")), Node::new(s("B"))]).unwrap();
    assert!(!net.node[0].is_critical());
    net.initialize_train(vec![Train::new(s("Q1"), 5, 0)]).unwrap();
    assert!(net.node[0].is_critical());
    assert!(!net.node[1].is_critical());
    assert_eq!(net.get_train(s("Q1")), Ok(0));
    assert_eq!(net.get_train(s("Q2")), Err(SimError::NotFound));
}

#[test]
fn package_joins_both_endpoint_stations() {
    let mut net = Network::new();
    net.initialize_node(vec![Node::new(s("A")), Node::new(s("B"))]).unwrap();
    net.initialize_package(vec![Package::new(s("K1"), 5, 0, 1)]).unwrap();
    assert!(net.node[0].is_critical());
    assert!(net.node[1].is_critical());
    assert_eq!(net.node[0].get_package(), vec![0]);
    assert_eq!(net.node[1].get_drop_off(), vec![0]);
    assert_eq!(net.get_package(s("K1")), Ok(0));
    assert_eq!(net.get_package(s("K2")), Err(SimError::NotFound));
}

#[test]
fn package_with_unknown_station_is_rejected() {
    let mut net = Network::new();
    net.initialize_node(vec![Node::new(s("A"))]).unwrap();
    let pkgs = vec![Package::new(s("K1"), 5, 0, 9)];
    assert_eq!(net.initialize_package(pkgs), Err(SimError::NotFound));
}

#[test]
fn missing_rail_toward_a_hop_is_edge_not_found() {
    let mut net = Network::new();
    net.initialize_node(vec![Node::new(s("A")), Node::new(s("B"))]).unwrap();
    net.initialize_edge(vec![Edge::new(s("E1"), 0, 1, 10)]).unwrap();
    // Station B has no outgoing rails at all.
    assert_eq!(net.node[1].get_edge(&net.edge, 0), Err(SimError::EdgeNotFound));
    // Station A has no rail to itself.
    assert_eq!(net.node[0].get_edge(&net.edge, 0), Err(SimError::EdgeNotFound));
    // But it has one to B.
    assert_eq!(net.node[0].get_edge(&net.edge, 1), Ok(0));
}

#[test]
fn delivered_flag_is_monotone() {
    let mut p = Package::new(s("K1"), 5, 0, 1);
    assert!(!p.get_arrived());
    p.arrive();
    assert!(p.get_arrived());
    p.arrive();
    assert!(p.get_arrived());
    assert_eq!(p.get_name(), s("K1"));
    assert_eq!(p.get_weight(), 5);
    assert_eq!(p.get_start_node(), 0);
    assert_eq!(p.get_end_node(), 1);
}

#[test]
fn route_tables_rank_by_distance_stably() {
    let mut n = Node::new(s("A"));
    n.add_shortest_path(30, 2, vec![None, Some(0), None]);
    n.add_shortest_path(10, 1, vec![None, None, None]);
    n.add_shortest_path(10, 3, vec![Some(1), None, None]);
    n.sort_shortest_dest();
    let t = n.get_shortest_path();
    assert_eq!(t.len(), 3);
    assert_eq!(t[0].distance_to_destination, 10);
    assert_eq!(t[0].destination, 1);
    assert_eq!(t[1].distance_to_destination, 10);
    assert_eq!(t[1].destination, 3);
    assert_eq!(t[2].distance_to_destination, 30);
    assert_eq!(t[2].destination, 2);
}

#[test]
fn build_network_assembles_a_ready_world() {
    let nodes = vec![Node::new(s("A")), Node::new(s("B"))];
    let edges = vec![Edge::new(s("E1"), 0, 1, 4), Edge::new(s("E1 R"), 1, 0, 4)];
    let trains = vec![Train::new(s("Q1"), 9, 0)];
    let packages = vec![Package::new(s("K1"), 2, 0, 1)];
    let mut net = Network::build_network(nodes, edges, trains, packages).unwrap();
    net.calculate_shortest_distance_between_packages();
    assert_eq!(net.simulate(), Ok(()));
    assert!(net.has_all_package_delivered());
}

#[test]
fn build_network_rejects_duplicate_stations() {
    let nodes = vec![Node::new(s("A")), Node::new(s("A"))];
    let r = Network::build_network(nodes, vec![], vec![], vec![]);
    assert!(matches!(r, Err(SimError::DuplicateName)));
}

#[test]
fn build_network_rejects_dangling_references() {
    let nodes = vec![Node::new(s("A"))];
    let edges = vec![Edge::new(s("E1"), 0, 5, 4)];
    let r = Network::build_network(nodes, edges, vec![], vec![]);
    assert!(matches!(r, Err(SimError::NotFound)));
}

#[test]
fn duplicate_rail_train_package_names_are_rejected() {
    let mut net = Network::new();
    net.initialize_node(vec![Node::new(s("A")), Node::new(s("B"))]).unwrap();
    let edges = vec![Edge::new(s("E1"), 0, 1, 3), Edge::new(s("E1"), 1, 0, 3)];
    assert_eq!(net.initialize_edge(edges), Err(SimError::DuplicateName));
    net.initialize_edge(vec![Edge::new(s("E1"), 0, 1, 3)]).unwrap();
    let trains = vec![Train::new(s("Q1"), 4, 0), Train::new(s("Q1"), 5, 1)];
    assert_eq!(net.initialize_train(trains), Err(SimError::DuplicateName));
    let pkgs = vec![Package::new(s("K1"), 1, 0, 1), Package::new(s("K1"), 2, 1, 0)];
    assert_eq!(net.initialize_package(pkgs), Err(SimError::DuplicateName));
}

#[test]
fn drop_off_set_keeps_no_duplicates() {
    let mut n = Node::new(s("B"));
    n.add_drop_off_package(3);
    n.add_drop_off_package(3);
    assert_eq!(n.get_drop_off(), vec![3]);
    assert!(n.is_critical());
}

#[test]
fn removal_is_idempotent_on_a_clean_pool() {
    let mut n = Node::new(s("A"));
    n.add_pick_up_package(1);
    n.add_pick_up_package(2);
    n.remove_package(1);
    assert_eq!(n.get_package(), vec![2]);
    n.remove_package(1);
    assert_eq!(n.get_package(), vec![2]);
}
