use dronenet::error::ProtocolError;
use dronenet::packet::NodeType::{Client, Drone, Server};
use dronenet::router::compute_route;
use dronenet::topology::Topology;

fn store_of(traces: &[&[(u8, dronenet::packet::NodeType)]]) -> Topology {
    let mut store = Topology::new();
    for trace in traces {
        assert_eq!(store.record_path(trace), Ok(()));
    }
    store
}

#[test]
fn new_store_knows_nothing() {
    let store = Topology::new();
    assert_eq!(store.nodes(), vec![]);
    assert_eq!(store.edges().len(), 0);
    assert_eq!(store.node_type(0), None);
    assert!(!store.has_edge(0, 0));
}

#[test]
fn record_path_adds_nodes_and_links() {
    let store = store_of(&[&[(1, Client), (2, Drone), (5, Server)]]);
    assert_eq!(store.nodes(), vec![(1, Client), (2, Drone), (5, Server)]);
    assert_eq!(store.edges().to_vec(), vec![(1, 2), (2, 5)]);
    assert_eq!(store.node_type(2), Some(Drone));
    assert_eq!(store.node_type(3), None);
}

#[test]
fn links_are_undirected() {
    let store = store_of(&[&[(9, Server), (4, Drone), (1, Client)]]);
    assert_eq!(store.edges().to_vec(), vec![(4, 9), (1, 4)]);
    assert!(store.has_edge(4, 9));
    assert!(store.has_edge(9, 4));
    assert!(store.has_edge(1, 4));
    assert!(!store.has_edge(1, 9));
}

#[test]
fn nodes_come_by_ascending_identifier() {
    let store = store_of(&[&[(200, Drone), (3, Drone), (77, Server), (0, Client)]]);
    assert_eq!(store.nodes(), vec![(0, Client), (3, Drone), (77, Server), (200, Drone)]);
}

#[test]
fn recording_twice_is_recording_once() {
    let trace = [(1, Client), (2, Drone), (3, Drone), (5, Server)];
    let once = store_of(&[&trace]);
    let twice = store_of(&[&trace, &trace]);
    assert_eq!(once.nodes(), twice.nodes());
    assert_eq!(once.edges(), twice.edges());
}

#[test]
fn recording_twice_after_other_paths_changes_nothing() {
    let first = [(1, Client), (2, Drone), (5, Server)];
    let second = [(1, Client), (3, Drone), (2, Drone)];
    let mut store = store_of(&[&first, &second]);
    let nodes = store.nodes();
    let edges = store.edges().to_vec();
    assert_eq!(store.record_path(&first), Ok(()));
    assert_eq!(store.record_path(&second), Ok(()));
    assert_eq!(store.nodes(), nodes);
    assert_eq!(store.edges().to_vec(), edges);
    assert_eq!(edges, vec![(1, 2), (2, 5), (1, 3), (2, 3)]);
}

#[test]
fn a_path_that_walks_a_link_twice_stores_it_once() {
    let store = store_of(&[&[(1, Client), (2, Drone), (1, Client), (2, Drone)]]);
    assert_eq!(store.nodes(), vec![(1, Client), (2, Drone)]);
    assert_eq!(store.edges().to_vec(), vec![(1, 2)]);
}

#[test]
fn empty_and_single_traces() {
    let mut store = Topology::new();
    assert_eq!(store.record_path(&[]), Ok(()));
    assert_eq!(store.nodes(), vec![]);
    assert_eq!(store.record_path(&[(8, Drone)]), Ok(()));
    assert_eq!(store.nodes(), vec![(8, Drone)]);
    assert_eq!(store.edges().len(), 0);
}

#[test]
fn conflict_with_the_store_is_reported_and_changes_nothing() {
    let mut store = store_of(&[&[(1, Client), (2, Drone), (5, Server)]]);
    let result = store.record_path(&[(1, Client), (7, Drone), (2, Server), (9, Drone)]);
    assert_eq!(result, Err(ProtocolError::TypeConflict(2)));
    assert_eq!(store.nodes(), vec![(1, Client), (2, Drone), (5, Server)]);
    assert_eq!(store.edges().to_vec(), vec![(1, 2), (2, 5)]);
}

#[test]
fn conflict_inside_a_trace_is_reported() {
    let mut store = Topology::new();
    let result = store.record_path(&[(1, Client), (2, Drone), (1, Drone)]);
    assert_eq!(result, Err(ProtocolError::TypeConflict(1)));
    assert_eq!(store.nodes(), vec![]);
    assert_eq!(store.edges().len(), 0);
}

#[test]
fn the_first_conflict_is_the_one_reported() {
    let mut store = store_of(&[&[(1, Client), (2, Drone), (5, Server)]]);
    let result = store.record_path(&[(5, Drone), (2, Client), (1, Server)]);
    assert_eq!(result, Err(ProtocolError::TypeConflict(5)));
}

#[test]
fn route_over_one_drone() {
    let store = store_of(&[&[(1, Client), (2, Drone), (5, Server)]]);
    assert_eq!(compute_route(&store, 1, 5), Ok(vec![1, 2, 5]));
    assert_eq!(compute_route(&store, 5, 1), Ok(vec![5, 2, 1]));
}

#[test]
fn unknown_destination_has_no_route() {
    let store = store_of(&[&[(1, Client), (2, Drone), (5, Server)]]);
    assert_eq!(compute_route(&store, 1, 9), Err(ProtocolError::NoRouteFound));
    assert_eq!(compute_route(&store, 9, 9), Err(ProtocolError::NoRouteFound));
    assert_eq!(compute_route(&Topology::new(), 1, 5), Err(ProtocolError::NoRouteFound));
}

#[test]
fn unknown_source_has_no_route() {
    let store = store_of(&[&[(1, Client), (2, Drone), (5, Server)]]);
    assert_eq!(compute_route(&store, 9, 5), Err(ProtocolError::NoRouteFound));
}

#[test]
fn direct_neighbor_is_reached_directly() {
    let store = store_of(&[&[(1, Client), (5, Server)], &[(1, Client), (2, Drone), (5, Server)]]);
    assert_eq!(compute_route(&store, 1, 5), Ok(vec![1, 5]));
}

#[test]
fn route_to_oneself_is_the_node_alone() {
    let store = store_of(&[&[(1, Client), (2, Drone)]]);
    assert_eq!(compute_route(&store, 1, 1), Ok(vec![1]));
}

#[test]
fn a_drone_may_be_the_destination() {
    let store = store_of(&[&[(1, Client), (2, Drone), (3, Drone)]]);
    assert_eq!(compute_route(&store, 1, 3), Ok(vec![1, 2, 3]));
}

#[test]
fn equal_length_routes_resolve_by_lowest_node() {
    let store = store_of(&[
        &[(1, Client), (3, Drone), (5, Server)],
        &[(1, Client), (2, Drone), (5, Server)],
        &[(1, Client), (4, Drone), (5, Server)],
    ]);
    assert_eq!(compute_route(&store, 1, 5), Ok(vec![1, 2, 5]));
}

#[test]
fn tie_break_at_a_later_hop() {
    let store = store_of(&[
        &[(1, Client), (2, Drone), (7, Drone), (9, Server)],
        &[(1, Client), (2, Drone), (4, Drone), (9, Server)],
        &[(1, Client), (3, Drone), (4, Drone)],
    ]);
    assert_eq!(compute_route(&store, 1, 9), Ok(vec![1, 2, 4, 9]));
}

#[test]
fn tie_break_prefers_the_earlier_difference() {
    let store = store_of(&[
        &[(1, Client), (3, Drone), (4, Drone), (9, Server)],
        &[(1, Client), (2, Drone), (8, Drone), (9, Server)],
    ]);
    assert_eq!(compute_route(&store, 1, 9), Ok(vec![1, 2, 8, 9]));
}

#[test]
fn shorter_route_wins_over_lower_nodes() {
    let store = store_of(&[
        &[(10, Client), (1, Drone), (2, Drone), (20, Server)],
        &[(10, Client), (9, Drone), (20, Server)],
    ]);
    assert_eq!(compute_route(&store, 10, 20), Ok(vec![10, 9, 20]));
}

#[test]
fn servers_and_clients_do_not_relay() {
    let store = store_of(&[
        &[(1, Client), (6, Server), (5, Server)],
        &[(1, Client), (7, Client), (5, Server)],
        &[(1, Client), (2, Drone), (3, Drone), (5, Server)],
    ]);
    assert_eq!(compute_route(&store, 1, 5), Ok(vec![1, 2, 3, 5]));
}

#[test]
fn without_a_drone_path_there_is_no_route() {
    let store = store_of(&[&[(1, Client), (6, Server), (5, Server)]]);
    assert_eq!(compute_route(&store, 1, 5), Err(ProtocolError::NoRouteFound));
    assert_eq!(compute_route(&store, 1, 6), Ok(vec![1, 6]));
}

#[test]
fn route_is_the_same_on_repeated_calls() {
    let store = store_of(&[
        &[(1, Client), (3, Drone), (5, Server)],
        &[(1, Client), (2, Drone), (4, Drone), (5, Server)],
        &[(1, Client), (2, Drone), (5, Server)],
    ]);
    let first = compute_route(&store, 1, 5);
    for _ in 0..5 {
        assert_eq!(compute_route(&store, 1, 5), first);
    }
    assert_eq!(first, Ok(vec![1, 2, 5]));
}

#[test]
fn route_does_not_depend_on_the_order_of_discovery() {
    let a = store_of(&[
        &[(1, Client), (3, Drone), (5, Server)],
        &[(1, Client), (2, Drone), (5, Server)],
    ]);
    let b = store_of(&[
        &[(5, Server), (2, Drone), (1, Client)],
        &[(5, Server), (3, Drone), (1, Client)],
    ]);
    assert_eq!(compute_route(&a, 1, 5), compute_route(&b, 1, 5));
}

#[test]
fn long_chain_of_drones() {
    let mut trace = vec![(0u8, Client)];
    for id in 1..255u8 {
        trace.push((id, Drone));
    }
    trace.push((255, Server));
    let store = store_of(&[&trace]);
    let expected: Vec<u8> = (0..=255u8).collect();
    assert_eq!(compute_route(&store, 0, 255), Ok(expected));
}
