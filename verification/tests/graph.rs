use prahadlo::error::GtfsError;
use prahadlo::graph::{Edge, Node, NodeKind, Stop};
use prahadlo::spatial::Point;

fn departure(stop: usize, time: u32) -> Node {
    Node::new(stop, 0, 0, NodeKind::Dep, time)
}

fn open_stop() -> Stop {
    Stop::new("S".to_string(), "Stop".to_string(), Point { x: 0, y: 0 })
}

#[test]
fn edge_costs_the_time_between_its_ends() {
    let edge = Edge::new(100, 160, None, 3);
    assert_eq!(edge.cost(), 60);
    assert_eq!(edge.target_node, 3);
    assert_eq!(edge.trip_id, None);
    let ride = Edge::new(28800, 29100, Some("T1".to_string()), 1);
    assert_eq!(ride.cost(), 300);
    assert_eq!(ride.trip_id, Some("T1".to_string()));
    assert_eq!(Edge::new(5, 5, None, 0).cost(), 0);
}

#[test]
fn edge_is_cloned_field_by_field() {
    let ride = Edge::new(28800, 29100, Some("T1".to_string()), 1);
    let copy = ride.clone();
    assert_eq!(copy.departs_at, 28800);
    assert_eq!(copy.arrives_at, 29100);
    assert_eq!(copy.trip_id, Some("T1".to_string()));
    assert_eq!(copy.target_node, 1);
}

#[test]
fn node_starts_without_edges() {
    let mut node = Node::new(4, 2, 7, NodeKind::Arr, 3600);
    assert_eq!(node.get_time(), 3600);
    assert_eq!(node.event.stop, 4);
    assert_eq!(node.event.trip, 2);
    assert_eq!(node.event.seq, 7);
    assert_eq!(node.event.kind, NodeKind::Arr);
    assert!(node.get_edges().is_empty());
    node.add_edge(Edge::new(3600, 3660, None, 9));
    node.add_edge(Edge::new(3600, 3700, None, 11));
    assert_eq!(node.get_edges().len(), 2);
    assert_eq!(node.get_edges()[0].target_node, 9);
    assert_eq!(node.get_edges()[1].target_node, 11);
    assert_eq!(node.get_time(), 3600);
}

#[test]
fn stop_starts_open_and_empty() {
    let stop = open_stop();
    assert!(!Stop::default_state());
    assert!(!stop.finalized());
    assert_eq!(stop.dep_node_count(), 0);
    assert!(stop.get_dep_nodes().is_empty());
    assert_eq!(stop.stop_id, "S");
    assert_eq!(stop.stop_name, "Stop");
    assert_eq!(stop.position, Point { x: 0, y: 0 });
}

#[test]
fn open_stop_takes_departures_in_the_order_given() {
    let mut stop = open_stop();
    assert_eq!(stop.add_dep_node(5), Ok(()));
    assert_eq!(stop.add_dep_node(2), Ok(()));
    assert_eq!(stop.add_dep_node(9), Ok(()));
    assert_eq!(stop.dep_node_count(), 3);
    assert_eq!(stop.get_dep_node(0), 5);
    assert_eq!(stop.get_dep_node(1), 2);
    assert_eq!(stop.get_dep_node(2), 9);
    assert_eq!(stop.get_dep_nodes(), &vec![5, 2, 9]);
}

#[test]
fn open_stop_answers_no_lookup() {
    let mut stop = open_stop();
    let nodes = vec![departure(0, 100)];
    stop.add_dep_node(0).unwrap();
    assert_eq!(stop.get_earliest_dep(0, &nodes), Err(GtfsError::NotFinalized));
}

#[test]
fn finalized_stop_refuses_departures() {
    let mut stop = open_stop();
    let mut nodes = vec![departure(0, 100), departure(0, 50)];
    stop.add_dep_node(0).unwrap();
    stop.add_dep_node(1).unwrap();
    stop.finalize(&mut nodes);
    assert!(stop.finalized());
    assert_eq!(stop.add_dep_node(1), Err(GtfsError::AlreadyFinalized));
    assert_eq!(stop.dep_node_count(), 2);
}

#[test]
fn finalize_sorts_departures_by_time() {
    let mut stop = open_stop();
    let mut nodes = vec![
        departure(0, 300),
        departure(0, 100),
        departure(0, 200),
        departure(0, 50),
        departure(0, 400),
    ];
    for node in 0..5 {
        stop.add_dep_node(node).unwrap();
    }
    stop.finalize(&mut nodes);
    assert_eq!(stop.get_dep_nodes(), &vec![3, 1, 2, 0, 4]);
}

#[test]
fn finalize_breaks_ties_by_node_index() {
    let mut stop = open_stop();
    let mut nodes = vec![departure(0, 100), departure(0, 100), departure(0, 50), departure(0, 100)];
    for node in [3, 1, 2, 0] {
        stop.add_dep_node(node).unwrap();
    }
    stop.finalize(&mut nodes);
    assert_eq!(stop.get_dep_nodes(), &vec![2, 0, 1, 3]);
}

#[test]
fn finalize_chains_each_departure_to_the_next() {
    let mut stop = open_stop();
    let mut nodes = vec![departure(0, 300), departure(0, 100), departure(0, 220)];
    for node in 0..3 {
        stop.add_dep_node(node).unwrap();
    }
    stop.finalize(&mut nodes);
    assert_eq!(stop.get_dep_nodes(), &vec![1, 2, 0]);
    assert_eq!(nodes[1].get_edges().len(), 1);
    assert_eq!(nodes[1].get_edges()[0].target_node, 2);
    assert_eq!(nodes[1].get_edges()[0].departs_at, 100);
    assert_eq!(nodes[1].get_edges()[0].arrives_at, 220);
    assert_eq!(nodes[1].get_edges()[0].cost(), 120);
    assert_eq!(nodes[1].get_edges()[0].trip_id, None);
    assert_eq!(nodes[2].get_edges().len(), 1);
    assert_eq!(nodes[2].get_edges()[0].target_node, 0);
    assert_eq!(nodes[2].get_edges()[0].cost(), 80);
    assert!(nodes[0].get_edges().is_empty());
}

#[test]
fn finalize_links_the_last_pair_too() {
    let mut stop = open_stop();
    let mut nodes = vec![departure(0, 10), departure(0, 20)];
    stop.add_dep_node(0).unwrap();
    stop.add_dep_node(1).unwrap();
    stop.finalize(&mut nodes);
    assert_eq!(nodes[0].get_edges().len(), 1);
    assert_eq!(nodes[0].get_edges()[0].target_node, 1);
    assert!(nodes[1].get_edges().is_empty());
}

#[test]
fn finalize_of_a_stop_without_departures_adds_nothing() {
    let mut stop = open_stop();
    let mut nodes = vec![departure(1, 10)];
    stop.finalize(&mut nodes);
    assert!(stop.finalized());
    assert!(nodes[0].get_edges().is_empty());
    assert_eq!(stop.get_earliest_dep(0, &nodes), Ok(None));
}

#[test]
fn finalize_twice_changes_nothing() {
    let mut stop = open_stop();
    let mut nodes = vec![departure(0, 300), departure(0, 100)];
    stop.add_dep_node(0).unwrap();
    stop.add_dep_node(1).unwrap();
    stop.finalize(&mut nodes);
    stop.finalize(&mut nodes);
    assert_eq!(stop.get_dep_nodes(), &vec![1, 0]);
    assert_eq!(nodes[1].get_edges().len(), 1);
    assert!(nodes[0].get_edges().is_empty());
}

#[test]
fn finalize_keeps_the_edges_that_were_there() {
    let mut stop = open_stop();
    let mut nodes = vec![departure(0, 300), departure(0, 100), Node::new(1, 0, 1, NodeKind::Arr, 500)];
    nodes[1].add_edge(Edge::new(100, 500, Some("T".to_string()), 2));
    stop.add_dep_node(0).unwrap();
    stop.add_dep_node(1).unwrap();
    stop.finalize(&mut nodes);
    assert_eq!(nodes[1].get_edges().len(), 2);
    assert_eq!(nodes[1].get_edges()[0].target_node, 2);
    assert_eq!(nodes[1].get_edges()[0].trip_id, Some("T".to_string()));
    assert_eq!(nodes[1].get_edges()[1].target_node, 0);
    assert!(nodes[2].get_edges().is_empty());
}

#[test]
fn earliest_departure_is_the_first_at_or_after_the_time() {
    let mut stop = open_stop();
    let mut nodes = vec![departure(0, 300), departure(0, 100), departure(0, 200), departure(0, 400)];
    for node in 0..4 {
        stop.add_dep_node(node).unwrap();
    }
    stop.finalize(&mut nodes);
    assert_eq!(stop.get_earliest_dep(0, &nodes), Ok(Some(1)));
    assert_eq!(stop.get_earliest_dep(100, &nodes), Ok(Some(1)));
    assert_eq!(stop.get_earliest_dep(101, &nodes), Ok(Some(2)));
    assert_eq!(stop.get_earliest_dep(200, &nodes), Ok(Some(2)));
    assert_eq!(stop.get_earliest_dep(201, &nodes), Ok(Some(0)));
    assert_eq!(stop.get_earliest_dep(300, &nodes), Ok(Some(0)));
    assert_eq!(stop.get_earliest_dep(399, &nodes), Ok(Some(3)));
    assert_eq!(stop.get_earliest_dep(400, &nodes), Ok(Some(3)));
    assert_eq!(stop.get_earliest_dep(401, &nodes), Ok(None));
    assert_eq!(stop.get_earliest_dep(u32::MAX, &nodes), Ok(None));
}

#[test]
fn earliest_departure_among_equal_times_has_the_lowest_index() {
    let mut stop = open_stop();
    let mut nodes = vec![departure(0, 100), departure(0, 100), departure(0, 100), departure(0, 90)];
    for node in [2, 1, 0, 3] {
        stop.add_dep_node(node).unwrap();
    }
    stop.finalize(&mut nodes);
    assert_eq!(stop.get_earliest_dep(95, &nodes), Ok(Some(0)));
    assert_eq!(stop.get_earliest_dep(100, &nodes), Ok(Some(0)));
    assert_eq!(stop.get_earliest_dep(90, &nodes), Ok(Some(3)));
}

#[test]
fn node_registered_twice_stays_twice() {
    let mut stop = open_stop();
    let mut nodes = vec![departure(0, 300), departure(0, 100), departure(0, 200)];
    for node in [0, 1, 0, 2, 1, 1] {
        stop.add_dep_node(node).unwrap();
    }
    assert_eq!(stop.dep_node_count(), 6);
    stop.finalize(&mut nodes);
    assert_eq!(stop.dep_node_count(), 6);
    assert_eq!(stop.get_dep_nodes(), &vec![1, 1, 1, 2, 0, 0]);
    let targets = |x: usize| -> Vec<usize> {
        nodes[x].get_edges().iter().map(|e| e.target_node).collect()
    };
    assert_eq!(targets(1), vec![1, 1, 2]);
    assert_eq!(targets(2), vec![0]);
    assert_eq!(targets(0), vec![0]);
    assert_eq!(nodes[1].get_edges()[0].cost(), 0);
    assert_eq!(nodes[1].get_edges()[2].cost(), 100);
    assert_eq!(stop.get_earliest_dep(150, &nodes), Ok(Some(2)));
    assert_eq!(stop.get_earliest_dep(100, &nodes), Ok(Some(1)));
}
