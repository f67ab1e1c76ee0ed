use prahadlo::graph::{Edge, Node, NodeKind};
use prahadlo::queue::{put, take_earliest};
use prahadlo::search::earliest_arrival;

fn node(stop: usize, time: u32, targets: &[usize]) -> Node {
    let mut node = Node::new(stop, 0, 0, NodeKind::Dep, time);
    for target in targets {
        node.add_edge(Edge::new(time, time, None, *target));
    }
    node
}

fn reference(nodes: &Vec<Node>, seed: usize, dest: usize) -> Option<u32> {
    let mut seen = vec![false; nodes.len()];
    let mut stack = vec![seed];
    seen[seed] = true;
    let mut best: Option<u32> = None;
    while let Some(x) = stack.pop() {
        if nodes[x].event.stop == dest {
            best = Some(best.map_or(nodes[x].get_time(), |b| b.min(nodes[x].get_time())));
        }
        for edge in nodes[x].get_edges() {
            if !seen[edge.target_node] {
                seen[edge.target_node] = true;
                stack.push(edge.target_node);
            }
        }
    }
    best
}

#[test]
fn queue_hands_out_nodes_in_order_of_time() {
    let times = [50, 10, 40, 10, 30, 90, 20, 70, 60, 80, 0, 100];
    let nodes: Vec<Node> = times.iter().map(|t| node(0, *t, &[])).collect();
    let mut queue: Vec<usize> = Vec::new();
    for x in 0..nodes.len() {
        put(&mut queue, &nodes, x);
    }
    assert_eq!(queue.len(), 12);
    let mut taken = Vec::new();
    while !queue.is_empty() {
        let x = take_earliest(&mut queue, &nodes);
        taken.push(nodes[x].get_time());
    }
    assert_eq!(taken, vec![0, 10, 10, 20, 30, 40, 50, 60, 70, 80, 90, 100]);
}

#[test]
fn queue_takes_nodes_between_puts() {
    let nodes: Vec<Node> = [5, 3, 8, 1, 9, 2].iter().map(|t| node(0, *t, &[])).collect();
    let mut queue: Vec<usize> = Vec::new();
    put(&mut queue, &nodes, 0);
    put(&mut queue, &nodes, 1);
    put(&mut queue, &nodes, 2);
    assert_eq!(take_earliest(&mut queue, &nodes), 1);
    put(&mut queue, &nodes, 3);
    put(&mut queue, &nodes, 4);
    assert_eq!(take_earliest(&mut queue, &nodes), 3);
    assert_eq!(take_earliest(&mut queue, &nodes), 0);
    put(&mut queue, &nodes, 5);
    assert_eq!(take_earliest(&mut queue, &nodes), 5);
    assert_eq!(take_earliest(&mut queue, &nodes), 2);
    assert_eq!(take_earliest(&mut queue, &nodes), 4);
    assert!(queue.is_empty());
}

#[test]
fn search_finds_the_earliest_node_of_the_destination() {
    let nodes = vec![
        node(0, 0, &[1, 2]),
        node(1, 10, &[3]),
        node(1, 5, &[4]),
        node(2, 30, &[]),
        node(2, 20, &[]),
        node(2, 1, &[]),
    ];
    assert_eq!(earliest_arrival(&nodes, 0, 2), Some(4));
    assert_eq!(earliest_arrival(&nodes, 1, 2), Some(3));
    assert_eq!(earliest_arrival(&nodes, 0, 1), Some(2));
    assert_eq!(earliest_arrival(&nodes, 0, 0), Some(0));
    assert_eq!(earliest_arrival(&nodes, 0, 7), None);
    assert_eq!(earliest_arrival(&nodes, 3, 1), None);
}

#[test]
fn search_follows_cycles_of_equal_time() {
    let nodes = vec![node(0, 7, &[1]), node(1, 7, &[2, 0]), node(2, 7, &[0, 3]), node(3, 9, &[])];
    assert_eq!(earliest_arrival(&nodes, 0, 3), Some(3));
    assert_eq!(earliest_arrival(&nodes, 2, 1), Some(1));
    assert_eq!(earliest_arrival(&nodes, 3, 0), None);
}

#[test]
fn search_agrees_with_plain_reachability() {
    let mut state: u64 = 12345;
    let mut next = |bound: u64| {
        state = state.wrapping_mul(6364136223846793005).wrapping_add(1442695040888963407);
        (state >> 33) % bound
    };
    for round in 0..40 {
        let count = 30 + round;
        let mut times: Vec<u32> = (0..count).map(|_| next(200) as u32).collect();
        times.sort();
        let mut nodes = Vec::new();
        for x in 0..count {
            let mut targets = Vec::new();
            for _ in 0..next(4) {
                let target = x + next((count - x) as u64) as usize;
                targets.push(target);
            }
            nodes.push(node(next(8) as usize, times[x], &targets));
        }
        for seed in [0, count / 3, count / 2] {
            for dest in 0..8 {
                let found = earliest_arrival(&nodes, seed, dest).map(|x| nodes[x].get_time());
                assert_eq!(found, reference(&nodes, seed, dest));
            }
        }
    }
}
