use vstd::prelude::*;
use vstd::set_lib::*;
use crate::graph::Node;
use crate::queue::{holds_nodes, is_heap, put, take_earliest};

verus! {

/// Whether node `x` has an edge to node `y`.
pub open spec fn has_edge(nodes: Seq<Node>, x: int, y: int) -> bool {
    exists|j: int| 0 <= j < nodes[x].edges@.len() && (#[trigger] nodes[x].edges@[j]).target_node == y
}

/// Whether `path` is a walk through the graph: a sequence of nodes, each
/// joined to the next by an edge.
pub open spec fn is_path(nodes: Seq<Node>, path: Seq<int>) -> bool {
    &&& path.len() > 0
    &&& forall|i: int| 0 <= i < path.len() ==> 0 <= #[trigger] path[i] < nodes.len()
    &&& forall|i: int|
        0 <= i && i + 1 < path.len() ==> has_edge(nodes, #[trigger] path[i], path[i + 1])
}

/// Whether a passenger at node `from` can get to node `to`.
pub open spec fn reachable(nodes: Seq<Node>, from: int, to: int) -> bool {
    exists|path: Seq<int>| #[trigger] is_path(nodes, path) && path[0] == from && path.last() == to
}

/// Whether every edge leads to a node of the arena that is no earlier than
/// its source.
pub open spec fn edges_ascend(nodes: Seq<Node>) -> bool {
    forall|x: int, j: int|
        0 <= x < nodes.len() && 0 <= j < nodes[x].edges@.len() ==> (
        #[trigger] nodes[x].edges@[j]).target_node < nodes.len() && nodes[x].event.time
            <= nodes[nodes[x].edges@[j].target_node as int].event.time
}

/// Whether `x` is an earliest arrival at stop `dest` for a passenger who
/// starts at node `seed`: a node of that stop that can be reached, and no
/// later than any other such node.
pub open spec fn is_earliest_arrival(nodes: Seq<Node>, seed: int, dest: usize, x: int) -> bool {
    &&& reachable(nodes, seed, x)
    &&& nodes[x].event.stop == dest
    &&& forall|y: int|
        #[trigger] reachable(nodes, seed, y) && nodes[y].event.stop == dest ==> nodes[x].event.time
            <= nodes[y].event.time
}

/// Every node can be reached from itself.
pub proof fn lemma_reach_self(nodes: Seq<Node>, x: int)
    requires
        0 <= x < nodes.len(),
    ensures
        reachable(nodes, x, x),
{
    let path = seq![x];
    assert(is_path(nodes, path));
    assert(path[0] == x && path.last() == x);
}

/// A node that can be reached leads on to the targets of its edges.
pub proof fn lemma_reach_step(nodes: Seq<Node>, from: int, x: int, y: int)
    requires
        reachable(nodes, from, x),
        has_edge(nodes, x, y),
        0 <= y < nodes.len(),
    ensures
        reachable(nodes, from, y),
{
    let path = choose|path: Seq<int>| #[trigger]
        is_path(nodes, path) && path[0] == from && path.last() == x;
    let longer = path.push(y);
    assert forall|i: int| 0 <= i && i + 1 < longer.len() implies has_edge(
        nodes,
        #[trigger] longer[i],
        longer[i + 1],
    ) by {
        if i + 1 < path.len() {
            assert(longer[i] == path[i] && longer[i + 1] == path[i + 1]);
        } else {
            assert(longer[i] == x && longer[i + 1] == y);
        }
    }
    assert(is_path(nodes, longer));
    assert(longer[0] == from && longer.last() == y);
}

/// Along a path through a graph whose edges ascend, time does not run
/// backwards.
pub proof fn lemma_path_ascends(nodes: Seq<Node>, path: Seq<int>, i: int, j: int)
    requires
        edges_ascend(nodes),
        is_path(nodes, path),
        0 <= i <= j < path.len(),
    ensures
        nodes[path[i]].event.time <= nodes[path[j]].event.time,
    decreases j - i,
{
    if i < j {
        lemma_path_ascends(nodes, path, i, j - 1);
        assert(has_edge(nodes, path[j - 1], path[j - 1 + 1]));
        let e = choose|e: int|
            0 <= e < nodes[path[j - 1]].edges@.len() && (#[trigger] nodes[path[j - 1]].edges@[e]).target_node
                == path[j];
        assert(nodes[path[j - 1]].event.time <= nodes[nodes[path[j - 1]].edges@[e].target_node as int].event.time);
    }
}

/// On a path that ends outside a set of nodes, some node is the first
/// outside it.
pub proof fn lemma_first_outside(path: Seq<int>, inside: Set<int>, n: int) -> (i: int)
    requires
        0 <= n < path.len(),
        !inside.contains(path[n]),
    ensures
        0 <= i <= n,
        !inside.contains(path[i]),
        i > 0 ==> inside.contains(path[i - 1]),
    decreases n,
{
    if n == 0 {
        0
    } else if inside.contains(path[n - 1]) {
        n
    } else {
        lemma_first_outside(path, inside, n - 1)
    }
}

/// Whether a search from `seed` stands as follows: `found` holds the nodes
/// met so far, all of which can be reached; `expanded` holds those whose
/// edges have been followed, none of them at stop `dest`; every other node
/// that was met waits in `queue`. Of node `current`, only the first `upto`
/// edges have been followed.
pub open spec fn search_stands(
    nodes: Seq<Node>,
    seed: int,
    dest: usize,
    discovered: Seq<bool>,
    queue: Seq<usize>,
    found: Set<int>,
    expanded: Set<int>,
    current: int,
    upto: int,
) -> bool {
    &&& discovered.len() == nodes.len()
    &&& 0 <= seed < nodes.len()
    &&& found.contains(seed)
    &&& forall|x: int| #[trigger] found.contains(x) ==> 0 <= x < nodes.len() && discovered[x]
    &&& forall|x: int| 0 <= x < nodes.len() && #[trigger] discovered[x] ==> found.contains(x)
    &&& forall|x: int| #[trigger] found.contains(x) ==> reachable(nodes, seed, x)
    &&& forall|i: int| 0 <= i < queue.len() ==> found.contains((#[trigger] queue[i]) as int)
    &&& forall|x: int| #[trigger] expanded.contains(x) ==> found.contains(x)
    &&& forall|x: int|
        #[trigger] found.contains(x) ==> expanded.contains(x) || queue.contains(x as usize)
    &&& forall|x: int, j: int|
        expanded.contains(x) && 0 <= j < nodes[x].edges@.len() && (x != current || j < upto)
            ==> found.contains((#[trigger] nodes[x].edges@[j]).target_node as int)
    &&& forall|x: int| #[trigger] expanded.contains(x) ==> nodes[x].event.stop != dest
}

/// Searches the graph from node `seed` for the earliest node at stop
/// `dest`.
///
/// Nodes are visited in order of their clock time, so the first node met at
/// the destination is an earliest one. Returns `None` if no node of that
/// stop can be reached.
pub fn earliest_arrival(nodes: &Vec<Node>, seed: usize, dest: usize) -> (arrival: Option<usize>)
    requires
        seed < nodes@.len(),
        edges_ascend(nodes@),
    ensures
        arrival matches Some(x) ==> x < nodes@.len() && is_earliest_arrival(
            nodes@,
            seed as int,
            dest,
            x as int,
        ),
        arrival is None ==> forall|y: int| #[trigger]
            reachable(nodes@, seed as int, y) ==> nodes@[y].event.stop != dest,
{
    let count = nodes.len();
    let mut discovered: Vec<bool> = Vec::new();
    let mut filled: usize = 0;
    while filled < count
        invariant
            filled <= count,
            discovered@.len() == filled,
            forall|x: int| 0 <= x < filled ==> !(#[trigger] discovered@[x]),
        decreases count - filled,
    {
        discovered.push(false);
        filled += 1;
    }
    let mut queue: Vec<usize> = Vec::new();
    discovered[seed] = true;
    put(&mut queue, nodes, seed);
    let ghost mut found: Set<int> = Set::empty().insert(seed as int);
    let ghost mut expanded: Set<int> = Set::empty();
    proof {
        lemma_reach_self(nodes@, seed as int);
        lemma_int_range(0, count as int);
        assert(queue@.contains(seed));
        assert forall|i: int| 0 <= i < queue@.len() implies found.contains(
            (#[trigger] queue@[i]) as int,
        ) by {
            assert(queue@.contains(queue@[i]));
        }
        assert(found.subset_of(set_int_range(0, count as int)));
        lemma_len_subset(found, set_int_range(0, count as int));
    }
    while queue.len() > 0
        invariant
            count == nodes@.len(),
            edges_ascend(nodes@),
            found.finite(),
            found.len() <= count,
            holds_nodes(queue@, nodes@),
            is_heap(queue@, nodes@),
            search_stands(nodes@, seed as int, dest, discovered@, queue@, found, expanded, -1, 0),
        decreases count - found.len(), queue@.len(),
    {
        let ghost waiting = queue@;
        let ghost found_before = found;
        let node = take_earliest(&mut queue, nodes);
        if nodes[node].event.stop == dest {
            proof {
                let at = choose|at: int| 0 <= at < waiting.len() && waiting[at] == node;
                assert(found.contains(waiting[at] as int));
                assert forall|y: int| #[trigger]
                    reachable(nodes@, seed as int, y) && nodes@[y].event.stop == dest implies nodes@[node as int].event.time
                    <= nodes@[y].event.time by {
                    let path = choose|path: Seq<int>| #[trigger]
                        is_path(nodes@, path) && path[0] == seed as int && path.last() == y;
                    let last = path.len() - 1;
                    let i = lemma_first_outside(path, expanded, last);
                    lemma_path_ascends(nodes@, path, i, last);
                    if i > 0 {
                        assert(has_edge(nodes@, path[i - 1], path[i - 1 + 1]));
                        let e = choose|e: int|
                            0 <= e < nodes@[path[i - 1]].edges@.len() && (
                            #[trigger] nodes@[path[i - 1]].edges@[e]).target_node == path[i];
                        assert(found.contains(nodes@[path[i - 1]].edges@[e].target_node as int));
                    }
                    assert(found.contains(path[i]));
                    assert(waiting.contains(path[i] as usize));
                    let w = choose|w: int| 0 <= w < waiting.len() && waiting[w] == path[i] as usize;
                    assert(nodes@[node as int].event.time <= nodes@[waiting[w] as int].event.time);
                }
            }
            return Some(node);
        }
        proof {
            expanded = expanded.insert(node as int);
        }
        let base = queue.len();
        let edges = nodes[node].get_edges();
        let mut j: usize = 0;
        assert(search_stands(
            nodes@,
            seed as int,
            dest,
            discovered@,
            queue@,
            found,
            expanded,
            node as int,
            0,
        )) by {
            let at = choose|at: int| 0 <= at < waiting.len() && waiting[at] == node;
            assert(found.contains(waiting[at] as int));
            assert forall|x: int| #[trigger] found.contains(x) implies expanded.contains(x)
                || queue@.contains(x as usize) by {
                if !expanded.contains(x) {
                    assert(waiting.contains(x as usize));
                }
            }
            assert forall|i: int| 0 <= i < queue@.len() implies found.contains(
                (#[trigger] queue@[i]) as int,
            ) by {
                assert(queue@.contains(queue@[i]));
                assert(waiting.contains(queue@[i]));
                let w = choose|w: int| 0 <= w < waiting.len() && waiting[w] == queue@[i];
                assert(found.contains(waiting[w] as int));
            }
        }
        while j < edges.len()
            invariant
                j <= edges@.len(),
                node < count,
                edges@ == nodes@[node as int].edges@,
                count == nodes@.len(),
                edges_ascend(nodes@),
                found.finite(),
                found.len() <= count,
                found_before.subset_of(found),
                found_before.finite(),
                queue@.len() == base + (found.len() - found_before.len()),
                found.len() >= found_before.len(),
                holds_nodes(queue@, nodes@),
                is_heap(queue@, nodes@),
                expanded.contains(node as int),
                search_stands(
                    nodes@,
                    seed as int,
                    dest,
                    discovered@,
                    queue@,
                    found,
                    expanded,
                    node as int,
                    j as int,
                ),
            decreases edges.len() - j,
        {
            let target = edges[j].target_node;
            assert(target < count);
            if !discovered[target] {
                let ghost queued = queue@;
                let ghost found_earlier = found;
                discovered[target] = true;
                put(&mut queue, nodes, target);
                proof {
                    found = found.insert(target as int);
                    assert(has_edge(nodes@, node as int, target as int));
                    lemma_reach_step(nodes@, seed as int, node as int, target as int);
                    assert(found.subset_of(set_int_range(0, count as int)));
                    lemma_int_range(0, count as int);
                    lemma_len_subset(found, set_int_range(0, count as int));
                    assert forall|x: int| #[trigger] found.contains(x) implies expanded.contains(x)
                        || queue@.contains(x as usize) by {
                        if x != target && !expanded.contains(x) {
                            assert(queued.contains(x as usize));
                        }
                    }
                    assert forall|i: int| 0 <= i < queue@.len() implies found.contains(
                        (#[trigger] queue@[i]) as int,
                    ) by {
                        assert(queue@.contains(queue@[i]));
                        if queue@[i] != target {
                            assert(queued.contains(queue@[i]));
                            let w = choose|w: int| 0 <= w < queued.len() && queued[w] == queue@[i];
                            assert(found_earlier.contains(queued[w] as int));
                        }
                    }
                }
            }
            j += 1;
        }
        proof {
            if found.len() == found_before.len() {
                assert(queue@.len() == waiting.len() - 1);
            }
        }
    }
    proof {
        assert forall|y: int| #[trigger] reachable(nodes@, seed as int, y) implies nodes@[y].event.stop
            != dest by {
            let path = choose|path: Seq<int>| #[trigger]
                is_path(nodes@, path) && path[0] == seed as int && path.last() == y;
            let last = path.len() - 1;
            if !expanded.contains(y) {
                let i = lemma_first_outside(path, expanded, last);
                if i > 0 {
                    assert(has_edge(nodes@, path[i - 1], path[i - 1 + 1]));
                    let e = choose|e: int|
                        0 <= e < nodes@[path[i - 1]].edges@.len() && (
                        #[trigger] nodes@[path[i - 1]].edges@[e]).target_node == path[i];
                    assert(found.contains(nodes@[path[i - 1]].edges@[e].target_node as int));
                }
                assert(found.contains(path[i]));
                assert(queue@.contains(path[i] as usize));
            }
        }
    }
    None
}

} // verus!
