use vstd::prelude::*;
use vstd::seq_lib::*;
use crate::graph::Node;

verus! {

/// The clock time of node `x`.
pub open spec fn time_of(nodes: Seq<Node>, x: usize) -> int {
    nodes[x as int].event.time as int
}

/// Whether every entry of the queue is a node of the arena.
pub open spec fn holds_nodes(queue: Seq<usize>, nodes: Seq<Node>) -> bool {
    forall|i: int| 0 <= i < queue.len() ==> (#[trigger] queue[i]) < nodes.len()
}

/// Whether the entry at place `i` is no earlier than the entry above it in
/// the heap.
pub open spec fn above_is_earlier(queue: Seq<usize>, nodes: Seq<Node>, i: int) -> bool {
    time_of(nodes, queue[(i - 1) / 2]) <= time_of(nodes, queue[i])
}

/// Whether the queue is a heap by clock time: no entry is earlier than the
/// entry above it, so the first entry is an earliest one.
pub open spec fn is_heap(queue: Seq<usize>, nodes: Seq<Node>) -> bool {
    forall|i: int| 0 < i < queue.len() ==> #[trigger] above_is_earlier(queue, nodes, i)
}

/// Whether the queue is a heap but for the entry at `hole`, which may be
/// earlier than the entry above it.
pub open spec fn is_heap_but_above(queue: Seq<usize>, nodes: Seq<Node>, hole: int) -> bool {
    &&& forall|i: int|
        0 < i < queue.len() && i != hole ==> #[trigger] above_is_earlier(queue, nodes, i)
    &&& forall|i: int|
        0 < i < queue.len() && (i - 1) / 2 == hole && hole > 0 ==> time_of(
            nodes,
            queue[(hole - 1) / 2],
        ) <= time_of(nodes, #[trigger] queue[i])
}

/// Whether the queue is a heap but for the entry at `hole`, which may be
/// later than the entries below it.
pub open spec fn is_heap_but_below(queue: Seq<usize>, nodes: Seq<Node>, hole: int) -> bool {
    &&& forall|i: int|
        0 < i < queue.len() && (i - 1) / 2 != hole ==> #[trigger] above_is_earlier(queue, nodes, i)
    &&& forall|i: int|
        0 < i < queue.len() && (i - 1) / 2 == hole && hole > 0 ==> time_of(
            nodes,
            queue[(hole - 1) / 2],
        ) <= time_of(nodes, #[trigger] queue[i])
}

/// The first entry of a heap is no later than any other.
pub proof fn lemma_first_is_earliest(queue: Seq<usize>, nodes: Seq<Node>, i: int)
    requires
        is_heap(queue, nodes),
        0 <= i < queue.len(),
    ensures
        time_of(nodes, queue[0]) <= time_of(nodes, queue[i]),
    decreases i,
{
    if i > 0 {
        assert(above_is_earlier(queue, nodes, i));
        lemma_first_is_earliest(queue, nodes, (i - 1) / 2);
    }
}

/// Exchanges two entries of the queue.
fn exchange(queue: &mut Vec<usize>, i: usize, j: usize)
    requires
        i < old(queue)@.len(),
        j < old(queue)@.len(),
    ensures
        final(queue)@ == old(queue)@.update(i as int, old(queue)@[j as int]).update(
            j as int,
            old(queue)@[i as int],
        ),
        forall|x: usize| final(queue)@.contains(x) <==> old(queue)@.contains(x),
        final(queue)@.to_multiset() == old(queue)@.to_multiset(),
{
    let ghost before = queue@;
    let first = queue[i];
    let second = queue[j];
    queue[i] = second;
    queue[j] = first;
    proof {
        let after = queue@;
        let between = before.update(i as int, second);
        assert(after.to_multiset() == before.to_multiset()) by {
            broadcast use vstd::multiset::group_multiset_axioms;

            to_multiset_update(before, i as int, second);
            to_multiset_update(between, j as int, first);
            to_multiset_contains(before, first);
            to_multiset_contains(before, second);
            assert(before.contains(first));
            assert(before.contains(second));
            assert(after == between.update(j as int, first));
            if i != j {
                assert(between[j as int] == second);
            }
            assert(after.to_multiset() =~= before.to_multiset());
        }
        assert forall|x: usize| after.contains(x) <==> before.contains(x) by {
            if after.contains(x) {
                let k = choose|k: int| 0 <= k < after.len() && after[k] == x;
                if k == i {
                    assert(before[j as int] == x);
                } else if k == j {
                    assert(before[i as int] == x);
                } else {
                    assert(before[k] == x);
                }
            }
            if before.contains(x) {
                let k = choose|k: int| 0 <= k < before.len() && before[k] == x;
                if k == i {
                    assert(after[j as int] == x);
                } else if k == j {
                    assert(after[i as int] == x);
                } else {
                    assert(after[k] == x);
                }
            }
        }
    }
}

/// Puts a node into the queue.
pub fn put(queue: &mut Vec<usize>, nodes: &Vec<Node>, node: usize)
    requires
        holds_nodes(old(queue)@, nodes@),
        is_heap(old(queue)@, nodes@),
        node < nodes@.len(),
    ensures
        holds_nodes(final(queue)@, nodes@),
        is_heap(final(queue)@, nodes@),
        final(queue)@.len() == old(queue)@.len() + 1,
        final(queue)@.to_multiset() == old(queue)@.to_multiset().insert(node),
        forall|x: usize| final(queue)@.contains(x) <==> (old(queue)@.contains(x) || x == node),
{
    let ghost before = queue@;
    queue.push(node);
    let mut hole: usize = queue.len() - 1;
    proof {
        let pushed = queue@;
        to_multiset_build(before, node);
        assert forall|x: usize| pushed.contains(x) <==> (before.contains(x) || x == node) by {
            if pushed.contains(x) {
                let k = choose|k: int| 0 <= k < pushed.len() && pushed[k] == x;
                if k < before.len() {
                    assert(before[k] == x);
                }
            }
            if before.contains(x) {
                let k = choose|k: int| 0 <= k < before.len() && before[k] == x;
                assert(pushed[k] == x);
            }
            assert(pushed[before.len() as int] == node);
        }
        assert forall|i: int| 0 < i < pushed.len() && i != hole implies #[trigger] above_is_earlier(
            pushed,
            nodes@,
            i,
        ) by {
            assert(above_is_earlier(before, nodes@, i));
        }
    }
    while hole > 0 && nodes[queue[hole]].get_time() < nodes[queue[(hole - 1) / 2]].get_time()
        invariant
            hole < queue@.len(),
            queue@.len() == before.len() + 1,
            holds_nodes(queue@, nodes@),
            is_heap_but_above(queue@, nodes@, hole as int),
            queue@.to_multiset() == before.to_multiset().insert(node),
            forall|x: usize| queue@.contains(x) <==> (before.contains(x) || x == node),
        decreases hole,
    {
        let above = (hole - 1) / 2;
        let ghost earlier = queue@;
        exchange(queue, hole, above);
        proof {
            let now = queue@;
            assert forall|i: int| 0 < i < now.len() && i != above implies #[trigger] above_is_earlier(
                now,
                nodes@,
                i,
            ) by {
                if i == hole {
                } else if (i - 1) / 2 == hole {
                    assert(above_is_earlier(earlier, nodes@, i));
                } else if (i - 1) / 2 == above {
                    assert(above_is_earlier(earlier, nodes@, i));
                } else {
                    assert(above_is_earlier(earlier, nodes@, i));
                }
            }
            assert forall|i: int|
                0 < i < now.len() && (i - 1) / 2 == above && above > 0 implies time_of(
                nodes@,
                now[(above - 1) / 2],
            ) <= time_of(nodes@, #[trigger] now[i]) by {
                assert(above_is_earlier(earlier, nodes@, above as int));
                if i != hole {
                    assert(above_is_earlier(earlier, nodes@, i));
                }
            }
        }
        hole = above;
    }
    proof {
        assert forall|i: int| 0 < i < queue@.len() implies #[trigger] above_is_earlier(
            queue@,
            nodes@,
            i,
        ) by {}
    }
}

/// Takes an earliest node out of the queue.
pub fn take_earliest(queue: &mut Vec<usize>, nodes: &Vec<Node>) -> (node: usize)
    requires
        old(queue)@.len() > 0,
        holds_nodes(old(queue)@, nodes@),
        is_heap(old(queue)@, nodes@),
    ensures
        holds_nodes(final(queue)@, nodes@),
        is_heap(final(queue)@, nodes@),
        node == old(queue)@[0],
        forall|i: int|
            0 <= i < old(queue)@.len() ==> time_of(nodes@, node) <= time_of(
                nodes@,
                #[trigger] old(queue)@[i],
            ),
        final(queue)@.len() == old(queue)@.len() - 1,
        old(queue)@.to_multiset() == final(queue)@.to_multiset().insert(node),
        forall|x: usize| old(queue)@.contains(x) && x != node ==> final(queue)@.contains(x),
        forall|x: usize| final(queue)@.contains(x) ==> old(queue)@.contains(x),
{
    let ghost before = queue@;
    proof {
        assert forall|i: int| 0 <= i < before.len() implies time_of(nodes@, before[0]) <= time_of(
            nodes@,
            #[trigger] before[i],
        ) by {
            lemma_first_is_earliest(before, nodes@, i);
        }
    }
    let node = queue[0];
    let last = queue.pop().unwrap();
    let ghost shorter = queue@;
    proof {
        assert(before == shorter.push(last));
        to_multiset_build(shorter, last);
    }
    if queue.len() == 0 {
        return node;
    }
    queue[0] = last;
    let ghost moved = queue@;
    proof {
        assert(before.to_multiset() == moved.to_multiset().insert(node)) by {
            broadcast use vstd::multiset::group_multiset_axioms;

            to_multiset_update(shorter, 0, last);
            assert(shorter[0] == node);
            to_multiset_contains(shorter, node);
            assert(shorter.contains(node));
            assert(before.to_multiset() =~= moved.to_multiset().insert(node));
        }
        assert forall|x: usize| before.contains(x) && x != node implies moved.contains(x) by {
            let k = choose|k: int| 0 <= k < before.len() && before[k] == x;
            if k == before.len() - 1 {
                assert(moved[0] == x);
            } else {
                assert(moved[k] == x);
            }
        }
        assert forall|x: usize| moved.contains(x) implies before.contains(x) by {
            let k = choose|k: int| 0 <= k < moved.len() && moved[k] == x;
            if k == 0 {
                assert(before[before.len() - 1] == x);
            } else {
                assert(before[k] == x);
            }
        }
        assert forall|i: int| 0 < i < moved.len() && (i - 1) / 2 != 0 implies #[trigger] above_is_earlier(
            moved,
            nodes@,
            i,
        ) by {
            assert(above_is_earlier(before, nodes@, i));
        }
    }
    let count = queue.len();
    let mut hole: usize = 0;
    loop
        invariant
            count == queue@.len(),
            count == before.len() - 1,
            hole < count,
            holds_nodes(queue@, nodes@),
            is_heap_but_below(queue@, nodes@, hole as int),
            queue@.to_multiset() == moved.to_multiset(),
            forall|x: usize| queue@.contains(x) <==> moved.contains(x),
        ensures
            is_heap(queue@, nodes@),
            holds_nodes(queue@, nodes@),
            count == queue@.len(),
            queue@.to_multiset() == moved.to_multiset(),
            forall|x: usize| queue@.contains(x) <==> moved.contains(x),
        decreases count - hole,
    {
        if count < 2 || hole > (count - 2) / 2 {
            proof {
                assert forall|i: int| 0 < i < queue@.len() implies #[trigger] above_is_earlier(
                    queue@,
                    nodes@,
                    i,
                ) by {}
            }
            break ;
        }
        let left = 2 * hole + 1;
        let right = left + 1;
        let mut below = left;
        if right < count && nodes[queue[right]].get_time() < nodes[queue[left]].get_time() {
            below = right;
        }
        if nodes[queue[hole]].get_time() <= nodes[queue[below]].get_time() {
            proof {
                assert forall|i: int| 0 < i < queue@.len() implies #[trigger] above_is_earlier(
                    queue@,
                    nodes@,
                    i,
                ) by {
                    if (i - 1) / 2 == hole {
                        assert(i == left || i == right);
                    }
                }
            }
            break ;
        }
        let ghost earlier = queue@;
        exchange(queue, hole, below);
        proof {
            let now = queue@;
            assert forall|i: int|
                0 < i < now.len() && (i - 1) / 2 != below implies #[trigger] above_is_earlier(
                now,
                nodes@,
                i,
            ) by {
                if (i - 1) / 2 == hole {
                    assert(i == left || i == right);
                } else if i == hole {
                    if hole > 0 {
                        assert(time_of(nodes@, earlier[(hole - 1) / 2]) <= time_of(
                            nodes@,
                            earlier[below as int],
                        ));
                    }
                } else {
                    assert(above_is_earlier(earlier, nodes@, i));
                }
            }
            assert forall|i: int|
                0 < i < now.len() && (i - 1) / 2 == below && below > 0 implies time_of(
                nodes@,
                now[(below - 1) / 2],
            ) <= time_of(nodes@, #[trigger] now[i]) by {
                assert(above_is_earlier(earlier, nodes@, i));
            }
        }
        hole = below;
    }
    node
}

} // verus!
