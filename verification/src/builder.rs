use vstd::prelude::*;
use vstd::seq_lib::*;
use crate::graph::{
    Edge, Event, Node, NodeKind, Stop, chain_installed, chain_sorted, events, is_earliest_at,
    is_link_source, is_wait_link, lemma_installed_once, link_installed, links_at, wait_link,
};
use crate::graph::DepartureList;
use crate::loader::{Schedule, trip_refers};
use crate::network::Network;
use crate::records::{Trip, is_schedule};
use crate::table::{Keyed, Table, keys_of};
use crate::schedule::{
    BuildConfig, arrival_connected, arrival_edges_ordered, chain_of_stop, chains,
    departure_available, departure_edges_exact, edges_exact, transfer_before,
    departures_registered, edge_sound, event_sound, has_alight_edge, has_wait_edge, has_walk_edge,
    departure_node, is_alight_edge, is_next_departure, is_ride_edge, is_sound_graph,
    is_time_expanded, is_wait_edge, is_walk_edge, positions, ride_present, rides_before,
    rides_complete, rides_of, stop_ids, walk_possible, walk_time,
};
use crate::spatial::{
    Point, are_pedestrian_connections, calculate_proximity_squares, get_pedestrian_connections,
    is_neighbour, is_neighbour_list, listed_before, lists_stop, manhattan,
};

verus! {

/// Whether `calls` names, for every call of every trip, the stop that the
/// call is made at by its place in the stop table.
pub open spec fn calls_resolved(ids: Seq<Seq<char>>, trips: Seq<Trip>, calls: Seq<Vec<usize>>) -> bool {
    &&& calls.len() == trips.len()
    &&& forall|t: int|
        0 <= t < trips.len() ==> (#[trigger] calls[t])@.len() == trips[t].stop_times@.len()
    &&& forall|t: int, i: int|
        0 <= t < trips.len() && 0 <= i < trips[t].stop_times@.len() ==> (#[trigger] calls[t]@[i])
            < ids.len() && ids[calls[t]@[i] as int] == trips[t].stop_times@[i].stop_id@
}

/// Whether `arrivals` lists the arrival nodes, each once.
pub open spec fn arrivals_listed(arrivals: Seq<usize>, events: Seq<Event>) -> bool {
    &&& arrivals.no_duplicates()
    &&& forall|i: int|
        0 <= i < arrivals.len() ==> (#[trigger] arrivals[i]) < events.len()
            && events[arrivals[i] as int].kind is Arr
    &&& forall|x: int|
        0 <= x < events.len() && (#[trigger] events[x]).kind is Arr ==> arrivals.contains(x as usize)
}

/// Whether stops, nodes and arrival list are as the first pass leaves them
/// after any number of rides: the stops are open, every node is a call of
/// its trip, every departure is registered with its stop and every arrival
/// listed, and the edges are the rides.
pub open spec fn is_ride_graph(
    stops: Seq<Stop>,
    trips: Seq<Trip>,
    nodes: Seq<Node>,
    arrivals: Seq<usize>,
) -> bool {
    &&& forall|x: int|
        0 <= x < nodes.len() ==> event_sound(stop_ids(stops), trips, #[trigger] events(nodes)[x])
    &&& forall|s: int|
        0 <= s < stops.len() ==> !(#[trigger] stops[s]).is_finalized() && chain_of_stop(
            stops[s].deps(),
            events(nodes),
            s,
        )
    &&& departures_registered(chains(stops), events(nodes))
    &&& arrivals_listed(arrivals, events(nodes))
    &&& forall|x: int, j: int|
        0 <= x < nodes.len() && 0 <= j < nodes[x].edges@.len() ==> is_ride_edge(
            trips,
            events(nodes),
            x,
            #[trigger] nodes[x].edges@[j],
        )
    &&& forall|x: int| 0 <= x < nodes.len() ==> #[trigger] has_ride_only(nodes, x)
}

/// Whether node `x` has no edge but its ride: a departure one edge, an
/// arrival none.
pub open spec fn has_ride_only(nodes: Seq<Node>, x: int) -> bool {
    match nodes[x].event.kind {
        NodeKind::Dep => nodes[x].edges@.len() == 1,
        NodeKind::Arr => nodes[x].edges@.len() == 0,
    }
}

/// Whether `after` holds the records of `before`, whatever their
/// departures.
pub open spec fn same_records(before: Seq<Stop>, after: Seq<Stop>) -> bool {
    &&& after.len() == before.len()
    &&& forall|s: int| 0 <= s < before.len() ==> (#[trigger] after[s]).same_record(&before[s])
}

/// Adds the ride of trip `t` from its call `i` to the next one: a departure
/// node, an arrival node and the edge between them. The departure is
/// registered with its stop and the arrival is listed.
fn create_node_pair(
    nodes: &mut Vec<Node>,
    stops: &mut Vec<Stop>,
    arrivals: &mut Vec<usize>,
    trips: &Vec<Trip>,
    calls: &Vec<Vec<usize>>,
    t: usize,
    i: usize,
)
    requires
        calls_resolved(stop_ids(old(stops)@), trips@, calls@),
        is_ride_graph(old(stops)@, trips@, old(nodes)@, old(arrivals)@),
        t < trips.len(),
        i + 1 < trips[t as int].stop_times@.len(),
    ensures
        is_ride_graph(final(stops)@, trips@, final(nodes)@, final(arrivals)@),
        same_records(old(stops)@, final(stops)@),
        final(nodes)@.len() == old(nodes)@.len() + 2,
        final(arrivals)@.len() == old(arrivals)@.len() + 1,
        forall|x: int| 0 <= x < old(nodes)@.len() ==> final(nodes)@[x] == old(nodes)@[x],
        old(nodes)@.len() == departure_node(trips@, t as int, i as int) ==> ride_present(
            trips@,
            final(nodes)@,
            t as int,
            i as int,
        ),
{
    let trip = &trips[t];
    let calls_made = trip.stop_times.len();
    let from_stop = calls[t][i];
    let to_stop = calls[t][i + 1];
    let departs_at = trip.stop_times[i].departure_time;
    let arrives_at = trip.stop_times[i + 1].arrival_time;
    let ghost nodes0 = nodes@;
    let ghost stops0 = stops@;
    let ghost arrivals0 = arrivals@;
    let ghost events0 = events(nodes0);
    let ghost ids = stop_ids(stops0);

    nodes.push(Node::new(from_stop, t, i, NodeKind::Dep, departs_at));
    nodes.push(Node::new(to_stop, t, i + 1, NodeKind::Arr, arrives_at));
    let count = nodes.len();
    let dep_node = count - 2;
    let arr_node = count - 1;
    let edge = Edge::new(departs_at, arrives_at, Some(trip.trip_id.clone()), arr_node);
    nodes[dep_node].add_edge(edge);
    let registered = stops[from_stop].add_dep_node(dep_node);
    arrivals.push(arr_node);

    proof {
        let dep_event = Event { stop: from_stop, trip: t, seq: i, kind: NodeKind::Dep, time: departs_at };
        let arr_event = Event {
            stop: to_stop,
            trip: t,
            seq: (i + 1) as usize,
            kind: NodeKind::Arr,
            time: arrives_at,
        };
        let events1 = events(nodes@);
        assert(events1 == events0.push(dep_event).push(arr_event));
        assert(stop_ids(stops@) == ids);
        assert(same_records(stops0, stops@));
        assert(stops0[from_stop as int].fits(events0)) by {
            assert(chain_of_stop(stops0[from_stop as int].deps(), events0, from_stop as int));
        }
        assert(registered is Ok);
        let chains0 = chains(stops0);
        let chains1 = chains(stops@);
        assert(chains1 == chains0.update(
            from_stop as int,
            chains0[from_stop as int].push(dep_node),
        ));
        assert forall|x: int| 0 <= x < nodes@.len() implies event_sound(
            stop_ids(stops@),
            trips@,
            #[trigger] events(nodes@)[x],
        ) by {
            if x < nodes0.len() {
                assert(events1[x] == events0[x]);
            }
        }
        assert forall|s: int| 0 <= s < stops@.len() implies !(#[trigger] stops@[s]).is_finalized()
            && chain_of_stop(stops@[s].deps(), events1, s) by {
            let before = stops0[s].deps();
            assert(chain_of_stop(before, events0, s));
            assert(!stops0[s].is_finalized());
            if s == from_stop {
                let after = stops@[s].deps();
                assert(after == before.push(dep_node));
                assert forall|k: int| 0 <= k < after.len() implies events1[(
                #[trigger] after[k]) as int].kind is Dep && events1[after[k] as int].stop == s by {
                    if k < before.len() {
                        assert(after[k] == before[k]);
                        assert(events1[before[k] as int] == events0[before[k] as int]);
                    }
                }
                assert forall|a: int, b: int| 0 <= a < after.len() && 0 <= b < after.len() && a
                    != b implies after[a] != after[b] by {
                    if a < before.len() {
                        assert(after[a] == before[a]);
                    }
                    if b < before.len() {
                        assert(after[b] == before[b]);
                    }
                }
            } else {
                assert(stops@[s] == stops0[s]);
                assert forall|k: int| 0 <= k < before.len() implies events1[(
                #[trigger] before[k]) as int].kind is Dep && events1[before[k] as int].stop == s by {
                    assert(events1[before[k] as int] == events0[before[k] as int]);
                }
            }
        }
        assert forall|x: int| 0 <= x < events1.len() && (#[trigger] events1[x]).kind is Dep implies chains1[events1[x].stop as int].contains(
            x as usize,
        ) by {
            if x < nodes0.len() {
                assert(events1[x] == events0[x]);
                let s = events0[x].stop as int;
                assert(event_sound(ids, trips@, events0[x]));
                assert(chains0[s].contains(x as usize));
                let k = choose|k: int| 0 <= k < chains0[s].len() && chains0[s][k] == x as usize;
                assert(chains1[s][k] == x as usize);
            } else {
                assert(x == dep_node);
                let chain = chains1[from_stop as int];
                assert(chain[chain.len() - 1] == dep_node);
            }
        }
        assert(arrivals_listed(arrivals@, events1)) by {
            assert forall|a: int, b: int| 0 <= a < arrivals@.len() && 0 <= b < arrivals@.len() && a
                != b implies arrivals@[a] != arrivals@[b] by {
                if a < arrivals0.len() {
                    assert(arrivals@[a] == arrivals0[a]);
                }
                if b < arrivals0.len() {
                    assert(arrivals@[b] == arrivals0[b]);
                }
            }
            assert forall|k: int| 0 <= k < arrivals@.len() implies (#[trigger] arrivals@[k])
                < events1.len() && events1[arrivals@[k] as int].kind is Arr by {
                if k < arrivals0.len() {
                    assert(arrivals@[k] == arrivals0[k]);
                    assert(events1[arrivals0[k] as int] == events0[arrivals0[k] as int]);
                }
            }
            assert forall|x: int| 0 <= x < events1.len() && (#[trigger] events1[x]).kind is Arr implies arrivals@.contains(
                x as usize,
            ) by {
                if x < nodes0.len() {
                    assert(events1[x] == events0[x]);
                    assert(arrivals0.contains(x as usize));
                    let k = choose|k: int| 0 <= k < arrivals0.len() && arrivals0[k] == x as usize;
                    assert(arrivals@[k] == x as usize);
                } else {
                    assert(x == arr_node);
                    assert(arrivals@[arrivals@.len() - 1] == arr_node);
                }
            }
        }
        assert forall|x: int, j: int| 0 <= x < nodes@.len() && 0 <= j < nodes@[x].edges@.len() implies is_ride_edge(
            trips@,
            events1,
            x,
            #[trigger] nodes@[x].edges@[j],
        ) by {
            if x < nodes0.len() {
                assert(nodes@[x] == nodes0[x]);
                let e = nodes0[x].edges@[j];
                assert(is_ride_edge(trips@, events0, x, e));
                assert(events1[x] == events0[x]);
                assert(events1[e.target_node as int] == events0[e.target_node as int]);
            } else {
                assert(x == dep_node);
                assert(nodes@[x].edges@[j] == edge);
            }
        }
        assert(nodes@[dep_node as int].edges@[0] == edge);
        assert forall|x: int| 0 <= x < nodes@.len() implies #[trigger] has_ride_only(nodes@, x) by {
            if x < nodes0.len() {
                assert(has_ride_only(nodes0, x));
                assert(nodes@[x] == nodes0[x]);
            }
        }
    }
}

/// Creates the nodes of all trips and the rides between them.
///
/// For each trip, in table order, and each pair of consecutive calls, a
/// departure node and an arrival node are appended to the arena and joined
/// by a ride edge. Returns the arena and the list of its arrival nodes; the
/// departures are registered with their stops.
pub fn create_nodes(stops: &mut Vec<Stop>, trips: &Vec<Trip>, calls: &Vec<Vec<usize>>) -> (built: (
    Vec<Node>,
    Vec<usize>,
))
    requires
        calls_resolved(stop_ids(old(stops)@), trips@, calls@),
        forall|s: int|
            0 <= s < old(stops)@.len() ==> !(#[trigger] old(stops)@[s]).is_finalized() && old(stops)@[s].deps().len() == 0,
    ensures
        is_ride_graph(final(stops)@, trips@, built.0@, built.1@),
        rides_complete(trips@, built.0@),
        same_records(old(stops)@, final(stops)@),
{
    let mut nodes: Vec<Node> = Vec::new();
    let mut arrivals: Vec<usize> = Vec::new();
    let ghost stops0 = stops@;
    let ghost ids = stop_ids(stops0);
    assert(is_ride_graph(stops@, trips@, nodes@, arrivals@));
    let mut t: usize = 0;
    while t < trips.len()
        invariant
            t <= trips.len(),
            stop_ids(stops@) == ids,
            calls_resolved(ids, trips@, calls@),
            same_records(stops0, stops@),
            is_ride_graph(stops@, trips@, nodes@, arrivals@),
            nodes@.len() == 2 * rides_before(trips@, t as int),
            forall|a: int, b: int|
                0 <= a < t && 0 <= b < rides_of(trips@[a]) ==> #[trigger] ride_present(
                    trips@,
                    nodes@,
                    a,
                    b,
                ),
        decreases trips.len() - t,
    {
        let calls_made = trips[t].stop_times.len();
        let rides = if calls_made == 0 { 0 } else { calls_made - 1 };
        let mut i: usize = 0;
        while i < rides
            invariant
                t < trips.len(),
                rides + 1 == calls_made || (rides == 0 && calls_made == 0),
                calls_made == trips@[t as int].stop_times@.len(),
                stop_ids(stops@) == ids,
                calls_resolved(ids, trips@, calls@),
                same_records(stops0, stops@),
                is_ride_graph(stops@, trips@, nodes@, arrivals@),
                rides == rides_of(trips@[t as int]),
                i <= rides,
                nodes@.len() == departure_node(trips@, t as int, i as int),
                forall|a: int, b: int|
                    0 <= a < t && 0 <= b < rides_of(trips@[a]) ==> #[trigger] ride_present(
                        trips@,
                        nodes@,
                        a,
                        b,
                    ),
                forall|b: int| 0 <= b < i ==> #[trigger] ride_present(trips@, nodes@, t as int, b),
            decreases rides - i,
        {
            let ghost earlier = stops@;
            let ghost earlier_nodes = nodes@;
            create_node_pair(&mut nodes, stops, &mut arrivals, trips, calls, t, i);
            proof {
                assert forall|a: int, b: int|
                    0 <= a < t && 0 <= b < rides_of(trips@[a]) implies #[trigger] ride_present(
                    trips@,
                    nodes@,
                    a,
                    b,
                ) by {
                    assert(ride_present(trips@, earlier_nodes, a, b));
                }
                assert forall|b: int| 0 <= b < i + 1 implies #[trigger] ride_present(
                    trips@,
                    nodes@,
                    t as int,
                    b,
                ) by {
                    if b < i {
                        assert(ride_present(trips@, earlier_nodes, t as int, b));
                    }
                }
                assert(stop_ids(stops@) == ids) by {
                    assert forall|s: int| 0 <= s < stops@.len() implies stops@[s].stop_id@
                        == ids[s] by {
                        assert(stops@[s].same_record(&earlier[s]));
                        assert(stop_ids(earlier)[s] == earlier[s].stop_id@);
                    }
                }
                assert forall|s: int| 0 <= s < stops0.len() implies (#[trigger] stops@[s]).same_record(
                    &stops0[s],
                ) by {
                    assert(stops@[s].same_record(&earlier[s]));
                    assert(earlier[s].same_record(&stops0[s]));
                }
            }
            i += 1;
        }
        assert(rides_before(trips@, t + 1) == rides_before(trips@, t as int) + rides_of(
            trips@[t as int],
        ));
        t += 1;
    }
    (nodes, arrivals)
}

/// Whether stops, nodes and arrival list are as the second pass leaves them
/// when the first `done` stops are finalized: those stops have their
/// departures in order and chained by wait edges, the others are open and
/// untouched, and the edges are the rides and those wait edges.
pub open spec fn is_chained_graph(
    stops: Seq<Stop>,
    trips: Seq<Trip>,
    nodes: Seq<Node>,
    arrivals: Seq<usize>,
    done: int,
) -> bool {
    &&& forall|x: int|
        0 <= x < nodes.len() ==> event_sound(stop_ids(stops), trips, #[trigger] events(nodes)[x])
    &&& forall|s: int|
        0 <= s < stops.len() ==> chain_of_stop((#[trigger] stops[s]).deps(), events(nodes), s)
    &&& forall|s: int|
        0 <= s < stops.len() ==> (#[trigger] stops[s]).is_finalized() == (s < done)
    &&& forall|s: int|
        0 <= s < stops.len() && s < done ==> chain_sorted((#[trigger] stops[s]).deps(), events(nodes))
    &&& departures_registered(chains(stops), events(nodes))
    &&& arrivals_listed(arrivals, events(nodes))
    &&& forall|s: int, k: int|
        0 <= s < stops.len() && s < done && 0 <= k && k + 1 < stops[s].deps().len()
            ==> #[trigger] has_wait_edge(nodes, chains(stops)[s], k)
    &&& forall|x: int, j: int|
        0 <= x < nodes.len() && 0 <= j < nodes[x].edges@.len() ==> {
            ||| is_ride_edge(trips, events(nodes), x, #[trigger] nodes[x].edges@[j])
            ||| events(nodes)[x].stop < done && is_wait_edge(
                chains(stops),
                events(nodes),
                x,
                nodes[x].edges@[j],
            )
        }
    &&& forall|x: int| 0 <= x < nodes.len() ==> #[trigger] is_chained_node(stops, nodes, done, x)
}

/// Whether node `x` has the edges that it has when the first `done` stops
/// are finalized: a departure of one of those stops its ride and its wait
/// edge, another departure its ride, an arrival none.
pub open spec fn is_chained_node(stops: Seq<Stop>, nodes: Seq<Node>, done: int, x: int) -> bool {
    if nodes[x].event.kind is Dep && nodes[x].event.stop < done {
        departure_edges_exact(chains(stops), nodes, x)
    } else {
        has_ride_only(nodes, x)
    }
}

/// Finalizes every stop: sorts its departures by time and chains them by
/// wait edges.
pub fn finalize_stops(
    stops: &mut Vec<Stop>,
    nodes: &mut Vec<Node>,
    all_trips: &Vec<Trip>,
    arrival_nodes: &Vec<usize>,
)
    requires
        is_ride_graph(old(stops)@, all_trips@, old(nodes)@, arrival_nodes@),
    ensures
        is_chained_graph(
            final(stops)@,
            all_trips@,
            final(nodes)@,
            arrival_nodes@,
            final(stops)@.len() as int,
        ),
        same_records(old(stops)@, final(stops)@),
        edges_extended(old(nodes)@, final(nodes)@),
{
    let ghost trips = all_trips@;
    let ghost arrivals = arrival_nodes@;
    let ghost stops0 = stops@;
    let ghost nodes0 = nodes@;
    let ghost ids = stop_ids(stops0);
    let ghost evs = events(nodes0);
    let mut s: usize = 0;
    assert(is_chained_graph(stops@, trips, nodes@, arrivals, 0)) by {
        assert forall|s: int| 0 <= s < stops@.len() implies (#[trigger] stops@[s]).is_finalized() == (s
            < 0) by {}
        assert forall|x: int| 0 <= x < nodes@.len() implies #[trigger] is_chained_node(
            stops@,
            nodes@,
            0,
            x,
        ) by {
            assert(has_ride_only(nodes@, x));
        }
    }
    proof {
        lemma_extended_by_nothing(nodes0);
    }
    while s < stops.len()
        invariant
            s <= stops.len(),
            stop_ids(stops@) == ids,
            events(nodes@) == evs,
            evs == events(nodes0),
            edges_extended(nodes0, nodes@),
            same_records(stops0, stops@),
            is_chained_graph(stops@, trips, nodes@, arrivals, s as int),
        decreases stops.len() - s,
    {
        let ghost earlier_stops = stops@;
        let ghost earlier = nodes@;
        assert(earlier_stops[s as int].fits(evs)) by {
            assert(chain_of_stop(earlier_stops[s as int].deps(), evs, s as int));
            assert(!earlier_stops[s as int].is_finalized());
        }
        stops[s].finalize(nodes);
        proof {
            let now_stops = stops@;
            let now = nodes@;
            let old_chain = earlier_stops[s as int].deps();
            let chain = now_stops[s as int].deps();
            let links = chain.len() - 1;
            assert(chain_of_stop(old_chain, evs, s as int));
            lemma_same_departures(old_chain, chain);
            assert(chain_installed(earlier, now, chain, links));
            lemma_installed_once(earlier, now, chain, links);
            lemma_installed_extends(earlier, now, chain, links);
            lemma_extended_twice(nodes0, earlier, now);
            assert(chain_of_stop(old_chain, evs, s as int));
            assert forall|k: int| 0 <= k < chain.len() implies evs[(#[trigger] chain[k]) as int].kind is Dep
                && evs[chain[k] as int].stop == s by {
                assert(chain.contains(chain[k]));
                assert(old_chain.contains(chain[k]));
                let w = choose|w: int| 0 <= w < old_chain.len() && old_chain[w] == chain[k];
                assert(evs[old_chain[w] as int].kind is Dep);
            }
            assert forall|x: int| 0 <= x < now.len() && (evs[x].kind is Arr || evs[x].stop != s) implies (
            #[trigger] now[x]).edges@ == earlier[x].edges@ by {
                if is_link_source(chain, links, x) {
                    let k = choose|k: int| 0 <= k < links && #[trigger] chain[k] == x;
                    assert(evs[chain[k] as int].stop == s);
                }
            }
            assert(stop_ids(now_stops) == ids) by {
                assert forall|t: int| 0 <= t < now_stops.len() implies now_stops[t].stop_id@
                    == ids[t] by {
                    if t != s {
                        assert(now_stops[t] == earlier_stops[t]);
                    }
                    assert(stop_ids(earlier_stops)[t] == earlier_stops[t].stop_id@);
                }
            }
            assert forall|t: int| 0 <= t < stops0.len() implies (#[trigger] now_stops[t]).same_record(
                &stops0[t],
            ) by {
                if t != s {
                    assert(now_stops[t] == earlier_stops[t]);
                }
                assert(earlier_stops[t].same_record(&stops0[t]));
            }
            let chains0 = chains(earlier_stops);
            let chains1 = chains(now_stops);
            assert(chains1 == chains0.update(s as int, chain));
            assert forall|t: int| 0 <= t < now_stops.len() implies chain_of_stop(
                (#[trigger] now_stops[t]).deps(),
                evs,
                t,
            ) by {
                if t == s {
                    assert(chain_of_stop(old_chain, evs, t));
                    assert forall|k: int| 0 <= k < chain.len() implies evs[(
                    #[trigger] chain[k]) as int].kind is Dep && evs[chain[k] as int].stop == t by {
                        assert(chain.contains(chain[k]));
                        assert(old_chain.contains(chain[k]));
                        let w = choose|w: int| 0 <= w < old_chain.len() && old_chain[w] == chain[k];
                        assert(evs[old_chain[w] as int].kind is Dep);
                    }
                } else {
                    assert(now_stops[t] == earlier_stops[t]);
                }
            }
            assert forall|t: int| 0 <= t < now_stops.len() implies (
            #[trigger] now_stops[t]).is_finalized() == (t < s + 1) by {
                if t != s {
                    assert(now_stops[t] == earlier_stops[t]);
                }
            }
            assert forall|t: int| 0 <= t < now_stops.len() && t < s + 1 implies chain_sorted(
                (#[trigger] now_stops[t]).deps(),
                evs,
            ) by {
                if t != s {
                    assert(now_stops[t] == earlier_stops[t]);
                }
            }
            assert forall|x: int| 0 <= x < evs.len() && (#[trigger] evs[x]).kind is Dep implies chains1[evs[x].stop as int].contains(
                x as usize,
            ) by {
                assert(event_sound(ids, trips, evs[x]));
                assert(chains0[evs[x].stop as int].contains(x as usize));
            }
            assert forall|t: int, k: int|
                0 <= t < now_stops.len() && t < s + 1 && 0 <= k && k + 1
                    < now_stops[t].deps().len() implies #[trigger] has_wait_edge(
                now,
                chains1[t],
                k,
            ) by {
                if t == s {
                    assert(link_installed(earlier, now, chain, k));
                    let j = earlier[chain[k] as int].edges@.len() as int;
                    assert(now[chain[k] as int].edges@[j] == wait_link(events(earlier), chain, k));
                    assert(is_wait_link(events(now), chain, k, now[chain[k] as int].edges@[j]));
                } else {
                    assert(now_stops[t] == earlier_stops[t]);
                    assert(chains1[t] == chains0[t]);
                    assert(has_wait_edge(earlier, chains0[t], k));
                    let node = chains0[t][k] as int;
                    assert(chain_of_stop(earlier_stops[t].deps(), evs, t));
                    assert(evs[node].stop == t);
                    assert(now[node].edges@ == earlier[node].edges@);
                    let j = choose|j: int|
                        0 <= j < earlier[node].edges@.len() && #[trigger] is_wait_link(
                            events(earlier),
                            chains0[t],
                            k,
                            earlier[node].edges@[j],
                        );
                    assert(is_wait_link(events(now), chains1[t], k, now[node].edges@[j]));
                }
            }
            assert forall|x: int, j: int| 0 <= x < now.len() && 0 <= j < now[x].edges@.len() implies {
                ||| is_ride_edge(trips, evs, x, #[trigger] now[x].edges@[j])
                ||| evs[x].stop < s + 1 && is_wait_edge(chains1, evs, x, now[x].edges@[j])
            } by {
                let e = now[x].edges@[j];
                assert(event_sound(ids, trips, evs[x]));
                assert(evs[x] == now[x].event);
                if is_link_source(chain, links, x) {
                    let k = choose|k: int| 0 <= k < links && #[trigger] chain[k] == x;
                    assert(link_installed(earlier, now, chain, k));
                    assert(evs[chain[k] as int].stop == s);
                    if j < earlier[x].edges@.len() {
                        assert(e == earlier[x].edges@[j]);
                        assert(is_ride_edge(trips, evs, x, earlier[x].edges@[j]));
                    } else {
                        assert(e == wait_link(events(earlier), chain, k));
                        assert(is_wait_link(evs, chain, k, e));
                        assert(is_wait_edge(chains1, evs, x, e));
                    }
                } else {
                    assert(now[x].edges@ == earlier[x].edges@);
                    assert(e == earlier[x].edges@[j]);
                    if !is_ride_edge(trips, evs, x, e) {
                        assert(evs[x].stop < s);
                        assert(is_wait_edge(chains0, evs, x, e));
                        assert(chains1[evs[x].stop as int] == chains0[evs[x].stop as int]);
                    }
                }
            }
            assert forall|x: int| 0 <= x < now.len() implies #[trigger] is_chained_node(
                now_stops,
                now,
                s + 1,
                x,
            ) by {
                assert(is_chained_node(earlier_stops, earlier, s as int, x));
                assert(evs[x] == now[x].event);
                assert(evs[x] == earlier[x].event);
                assert(event_sound(ids, trips, evs[x]));
                if evs[x].kind is Dep && evs[x].stop == s {
                    assert(has_ride_only(earlier, x));
                    assert forall|k: int|
                        0 <= k < chain.len() && #[trigger] chains1[now[x].event.stop as int][k]
                            == x implies if k + 1 < chain.len() {
                        now[x].edges@.len() == 2 && is_wait_link(events(now), chain, k, now[x].edges@[1])
                    } else {
                        now[x].edges@.len() == 1
                    } by {
                        if k < links {
                            assert(link_installed(earlier, now, chain, k));
                            assert(now[x].edges@[1] == wait_link(events(earlier), chain, k));
                        } else {
                            assert(!is_link_source(chain, links, x)) by {
                                if is_link_source(chain, links, x) {
                                    let w = choose|w: int| 0 <= w < links && #[trigger] chain[w] == x;
                                    assert(chain[w] == chain[k]);
                                }
                            }
                        }
                    }
                } else {
                    assert(now[x].edges@ == earlier[x].edges@);
                    if evs[x].kind is Dep && evs[x].stop < s {
                        assert(chains1[evs[x].stop as int] == chains0[evs[x].stop as int]);
                        assert(departure_edges_exact(chains0, earlier, x));
                    }
                }
            }
        }
        s += 1;
    }
}

/// Two chains with the same departures hold the same nodes, and neither
/// holds a node twice if the other does not.
pub proof fn lemma_same_departures(before: Seq<usize>, after: Seq<usize>)
    requires
        before.to_multiset() == after.to_multiset(),
    ensures
        forall|x: usize| before.contains(x) <==> after.contains(x),
        before.no_duplicates() ==> after.no_duplicates(),
{
    assert forall|x: usize| before.contains(x) <==> after.contains(x) by {
        to_multiset_contains(before, x);
        to_multiset_contains(after, x);
    }
    if before.no_duplicates() {
        before.lemma_multiset_has_no_duplicates();
        after.lemma_multiset_has_no_duplicates_conv();
    }
}

/// Installing a chain adds edges and changes nothing else.
pub proof fn lemma_installed_extends(
    before: Seq<Node>,
    after: Seq<Node>,
    chain: Seq<usize>,
    links: int,
)
    requires
        chain_installed(before, after, chain, links),
    ensures
        edges_extended(before, after),
{
    assert forall|x: int| 0 <= x < before.len() implies before[x].edges@.len() <= (
    #[trigger] after[x]).edges@.len() && after[x].edges@.subrange(0, before[x].edges@.len() as int)
        == before[x].edges@ by {
        assert(after[x].edges@ == before[x].edges@ + links_at(events(before), chain, links, x));
    }
}

/// Whether `after` is `before` with edges added: the events are the same
/// and every node has its earlier edges first.
pub open spec fn edges_extended(before: Seq<Node>, after: Seq<Node>) -> bool {
    &&& after.len() == before.len()
    &&& events(after) == events(before)
    &&& forall|x: int|
        0 <= x < before.len() ==> before[x].edges@.len() <= (#[trigger] after[x]).edges@.len()
            && after[x].edges@.subrange(0, before[x].edges@.len() as int) == before[x].edges@
}

/// An arrival that has its transfers keeps them when edges are added.
pub proof fn lemma_connected_persists(
    before: Seq<Node>,
    after: Seq<Node>,
    chains: Seq<Seq<usize>>,
    positions: Seq<crate::spatial::Point>,
    config: BuildConfig,
    a: int,
)
    requires
        edges_extended(before, after),
        0 <= a < before.len(),
        arrival_connected(before, chains, positions, config, a),
    ensures
        arrival_connected(after, chains, positions, config, a),
{
    let evs = events(before);
    assert(after[a].edges@.subrange(0, before[a].edges@.len() as int) == before[a].edges@);
    if has_alight_edge(before, chains, config, a) {
        let j = choose|j: int|
            0 <= j < before[a].edges@.len() && is_alight_edge(
                chains,
                evs,
                config,
                a,
                #[trigger] before[a].edges@[j],
            );
        assert(after[a].edges@[j] == after[a].edges@.subrange(0, before[a].edges@.len() as int)[j]);
        assert(is_alight_edge(chains, evs, config, a, after[a].edges@[j]));
    }
    assert forall|s: int| #[trigger]
        walk_possible(chains, positions, events(after), config, evs[a].stop as int, s, evs[a].time as int)
        implies has_walk_edge(after, chains, positions, config, a, s) by {
        assert(has_walk_edge(before, chains, positions, config, a, s));
        let j = choose|j: int|
            0 <= j < before[a].edges@.len() && is_walk_edge(
                chains,
                positions,
                evs,
                config,
                a,
                #[trigger] before[a].edges@[j],
            ) && evs[before[a].edges@[j].target_node as int].stop == s;
        assert(after[a].edges@[j] == after[a].edges@.subrange(0, before[a].edges@.len() as int)[j]);
        assert(is_walk_edge(chains, positions, evs, config, a, after[a].edges@[j]));
    }
}

/// Adds a transfer edge at arrival node `a`.
fn add_transfer(
    nodes: &mut Vec<Node>,
    a: usize,
    edge: Edge,
    stops: &Vec<Stop>,
    trips: &Vec<Trip>,
    config: &BuildConfig,
)
    requires
        is_sound_graph(stops@, trips@, old(nodes)@, *config),
        a < old(nodes)@.len(),
        is_alight_edge(chains(stops@), events(old(nodes)@), *config, a as int, edge) || is_walk_edge(
            chains(stops@),
            positions(stops@),
            events(old(nodes)@),
            *config,
            a as int,
            edge,
        ),
    ensures
        is_sound_graph(stops@, trips@, final(nodes)@, *config),
        edges_extended(old(nodes)@, final(nodes)@),
        final(nodes)@[a as int].edges@ == old(nodes)@[a as int].edges@.push(edge),
        forall|x: int| 0 <= x < old(nodes)@.len() && x != a ==> final(nodes)@[x] == old(nodes)@[x],
{
    let ghost before = nodes@;
    let ghost evs = events(before);
    nodes[a].add_edge(edge);
    proof {
        let after = nodes@;
        assert(events(after) == evs) by {
            assert forall|x: int| 0 <= x < after.len() implies after[x].event == before[x].event by {}
        }
        assert(evs[a as int].kind is Arr);
        assert forall|x: int| 0 <= x < before.len() implies before[x].edges@.len() <= (
        #[trigger] after[x]).edges@.len() && after[x].edges@.subrange(
            0,
            before[x].edges@.len() as int,
        ) == before[x].edges@ by {}
        assert forall|s: int, k: int|
            0 <= s < stops@.len() && 0 <= k && k + 1 < stops@[s].deps().len() implies #[trigger] has_wait_edge(
            after,
            chains(stops@)[s],
            k,
        ) by {
            assert(has_wait_edge(before, chains(stops@)[s], k));
            assert(chain_of_stop(stops@[s].deps(), evs, s));
            let node = chains(stops@)[s][k] as int;
            assert(evs[node].kind is Dep);
            assert(after[node] == before[node]);
        }
        assert forall|x: int, j: int| 0 <= x < after.len() && 0 <= j < after[x].edges@.len() implies edge_sound(
            trips@,
            chains(stops@),
            positions(stops@),
            evs,
            *config,
            x,
            #[trigger] after[x].edges@[j],
        ) by {
            if x == a && j == before[x].edges@.len() {
            } else {
                assert(after[x].edges@[j] == before[x].edges@[j]);
            }
        }
    }
}

/// The time that a walk over `distance` metres takes.
fn walking_time(config: &BuildConfig, distance: u32) -> (seconds: u64)
    requires
        config.walk_speed > 0,
    ensures
        seconds == walk_time(*config, distance as int),
{
    let way: u64 = (10 * (distance as u64) + (config.walk_speed as u64) - 1) / (
    config.walk_speed as u64);
    config.walk_base as u64 + way
}

/// Whether `after` is `before`, or `before` with one more edge at node `a`
/// that leads to a node of stop `s`.
pub open spec fn led_to(before: Seq<Node>, after: Seq<Node>, a: int, s: usize) -> bool {
    &&& after.len() == before.len()
    &&& events(after) == events(before)
    &&& after[a].edges@ == before[a].edges@ || {
        &&& after[a].edges@.len() == before[a].edges@.len() + 1
        &&& after[a].edges@.subrange(0, before[a].edges@.len() as int) == before[a].edges@
        &&& after[a].edges@.last().target_node < after.len()
        &&& after[after[a].edges@.last().target_node as int].event.stop == s
    }
}

/// Whether `stop` is the stop `here` itself or one of the first `m` stops of
/// the neighbour list.
pub open spec fn is_transfer_stop(list: Seq<(usize, u32)>, m: int, here: usize, stop: usize) -> bool {
    stop == here || exists|i: int| 0 <= i < m && (#[trigger] list[i]).0 == stop
}

/// Whether the edges of arrival node `a` are transfers at its own stop and
/// to the first `m` stops of the neighbour list, in their order.
pub open spec fn transfers_so_far(
    places: Seq<Point>,
    config: BuildConfig,
    nodes: Seq<Node>,
    a: int,
    list: Seq<(usize, u32)>,
    m: int,
) -> bool {
    &&& arrival_edges_ordered(places, config, nodes, a)
    &&& forall|j: int|
        0 <= j < nodes[a].edges@.len() ==> (#[trigger] nodes[a].edges@[j]).target_node < nodes.len()
            && is_transfer_stop(
            list,
            m,
            nodes[a].event.stop,
            nodes[nodes[a].edges@[j].target_node as int].event.stop,
        )
}

/// The transfers of an arrival stay in order when the transfer to the next
/// stop of the neighbour list is added.
pub proof fn lemma_transfer_added(
    places: Seq<Point>,
    config: BuildConfig,
    before: Seq<Node>,
    after: Seq<Node>,
    a: int,
    list: Seq<(usize, u32)>,
    m: int,
)
    requires
        0 <= a < before.len(),
        0 <= m < list.len(),
        is_neighbour_list(list, places, config.max_pedestrian_dist, before[a].event.stop as int),
        transfers_so_far(places, config, before, a, list, m),
        led_to(before, after, a, list[m].0),
    ensures
        transfers_so_far(places, config, after, a, list, m + 1),
{
    let here = before[a].event.stop;
    let near = list[m].0;
    assert(events(after)[a] == after[a].event);
    assert(events(before)[a] == before[a].event);
    assert forall|t: int| 0 <= t < before.len() implies (#[trigger] after[t]).event == before[t].event by {
        assert(events(after)[t] == events(before)[t]);
    }
    assert(is_neighbour(places, config.max_pedestrian_dist, here as int, list[m].0 as int));
    let count = before[a].edges@.len() as int;
    assert forall|j: int| 0 <= j < after[a].edges@.len() implies (
    #[trigger] after[a].edges@[j]).target_node < after.len() && is_transfer_stop(
        list,
        m + 1,
        here,
        after[after[a].edges@[j].target_node as int].event.stop,
    ) by {
        if j < count {
            assert(after[a].edges@[j] == after[a].edges@.subrange(0, count)[j] || after[a].edges@
                == before[a].edges@);
            assert(after[a].edges@[j] == before[a].edges@[j]);
            let stop = before[before[a].edges@[j].target_node as int].event.stop;
            assert(is_transfer_stop(list, m, here, stop));
            if stop != here {
                let i = choose|i: int| 0 <= i < m && (#[trigger] list[i]).0 == stop;
                assert(0 <= i < m + 1 && list[i].0 == stop);
            }
        } else {
            assert(after[a].edges@[j] == after[a].edges@.last());
            assert(list[m].0 == near);
        }
    }
    assert forall|i: int, j: int| 0 <= i < j < after[a].edges@.len() implies transfer_before(
        places,
        config,
        after[a].event.stop as int,
        after[(#[trigger] after[a].edges@[i]).target_node as int].event.stop as int,
        after[(#[trigger] after[a].edges@[j]).target_node as int].event.stop as int,
    ) by {
        assert(after[a].edges@[i] == after[a].edges@.subrange(0, count)[i] || after[a].edges@
            == before[a].edges@);
        assert(after[a].edges@[i] == before[a].edges@[i]);
        if j < count {
            assert(after[a].edges@[j] == after[a].edges@.subrange(0, count)[j] || after[a].edges@
                == before[a].edges@);
            assert(after[a].edges@[j] == before[a].edges@[j]);
        } else {
            assert(after[a].edges@[j] == after[a].edges@.last());
            let stop = before[before[a].edges@[i].target_node as int].event.stop;
            assert(is_transfer_stop(list, m, here, stop));
            if stop != here {
                let w = choose|w: int| 0 <= w < m && (#[trigger] list[w]).0 == stop;
                assert(listed_before(
                    places,
                    config.max_pedestrian_dist,
                    here as int,
                    list[w].0 as int,
                    list[m].0 as int,
                ));
            }
        }
    }
}

/// An arrival without edges has its transfers in order once the transfer at
/// its own stop is added.
pub proof fn lemma_alight_added(
    places: Seq<Point>,
    config: BuildConfig,
    before: Seq<Node>,
    after: Seq<Node>,
    a: int,
    list: Seq<(usize, u32)>,
)
    requires
        0 <= a < before.len(),
        before[a].edges@.len() == 0,
        led_to(before, after, a, before[a].event.stop),
    ensures
        transfers_so_far(places, config, after, a, list, 0),
{
    assert(events(after)[a] == after[a].event);
    assert(events(before)[a] == before[a].event);
    assert forall|j: int| 0 <= j < after[a].edges@.len() implies (
    #[trigger] after[a].edges@[j]).target_node < after.len() && is_transfer_stop(
        list,
        0,
        after[a].event.stop,
        after[after[a].edges@[j].target_node as int].event.stop,
    ) by {
        assert(after[a].edges@[j] == after[a].edges@.last());
    }
}

/// Gives arrival node `a` an edge to the first departure of stop `s` at or
/// after `ready`, if there is one. `walked` tells whether the passenger
/// walks to `s` from the stop of `a` or alights at `s` itself.
fn connect_to_stop(
    nodes: &mut Vec<Node>,
    a: usize,
    s: usize,
    ready: u64,
    stops: &Vec<Stop>,
    trips: &Vec<Trip>,
    config: &BuildConfig,
)
    requires
        is_sound_graph(stops@, trips@, old(nodes)@, *config),
        a < old(nodes)@.len(),
        s < stops@.len(),
        events(old(nodes)@)[a as int].kind is Arr,
        ready >= events(old(nodes)@)[a as int].time,
        s == events(old(nodes)@)[a as int].stop ==> ready == events(old(nodes)@)[a as int].time
            + config.min_transfer_time,
        s != events(old(nodes)@)[a as int].stop ==> is_neighbour(
            positions(stops@),
            config.max_pedestrian_dist,
            events(old(nodes)@)[a as int].stop as int,
            s as int,
        ) && config.walk_speed > 0 && ready == events(old(nodes)@)[a as int].time + walk_time(
            *config,
            manhattan(
                positions(stops@)[events(old(nodes)@)[a as int].stop as int],
                positions(stops@)[s as int],
            ),
        ),
    ensures
        is_sound_graph(stops@, trips@, final(nodes)@, *config),
        edges_extended(old(nodes)@, final(nodes)@),
        led_to(old(nodes)@, final(nodes)@, a as int, s),
        forall|x: int| 0 <= x < old(nodes)@.len() && x != a ==> final(nodes)@[x] == old(nodes)@[x],
        departure_available(chains(stops@)[s as int], events(old(nodes)@), ready as int) ==> {
            if s == events(old(nodes)@)[a as int].stop {
                has_alight_edge(final(nodes)@, chains(stops@), *config, a as int)
            } else {
                has_walk_edge(
                    final(nodes)@,
                    chains(stops@),
                    positions(stops@),
                    *config,
                    a as int,
                    s as int,
                )
            }
        },
{
    let ghost before = nodes@;
    let ghost evs = events(before);
    let ghost chain = stops@[s as int].deps();
    assert(chains(stops@)[s as int] == chain);
    assert(chain_of_stop(chain, evs, s as int));
    if ready > u32::MAX as u64 {
        assert(!departure_available(chain, evs, ready as int));
        assert forall|x: int| 0 <= x < before.len() implies before[x].edges@.len() <= (
        #[trigger] nodes@[x]).edges@.len() && nodes@[x].edges@.subrange(
            0,
            before[x].edges@.len() as int,
        ) == before[x].edges@ by {}
        return ;
    }
    let time = nodes[a].get_time();
    assert(time == evs[a as int].time);
    let found = stops[s].get_earliest_dep(ready as u32, nodes);
    match found {
        Ok(Some(target)) => {
            let edge = Edge::new(time, ready as u32, None, target);
            proof {
                let k = choose|k: int| #[trigger]
                    is_earliest_at(chain, evs, ready as int, k) && chain[k] == target;
                assert(is_next_departure(chains(stops@), evs, s as int, ready as int, target));
                assert(evs[target as int].stop == s);
                assert(positions(stops@).len() == stops@.len());
            }
            add_transfer(nodes, a, edge, stops, trips, config);
            proof {
                let after = nodes@;
                let j = before[a as int].edges@.len() as int;
                assert(after[a as int].edges@[j] == edge);
                assert(after[a as int].edges@.last() == edge);
                assert(events(after)[target as int] == after[target as int].event);
            }
        },
        _ => {
            assert(!departure_available(chain, evs, ready as int));
            assert forall|x: int| 0 <= x < before.len() implies before[x].edges@.len() <= (
            #[trigger] nodes@[x]).edges@.len() && nodes@[x].edges@.subrange(
                0,
                before[x].edges@.len() as int,
            ) == before[x].edges@ by {}
        },
    }
}

/// Gives arrival node `a` its transfers: the alight edge at its own stop
/// and a pedestrian edge to each neighbouring stop, wherever a departure can
/// be reached.
fn connect_arrival(
    nodes: &mut Vec<Node>,
    a: usize,
    stops: &Vec<Stop>,
    trips: &Vec<Trip>,
    connections: &Vec<Vec<(usize, u32)>>,
    config: &BuildConfig,
)
    requires
        is_sound_graph(stops@, trips@, old(nodes)@, *config),
        a < old(nodes)@.len(),
        events(old(nodes)@)[a as int].kind is Arr,
        old(nodes)@[a as int].edges@.len() == 0,
        are_pedestrian_connections(connections@, positions(stops@), config.max_pedestrian_dist),
    ensures
        is_sound_graph(stops@, trips@, final(nodes)@, *config),
        edges_extended(old(nodes)@, final(nodes)@),
        forall|x: int| 0 <= x < old(nodes)@.len() && x != a ==> final(nodes)@[x] == old(nodes)@[x],
        arrival_connected(final(nodes)@, chains(stops@), positions(stops@), *config, a as int),
        arrival_edges_ordered(positions(stops@), *config, final(nodes)@, a as int),
{
    let ghost before = nodes@;
    let ghost evs = events(before);
    let ghost all_chains = chains(stops@);
    let ghost places = positions(stops@);
    let time = nodes[a].get_time();
    let here = nodes[a].event.stop;
    assert(evs[a as int] == before[a as int].event);
    assert(event_sound(stop_ids(stops@), trips@, evs[a as int]));
    assert(stop_ids(stops@).len() == stops@.len());
    assert(places.len() == stops@.len());
    connect_to_stop(
        nodes,
        a,
        here,
        time as u64 + config.min_transfer_time as u64,
        stops,
        trips,
        config,
    );
    let list = &connections[here];
    assert(is_neighbour_list(list@, places, config.max_pedestrian_dist, here as int));
    proof {
        lemma_alight_added(places, *config, before, nodes@, a as int, list@);
    }
    let mut m: usize = 0;
    while m < list.len()
        invariant
            m <= list.len(),
            a < before.len(),
            here < stops@.len(),
            evs == events(before),
            evs[a as int].kind is Arr,
            evs[a as int].stop == here,
            evs[a as int].time == time,
            all_chains == chains(stops@),
            places == positions(stops@),
            places.len() == stops@.len(),
            is_neighbour_list(list@, places, config.max_pedestrian_dist, here as int),
            is_sound_graph(stops@, trips@, nodes@, *config),
            edges_extended(before, nodes@),
            before[a as int].event.stop == here,
            forall|x: int| 0 <= x < before.len() && x != a ==> nodes@[x] == before[x],
            transfers_so_far(places, *config, nodes@, a as int, list@, m as int),
            departure_available(
                all_chains[here as int],
                evs,
                time + config.min_transfer_time,
            ) ==> has_alight_edge(nodes@, all_chains, *config, a as int),
            forall|i: int|
                0 <= i < m && #[trigger] walk_possible(
                    all_chains,
                    places,
                    evs,
                    *config,
                    here as int,
                    list@[i].0 as int,
                    time as int,
                ) ==> has_walk_edge(nodes@, all_chains, places, *config, a as int, list@[i].0 as int),
        decreases list.len() - m,
    {
        let (near, distance) = list[m];
        assert(is_neighbour(places, config.max_pedestrian_dist, here as int, list@[m as int].0 as int));
        let ghost earlier = nodes@;
        if config.walk_speed > 0 {
            let ready = time as u64 + walking_time(config, distance);
            connect_to_stop(nodes, a, near, ready, stops, trips, config);
        }
        proof {
            let now = nodes@;
            assert(edges_extended(earlier, now)) by {
                if config.walk_speed == 0 {
                    assert forall|x: int| 0 <= x < earlier.len() implies earlier[x].edges@.len() <= (
                    #[trigger] now[x]).edges@.len() && now[x].edges@.subrange(
                        0,
                        earlier[x].edges@.len() as int,
                    ) == earlier[x].edges@ by {}
                }
            }
            lemma_extended_twice(before, earlier, now);
            lemma_transfers_persist(earlier, now, all_chains, places, *config, a as int);
            assert(events(earlier)[a as int] == earlier[a as int].event);
            assert(led_to(earlier, now, a as int, list@[m as int].0));
            lemma_transfer_added(places, *config, earlier, now, a as int, list@, m as int);
        }
        m += 1;
    }
    proof {
        let now = nodes@;
        assert forall|s: int| #[trigger]
            walk_possible(all_chains, places, events(now), *config, here as int, s, time as int)
            implies has_walk_edge(now, all_chains, places, *config, a as int, s) by {
            assert(lists_stop(list@, s));
            let i = choose|i: int| 0 <= i < list@.len() && (#[trigger] list@[i]).0 == s;
            assert(walk_possible(
                all_chains,
                places,
                evs,
                *config,
                here as int,
                list@[i].0 as int,
                time as int,
            ));
        }
    }
}

/// Adding edges twice adds edges.
pub proof fn lemma_extended_twice(first: Seq<Node>, second: Seq<Node>, third: Seq<Node>)
    requires
        edges_extended(first, second),
        edges_extended(second, third),
    ensures
        edges_extended(first, third),
{
    assert forall|x: int| 0 <= x < first.len() implies first[x].edges@.len() <= (
    #[trigger] third[x]).edges@.len() && third[x].edges@.subrange(0, first[x].edges@.len() as int)
        == first[x].edges@ by {
        assert(second[x].edges@.subrange(0, first[x].edges@.len() as int) == first[x].edges@);
        assert(third[x].edges@.subrange(0, second[x].edges@.len() as int) == second[x].edges@);
        assert forall|j: int| 0 <= j < first[x].edges@.len() implies third[x].edges@[j]
            == first[x].edges@[j] by {
            assert(third[x].edges@[j] == third[x].edges@.subrange(
                0,
                second[x].edges@.len() as int,
            )[j]);
            assert(second[x].edges@[j] == second[x].edges@.subrange(
                0,
                first[x].edges@.len() as int,
            )[j]);
        }
    }
}

/// The transfer edges that a node has, it keeps when edges are added.
pub proof fn lemma_transfers_persist(
    before: Seq<Node>,
    after: Seq<Node>,
    chains: Seq<Seq<usize>>,
    positions: Seq<crate::spatial::Point>,
    config: BuildConfig,
    a: int,
)
    requires
        edges_extended(before, after),
        0 <= a < before.len(),
    ensures
        has_alight_edge(before, chains, config, a) ==> has_alight_edge(after, chains, config, a),
        forall|s: int|
            has_walk_edge(before, chains, positions, config, a, s) ==> has_walk_edge(
                after,
                chains,
                positions,
                config,
                a,
                s,
            ),
{
    let evs = events(before);
    assert(after[a].edges@.subrange(0, before[a].edges@.len() as int) == before[a].edges@);
    if has_alight_edge(before, chains, config, a) {
        let j = choose|j: int|
            0 <= j < before[a].edges@.len() && is_alight_edge(
                chains,
                evs,
                config,
                a,
                #[trigger] before[a].edges@[j],
            );
        assert(after[a].edges@[j] == after[a].edges@.subrange(0, before[a].edges@.len() as int)[j]);
        assert(is_alight_edge(chains, evs, config, a, after[a].edges@[j]));
    }
    assert forall|s: int| has_walk_edge(before, chains, positions, config, a, s) implies has_walk_edge(
        after,
        chains,
        positions,
        config,
        a,
        s,
    ) by {
        let j = choose|j: int|
            0 <= j < before[a].edges@.len() && is_walk_edge(
                chains,
                positions,
                evs,
                config,
                a,
                #[trigger] before[a].edges@[j],
            ) && evs[before[a].edges@[j].target_node as int].stop == s;
        assert(after[a].edges@[j] == after[a].edges@.subrange(0, before[a].edges@.len() as int)[j]);
        assert(is_walk_edge(chains, positions, evs, config, a, after[a].edges@[j]));
    }
}

/// Gives every arrival node its transfers: an alight edge to the first
/// departure of its own stop after the minimum transfer time, and a
/// pedestrian edge to the first departure of each neighbouring stop after
/// the walk.
pub fn connect_arrivals(
    nodes: &mut Vec<Node>,
    arrivals: &Vec<usize>,
    stops: &Vec<Stop>,
    trips: &Vec<Trip>,
    connections: &Vec<Vec<(usize, u32)>>,
    config: &BuildConfig,
)
    requires
        is_chained_graph(stops@, trips@, old(nodes)@, arrivals@, stops@.len() as int),
        rides_complete(trips@, old(nodes)@),
        forall|t: int| 0 <= t < trips@.len() ==> is_schedule((#[trigger] trips@[t]).stop_times@),
        are_pedestrian_connections(connections@, positions(stops@), config.max_pedestrian_dist),
    ensures
        is_time_expanded(stops@, trips@, final(nodes)@, *config),
        edges_extended(old(nodes)@, final(nodes)@),
{
    let ghost before = nodes@;
    let ghost evs = events(before);
    proof {
        lemma_chained_is_sound(stops@, trips@, before, arrivals@, *config);
        lemma_extended_by_nothing(before);
        assert forall|k: int| 0 <= k < arrivals@.len() implies before[(
        #[trigger] arrivals@[k]) as int].edges@.len() == 0 by {
            let x = arrivals@[k] as int;
            assert(evs[x] == before[x].event);
            assert(is_chained_node(stops@, before, stops@.len() as int, x));
        }
    }
    let mut i: usize = 0;
    while i < arrivals.len()
        invariant
            i <= arrivals.len(),
            evs == events(before),
            arrivals_listed(arrivals@, evs),
            are_pedestrian_connections(connections@, positions(stops@), config.max_pedestrian_dist),
            is_sound_graph(stops@, trips@, nodes@, *config),
            edges_extended(before, nodes@),
            forall|k: int|
                i <= k < arrivals@.len() ==> nodes@[(#[trigger] arrivals@[k]) as int].edges@.len() == 0,
            forall|x: int|
                0 <= x < before.len() && evs[x].kind is Dep ==> (#[trigger] nodes@[x]) == before[x],
            forall|k: int|
                0 <= k < i ==> arrival_settled(
                    nodes@,
                    chains(stops@),
                    positions(stops@),
                    *config,
                    (#[trigger] arrivals@[k]) as int,
                ),
        decreases arrivals.len() - i,
    {
        let a = arrivals[i];
        let ghost earlier = nodes@;
        connect_arrival(nodes, a, stops, trips, connections, config);
        proof {
            let now = nodes@;
            lemma_extended_twice(before, earlier, now);
            assert forall|k: int| 0 <= k < i + 1 implies arrival_settled(
                now,
                chains(stops@),
                positions(stops@),
                *config,
                (#[trigger] arrivals@[k]) as int,
            ) by {
                if k < i {
                    assert(arrivals@[k] != arrivals@[i as int]);
                    lemma_settled_persists(
                        stops@,
                        trips@,
                        earlier,
                        now,
                        *config,
                        arrivals@[k] as int,
                    );
                }
            }
            assert forall|k: int| i + 1 <= k < arrivals@.len() implies now[(
            #[trigger] arrivals@[k]) as int].edges@.len() == 0 by {
                assert(arrivals@[k] != arrivals@[i as int]);
            }
        }
        i += 1;
    }
    let count = nodes.len();
    proof {
        lemma_rides_persist(trips@, before, nodes@);
        lemma_graph_is_time_expanded(stops@, trips@, before, nodes@, arrivals@, *config);
    }
}

/// Whether arrival node `a` has its transfers, in their order.
pub open spec fn arrival_settled(
    nodes: Seq<Node>,
    chains: Seq<Seq<usize>>,
    positions: Seq<Point>,
    config: BuildConfig,
    a: int,
) -> bool {
    arrival_connected(nodes, chains, positions, config, a) && arrival_edges_ordered(
        positions,
        config,
        nodes,
        a,
    )
}

/// An arrival that has its transfers keeps them when edges are added to
/// other nodes.
pub proof fn lemma_settled_persists(
    stops: Seq<Stop>,
    trips: Seq<Trip>,
    before: Seq<Node>,
    after: Seq<Node>,
    config: BuildConfig,
    a: int,
)
    requires
        is_sound_graph(stops, trips, before, config),
        edges_extended(before, after),
        0 <= a < before.len(),
        after[a] == before[a],
        arrival_settled(before, chains(stops), positions(stops), config, a),
    ensures
        arrival_settled(after, chains(stops), positions(stops), config, a),
{
    lemma_connected_persists(before, after, chains(stops), positions(stops), config, a);
    assert forall|i: int, j: int| 0 <= i < j < after[a].edges@.len() implies transfer_before(
        positions(stops),
        config,
        after[a].event.stop as int,
        after[(#[trigger] after[a].edges@[i]).target_node as int].event.stop as int,
        after[(#[trigger] after[a].edges@[j]).target_node as int].event.stop as int,
    ) by {
        let ti = before[a].edges@[i].target_node as int;
        let tj = before[a].edges@[j].target_node as int;
        lemma_sound_target_in_bounds(stops, trips, before, config, a, i);
        lemma_sound_target_in_bounds(stops, trips, before, config, a, j);
        assert(events(after)[ti] == events(before)[ti]);
        assert(events(after)[tj] == events(before)[tj]);
    }
}

/// In a sound graph every edge leads to a node of the arena.
pub proof fn lemma_sound_target_in_bounds(
    stops: Seq<Stop>,
    trips: Seq<Trip>,
    nodes: Seq<Node>,
    config: BuildConfig,
    x: int,
    j: int,
)
    requires
        is_sound_graph(stops, trips, nodes, config),
        0 <= x < nodes.len(),
        0 <= j < nodes[x].edges@.len(),
    ensures
        nodes[x].edges@[j].target_node < nodes.len(),
{
    let evs = events(nodes);
    let e = nodes[x].edges@[j];
    assert(edge_sound(trips, chains(stops), positions(stops), evs, config, x, e));
    assert(event_sound(stop_ids(stops), trips, evs[x]));
    if is_wait_edge(chains(stops), evs, x, e) {
        let chain = chains(stops)[evs[x].stop as int];
        assert(chain == stops[evs[x].stop as int].deps());
        assert(chain_of_stop(chain, evs, evs[x].stop as int));
        let k = choose|k: int| chain[k] == x && #[trigger] is_wait_link(evs, chain, k, e);
        assert(chain[k + 1] < evs.len());
    }
}

/// A sound graph that holds all rides, in which the departures have the
/// edges that the chains gave them and every listed arrival has its
/// transfers, is the time-expanded graph.
proof fn lemma_graph_is_time_expanded(
    stops: Seq<Stop>,
    trips: Seq<Trip>,
    before: Seq<Node>,
    nodes: Seq<Node>,
    arrivals: Seq<usize>,
    config: BuildConfig,
)
    requires
        nodes.len() <= usize::MAX,
        is_chained_graph(stops, trips, before, arrivals, stops.len() as int),
        is_sound_graph(stops, trips, nodes, config),
        rides_complete(trips, nodes),
        edges_extended(before, nodes),
        arrivals_listed(arrivals, events(nodes)),
        forall|x: int|
            0 <= x < before.len() && events(before)[x].kind is Dep ==> (#[trigger] nodes[x]) == before[x],
        forall|k: int|
            0 <= k < arrivals.len() ==> arrival_settled(
                nodes,
                chains(stops),
                positions(stops),
                config,
                (#[trigger] arrivals[k]) as int,
            ),
    ensures
        is_time_expanded(stops, trips, nodes, config),
{
    assert forall|x: int| 0 <= x < nodes.len() implies #[trigger] edges_exact(
        chains(stops),
        positions(stops),
        config,
        nodes,
        x,
    ) by {
        assert(events(nodes)[x] == nodes[x].event);
        assert(events(before)[x] == before[x].event);
        if nodes[x].event.kind is Dep {
            assert(nodes[x] == before[x]);
            assert(is_chained_node(stops, before, stops.len() as int, x));
            assert(event_sound(stop_ids(stops), trips, events(before)[x]));
            assert(departure_edges_exact(chains(stops), before, x));
        } else {
            assert(arrivals.contains(x as usize));
            let k = choose|k: int| 0 <= k < arrivals.len() && arrivals[k] == x as usize;
            assert(arrival_settled(nodes, chains(stops), positions(stops), config, arrivals[k] as int));
        }
    }
    assert forall|a: int| 0 <= a < nodes.len() && (#[trigger] events(nodes)[a]).kind is Arr implies arrival_connected(
        nodes,
        chains(stops),
        positions(stops),
        config,
        a,
    ) by {
        assert(arrivals.contains(a as usize));
        let k = choose|k: int| 0 <= k < arrivals.len() && arrivals[k] == a as usize;
        assert(arrival_settled(nodes, chains(stops), positions(stops), config, arrivals[k] as int));
    }
}

/// The rides that an arena holds, it holds when edges are added.
pub proof fn lemma_rides_persist(trips: Seq<Trip>, before: Seq<Node>, after: Seq<Node>)
    requires
        edges_extended(before, after),
        rides_complete(trips, before),
    ensures
        rides_complete(trips, after),
{
    assert forall|t: int, i: int| 0 <= t < trips.len() && 0 <= i < rides_of(trips[t]) implies #[trigger] ride_present(
        trips,
        after,
        t,
        i,
    ) by {
        assert(ride_present(trips, before, t, i));
        let d = departure_node(trips, t, i);
        assert(events(before)[d] == before[d].event);
        assert(events(after)[d] == after[d].event);
        assert(events(before)[d + 1] == before[d + 1].event);
        assert(events(after)[d + 1] == after[d + 1].event);
        assert(after[d].edges@.subrange(0, before[d].edges@.len() as int) == before[d].edges@);
        assert(after[d].edges@[0] == after[d].edges@.subrange(0, before[d].edges@.len() as int)[0]);
    }
}

/// A graph whose stops are all chained, over trips that form schedules, is
/// sound: rides and wait edges are edges of the four families.
proof fn lemma_chained_is_sound(
    stops: Seq<Stop>,
    trips: Seq<Trip>,
    nodes: Seq<Node>,
    arrivals: Seq<usize>,
    config: BuildConfig,
)
    requires
        is_chained_graph(stops, trips, nodes, arrivals, stops.len() as int),
        forall|t: int| 0 <= t < trips.len() ==> is_schedule((#[trigger] trips[t]).stop_times@),
    ensures
        is_sound_graph(stops, trips, nodes, config),
{
    assert forall|s: int| 0 <= s < stops.len() implies {
        &&& (#[trigger] stops[s]).is_finalized()
        &&& chain_sorted(stops[s].deps(), events(nodes))
        &&& chain_of_stop(stops[s].deps(), events(nodes), s)
    } by {}
    assert forall|s: int, k: int|
        0 <= s < stops.len() && 0 <= k && k + 1 < stops[s].deps().len() implies #[trigger] has_wait_edge(
        nodes,
        chains(stops)[s],
        k,
    ) by {}
    assert forall|x: int, j: int| 0 <= x < nodes.len() && 0 <= j < nodes[x].edges@.len() implies edge_sound(
        trips,
        chains(stops),
        positions(stops),
        events(nodes),
        config,
        x,
        #[trigger] nodes[x].edges@[j],
    ) by {}
}

/// A graph to which nothing is added is extended.
proof fn lemma_extended_by_nothing(nodes: Seq<Node>)
    ensures
        edges_extended(nodes, nodes),
{
    assert forall|x: int| 0 <= x < nodes.len() implies nodes[x].edges@.len() <= (
    #[trigger] nodes[x]).edges@.len() && nodes[x].edges@.subrange(0, nodes[x].edges@.len() as int)
        == nodes[x].edges@ by {}
}

/// Opens every stop and empties its list of departures.
fn reset_stops(stops: &mut Vec<Stop>)
    ensures
        same_records(old(stops)@, final(stops)@),
        forall|s: int|
            0 <= s < final(stops)@.len() ==> !(#[trigger] final(stops)@[s]).is_finalized()
                && final(stops)@[s].deps().len() == 0,
{
    let ghost before = stops@;
    let mut s: usize = 0;
    while s < stops.len()
        invariant
            s <= stops@.len(),
            stops@.len() == before.len(),
            forall|k: int| 0 <= k < before.len() ==> (#[trigger] stops@[k]).same_record(&before[k]),
            forall|k: int|
                0 <= k < s ==> !(#[trigger] stops@[k]).is_finalized() && stops@[k].deps().len() == 0,
        decreases stops.len() - s,
    {
        stops[s].departures = DepartureList::new();
        s += 1;
    }
}

/// Finds, for every call of every trip, the place of its stop in the stop
/// table.
fn resolve_calls(trips: &Vec<Trip>, stops: &Table<Stop>) -> (calls: Vec<Vec<usize>>)
    requires
        stops.wf(),
        forall|t: int, c: int|
            0 <= t < trips@.len() && 0 <= c < trips@[t].stop_times@.len() ==> stops.index@.contains_key(
                (#[trigger] trips@[t].stop_times@[c]).stop_id@,
            ),
    ensures
        calls_resolved(stop_ids(stops.rows@), trips@, calls@),
{
    let mut calls: Vec<Vec<usize>> = Vec::new();
    let ghost ids = stop_ids(stops.rows@);
    assert(ids == keys_of(stops.rows@));
    let mut t: usize = 0;
    while t < trips.len()
        invariant
            t <= trips@.len(),
            stops.wf(),
            ids == stop_ids(stops.rows@),
            ids == keys_of(stops.rows@),
            forall|a: int, c: int|
                0 <= a < trips@.len() && 0 <= c < trips@[a].stop_times@.len() ==> stops.index@.contains_key(
                    (#[trigger] trips@[a].stop_times@[c]).stop_id@,
                ),
            calls@.len() == t,
            forall|a: int| 0 <= a < t ==> (#[trigger] calls@[a])@.len() == trips@[a].stop_times@.len(),
            forall|a: int, c: int|
                0 <= a < t && 0 <= c < trips@[a].stop_times@.len() ==> (#[trigger] calls@[a]@[c])
                    < ids.len() && ids[calls@[a]@[c] as int] == trips@[a].stop_times@[c].stop_id@,
        decreases trips.len() - t,
    {
        let trip = &trips[t];
        let mut places: Vec<usize> = Vec::new();
        let mut c: usize = 0;
        while c < trip.stop_times.len()
            invariant
                c <= trip.stop_times@.len(),
                t < trips@.len(),
                *trip == trips@[t as int],
                stops.wf(),
                ids == keys_of(stops.rows@),
                forall|k: int|
                    0 <= k < trip.stop_times@.len() ==> stops.index@.contains_key(
                        (#[trigger] trip.stop_times@[k]).stop_id@,
                    ),
                places@.len() == c,
                forall|k: int|
                    0 <= k < c ==> (#[trigger] places@[k]) < ids.len() && ids[places@[k] as int]
                        == trip.stop_times@[k].stop_id@,
            decreases trip.stop_times.len() - c,
        {
            let place = match stops.position(trip.stop_times[c].stop_id.as_str()) {
                Some(place) => place,
                None => {
                    assert(stops.index@.contains_key(trip.stop_times@[c as int].stop_id@));
                    vstd::pervasive::unreached()
                },
            };
            assert(ids[place as int] == stops.rows@[place as int].stop_id@);
            places.push(place);
            c += 1;
        }
        calls.push(places);
        t += 1;
    }
    calls
}

/// The positions of the stops, in table order.
fn stop_positions(stops: &Vec<Stop>) -> (coords: Vec<Point>)
    ensures
        coords@ == positions(stops@),
{
    let mut coords: Vec<Point> = Vec::new();
    let mut s: usize = 0;
    while s < stops.len()
        invariant
            s <= stops@.len(),
            coords@.len() == s,
            forall|k: int| 0 <= k < s ==> coords@[k] == (#[trigger] stops@[k]).position,
        decreases stops.len() - s,
    {
        coords.push(stops[s].position);
        s += 1;
    }
    assert(coords@ =~= positions(stops@));
    coords
}

/// Builds the time-expanded graph of a schedule.
///
/// The graph is built in three passes: the nodes of all trips and the rides
/// between them; the chain of departures at every stop; the transfers from
/// every arrival to the next departure at its own stop and at the stops
/// within walking distance.
pub fn build_graph(schedule: Schedule, config: BuildConfig) -> (network: Network)
    requires
        schedule.wf(),
    ensures
        network.wf(),
        network.config() == config,
        same_records(schedule.stops.rows@, network.stops()),
        network.routes() == schedule.routes.rows@,
        network.trips() == schedule.trips.rows@,
        network.services() == schedule.services.rows@,
        forall|id: Seq<char>| network.stop_place(id) == schedule.stops.spec_position(id),
{
    let Schedule { stops, routes, trips, services } = schedule;
    let mut stops = stops;
    let ghost filed = stops.rows@;
    let ghost index = stops.index@;
    reset_stops(&mut stops.rows);
    proof {
        assert(keys_of(stops.rows@) == keys_of(filed)) by {
            assert forall|s: int| 0 <= s < filed.len() implies stops.rows@[s].key() == keys_of(filed)[s] by {
                assert(stops.rows@[s].same_record(&filed[s]));
            }
        }
        assert forall|t: int, c: int|
            0 <= t < trips.rows@.len() && 0 <= c < trips.rows@[t].stop_times@.len() implies stops.index@.contains_key(
            (#[trigger] trips.rows@[t].stop_times@[c]).stop_id@,
        ) by {
            assert(trip_refers(
                trips.rows@[t],
                index.dom(),
                routes.index@.dom(),
                services.index@.dom(),
            ));
        }
    }
    let calls = resolve_calls(&trips.rows, &stops);
    let ghost opened = stops.rows@;
    let (mut nodes, arrivals) = create_nodes(&mut stops.rows, &trips.rows, &calls);
    let ghost ridden = nodes@;
    finalize_stops(&mut stops.rows, &mut nodes, &trips.rows, &arrivals);
    proof {
        lemma_rides_persist(trips.rows@, ridden, nodes@);
    }
    let coords = stop_positions(&stops.rows);
    let squares = calculate_proximity_squares(&coords, config.max_pedestrian_dist);
    let connections = get_pedestrian_connections(&coords, &squares, config.max_pedestrian_dist);
    proof {
        assert forall|t: int| 0 <= t < trips.rows@.len() implies is_schedule(
            (#[trigger] trips.rows@[t]).stop_times@,
        ) by {
            assert(trip_refers(
                trips.rows@[t],
                index.dom(),
                routes.index@.dom(),
                services.index@.dom(),
            ));
        }
    }
    connect_arrivals(&mut nodes, &arrivals, &stops.rows, &trips.rows, &connections, &config);
    proof {
        let built = stops.rows@;
        assert(keys_of(built) == keys_of(filed)) by {
            assert forall|s: int| 0 <= s < filed.len() implies built[s].key() == keys_of(filed)[s] by {
                assert(opened[s].same_record(&filed[s]));
            }
        }
        assert forall|s: int| 0 <= s < filed.len() implies (#[trigger] built[s]).same_record(
            &filed[s],
        ) by {
            assert(opened[s].same_record(&filed[s]));
        }
    }
    Network::new(stops, routes, trips, services, nodes, config)
}

} // verus!
