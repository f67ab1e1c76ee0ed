use vstd::prelude::*;
use crate::graph::{Edge, Event, Node, NodeKind, Stop, chain_in_bounds, chain_sorted, events, is_earliest_at, is_wait_link};
use crate::records::{Trip, is_schedule};
use crate::spatial::{Point, is_neighbour, listed_before, manhattan};

verus! {

/// The default minimum time between alighting and boarding, in seconds.
pub const MINIMAL_TRANSFER_TIME: u32 = 60;

/// The default walking radius, in metres.
pub const MAX_PEDESTRIAN_DIST: u32 = 500;

/// The default walking speed, in tenths of a metre per second.
pub const PEDESTRIAN_SPEED: u32 = 36;

/// The default time that every walk takes on top of the way, in seconds.
pub const BASE_PEDESTRIAN_TRANSFER_TIME: u32 = 60;

/// The settings under which a graph is built.
#[derive(Debug, Clone, Copy, PartialEq, Eq, Structural)]
pub struct BuildConfig {
    /// Minimum time between alighting and boarding at one stop, in seconds.
    pub min_transfer_time: u32,
    /// How far a passenger walks between two stops at most, in metres.
    pub max_pedestrian_dist: u32,
    /// The time that every walk takes on top of the way, in seconds.
    pub walk_base: u32,
    /// Walking speed in tenths of a metre per second; at speed 0 nobody
    /// walks.
    pub walk_speed: u32,
}

impl Default for BuildConfig {
    fn default() -> (config: BuildConfig)
        ensures
            config.min_transfer_time == MINIMAL_TRANSFER_TIME,
            config.max_pedestrian_dist == MAX_PEDESTRIAN_DIST,
            config.walk_base == BASE_PEDESTRIAN_TRANSFER_TIME,
            config.walk_speed == PEDESTRIAN_SPEED,
    {
        BuildConfig {
            min_transfer_time: MINIMAL_TRANSFER_TIME,
            max_pedestrian_dist: MAX_PEDESTRIAN_DIST,
            walk_base: BASE_PEDESTRIAN_TRANSFER_TIME,
            walk_speed: PEDESTRIAN_SPEED,
        }
    }
}

/// The time that a walk over `distance` metres takes, in seconds: the base
/// time and the way at walking speed, rounded up to a whole second.
pub open spec fn walk_time(config: BuildConfig, distance: int) -> int {
    config.walk_base + (10 * distance + config.walk_speed - 1) / (config.walk_speed as int)
}

/// The identifiers of the stops, in table order.
pub open spec fn stop_ids(stops: Seq<Stop>) -> Seq<Seq<char>> {
    Seq::new(stops.len(), |i: int| stops[i].stop_id@)
}

/// The positions of the stops, in table order.
pub open spec fn positions(stops: Seq<Stop>) -> Seq<Point> {
    Seq::new(stops.len(), |i: int| stops[i].position)
}

/// The departure chains of the stops, in table order.
pub open spec fn chains(stops: Seq<Stop>) -> Seq<Seq<usize>> {
    Seq::new(stops.len(), |i: int| stops[i].deps())
}

/// Whether an event is the call of its trip at its stop that it claims to
/// be: a departure from a call that has a successor, or an arrival at a
/// call that has a predecessor, at the time that the call gives.
pub open spec fn event_sound(ids: Seq<Seq<char>>, trips: Seq<Trip>, event: Event) -> bool {
    &&& event.stop < ids.len()
    &&& event.trip < trips.len()
    &&& event.seq < trips[event.trip as int].stop_times@.len()
    &&& ids[event.stop as int] == trips[event.trip as int].stop_times@[event.seq as int].stop_id@
    &&& match event.kind {
        NodeKind::Dep => event.seq + 1 < trips[event.trip as int].stop_times@.len() && event.time
            == trips[event.trip as int].stop_times@[event.seq as int].departure_time,
        NodeKind::Arr => event.seq >= 1 && event.time
            == trips[event.trip as int].stop_times@[event.seq as int].arrival_time,
    }
}

/// Whether `edge`, leaving node `x`, is a ride: from a departure to the
/// arrival of the same trip at its next call, under the trip's identifier.
pub open spec fn is_ride_edge(trips: Seq<Trip>, events: Seq<Event>, x: int, edge: Edge) -> bool {
    &&& edge.target_node < events.len()
    &&& events[x].kind is Dep
    &&& events[edge.target_node as int].kind is Arr
    &&& events[edge.target_node as int].trip == events[x].trip
    &&& events[edge.target_node as int].seq == events[x].seq + 1
    &&& edge.trip_id matches Some(id) && id@ == trips[events[x].trip as int].trip_id@
    &&& edge.departs_at == events[x].time
    &&& edge.arrives_at == events[edge.target_node as int].time
}

/// Whether `edge`, leaving node `x`, is a wait: from a departure to the next
/// one in the chain of its stop.
pub open spec fn is_wait_edge(chains: Seq<Seq<usize>>, events: Seq<Event>, x: int, edge: Edge) -> bool {
    &&& events[x].kind is Dep
    &&& exists|k: int|
        chains[events[x].stop as int][k] == x && #[trigger] is_wait_link(
            events,
            chains[events[x].stop as int],
            k,
            edge,
        )
}

/// Whether `target` is the departure that a passenger reaches who is ready
/// to board at stop `s` at `ready`: the first one of the stop's chain at or
/// after that time.
pub open spec fn is_next_departure(
    chains: Seq<Seq<usize>>,
    events: Seq<Event>,
    s: int,
    ready: int,
    target: usize,
) -> bool {
    exists|k: int| #[trigger] is_earliest_at(chains[s], events, ready, k) && chains[s][k] == target
}

/// Whether `edge`, leaving node `x`, is an alight edge: from an arrival to
/// the first departure of the same stop that leaves the minimum transfer
/// time.
pub open spec fn is_alight_edge(
    chains: Seq<Seq<usize>>,
    events: Seq<Event>,
    config: BuildConfig,
    x: int,
    edge: Edge,
) -> bool {
    &&& events[x].kind is Arr
    &&& edge.trip_id is None
    &&& edge.target_node < events.len()
    &&& events[edge.target_node as int].stop == events[x].stop
    &&& edge.departs_at == events[x].time
    &&& edge.arrives_at == events[x].time + config.min_transfer_time
    &&& is_next_departure(
        chains,
        events,
        events[x].stop as int,
        events[x].time + config.min_transfer_time,
        edge.target_node,
    )
}

/// Whether `edge`, leaving node `x`, is a pedestrian edge: from an arrival
/// to the first departure of another stop within walking distance that
/// leaves the time to walk there.
pub open spec fn is_walk_edge(
    chains: Seq<Seq<usize>>,
    positions: Seq<Point>,
    events: Seq<Event>,
    config: BuildConfig,
    x: int,
    edge: Edge,
) -> bool {
    &&& events[x].kind is Arr
    &&& edge.trip_id is None
    &&& edge.target_node < events.len()
    &&& events[edge.target_node as int].stop != events[x].stop
    &&& events[edge.target_node as int].stop < positions.len()
    &&& config.walk_speed > 0
    &&& manhattan(positions[events[x].stop as int], positions[events[edge.target_node as int].stop as int])
        <= config.max_pedestrian_dist
    &&& edge.departs_at == events[x].time
    &&& edge.arrives_at == events[x].time + walk_time(
        config,
        manhattan(
            positions[events[x].stop as int],
            positions[events[edge.target_node as int].stop as int],
        ),
    )
    &&& is_next_departure(
        chains,
        events,
        events[edge.target_node as int].stop as int,
        events[x].time + walk_time(
            config,
            manhattan(
                positions[events[x].stop as int],
                positions[events[edge.target_node as int].stop as int],
            ),
        ),
        edge.target_node,
    )
}

/// Whether `edge`, leaving node `x`, belongs to one of the four families of
/// edges.
pub open spec fn edge_sound(
    trips: Seq<Trip>,
    chains: Seq<Seq<usize>>,
    positions: Seq<Point>,
    events: Seq<Event>,
    config: BuildConfig,
    x: int,
    edge: Edge,
) -> bool {
    ||| is_ride_edge(trips, events, x, edge)
    ||| is_wait_edge(chains, events, x, edge)
    ||| is_alight_edge(chains, events, config, x, edge)
    ||| is_walk_edge(chains, positions, events, config, x, edge)
}

/// Whether the chain of stop `s` holds departures of that stop only, each
/// once.
pub open spec fn chain_of_stop(chain: Seq<usize>, events: Seq<Event>, s: int) -> bool {
    &&& chain_in_bounds(chain, events)
    &&& chain.no_duplicates()
    &&& forall|k: int|
        0 <= k < chain.len() ==> events[(#[trigger] chain[k]) as int].kind is Dep
            && events[chain[k] as int].stop == s
}

/// Whether every departure is in the chain of its stop.
pub open spec fn departures_registered(chains: Seq<Seq<usize>>, events: Seq<Event>) -> bool {
    forall|x: int|
        0 <= x < events.len() && (#[trigger] events[x]).kind is Dep ==> chains[events[x].stop as int].contains(
            x as usize,
        )
}

/// Whether the departure at place `k` of `chain` has a wait edge to the
/// next one.
pub open spec fn has_wait_edge(nodes: Seq<Node>, chain: Seq<usize>, k: int) -> bool {
    exists|j: int|
        0 <= j < nodes[chain[k] as int].edges@.len() && #[trigger] is_wait_link(
            events(nodes),
            chain,
            k,
            nodes[chain[k] as int].edges@[j],
        )
}

/// Whether stops, trips and nodes hold nothing but what a time-expanded
/// graph of the schedule holds under `config`:
/// the calls of every trip form a schedule; every node is a call of its
/// trip at its stop; every stop is finalized, with its departures chained in
/// order of time; and every edge belongs to one of the four families.
pub open spec fn is_sound_graph(
    stops: Seq<Stop>,
    trips: Seq<Trip>,
    nodes: Seq<Node>,
    config: BuildConfig,
) -> bool {
    &&& forall|t: int| 0 <= t < trips.len() ==> is_schedule((#[trigger] trips[t]).stop_times@)
    &&& forall|x: int|
        0 <= x < nodes.len() ==> event_sound(stop_ids(stops), trips, #[trigger] events(nodes)[x])
    &&& forall|s: int|
        0 <= s < stops.len() ==> {
            &&& (#[trigger] stops[s]).is_finalized()
            &&& chain_sorted(stops[s].deps(), events(nodes))
            &&& chain_of_stop(stops[s].deps(), events(nodes), s)
        }
    &&& departures_registered(chains(stops), events(nodes))
    &&& forall|s: int, k: int|
        0 <= s < stops.len() && 0 <= k && k + 1 < stops[s].deps().len() ==> #[trigger] has_wait_edge(
            nodes,
            chains(stops)[s],
            k,
        )
    &&& forall|x: int, j: int|
        0 <= x < nodes.len() && 0 <= j < nodes[x].edges@.len() ==> edge_sound(
            trips,
            chains(stops),
            positions(stops),
            events(nodes),
            config,
            x,
            #[trigger] nodes[x].edges@[j],
        )
}

/// Whether `chain` has a departure at or after `ready`.
pub open spec fn departure_available(chain: Seq<usize>, events: Seq<Event>, ready: int) -> bool {
    exists|k: int| 0 <= k < chain.len() && events[(#[trigger] chain[k]) as int].time >= ready
}

/// Whether node `a` has an alight edge.
pub open spec fn has_alight_edge(
    nodes: Seq<Node>,
    chains: Seq<Seq<usize>>,
    config: BuildConfig,
    a: int,
) -> bool {
    exists|j: int|
        0 <= j < nodes[a].edges@.len() && is_alight_edge(
            chains,
            events(nodes),
            config,
            a,
            #[trigger] nodes[a].edges@[j],
        )
}

/// Whether node `a` has a pedestrian edge to stop `s`.
pub open spec fn has_walk_edge(
    nodes: Seq<Node>,
    chains: Seq<Seq<usize>>,
    positions: Seq<Point>,
    config: BuildConfig,
    a: int,
    s: int,
) -> bool {
    exists|j: int|
        0 <= j < nodes[a].edges@.len() && is_walk_edge(
            chains,
            positions,
            events(nodes),
            config,
            a,
            #[trigger] nodes[a].edges@[j],
        ) && events(nodes)[nodes[a].edges@[j].target_node as int].stop == s
}

/// Whether a passenger can walk from stop `from` to stop `to` and board
/// there after arriving at `time`: the stops are neighbours, walking is
/// possible, and `to` has a departure that leaves the time to walk.
pub open spec fn walk_possible(
    chains: Seq<Seq<usize>>,
    positions: Seq<Point>,
    events: Seq<Event>,
    config: BuildConfig,
    from: int,
    to: int,
    time: int,
) -> bool {
    &&& is_neighbour(positions, config.max_pedestrian_dist, from, to)
    &&& config.walk_speed > 0
    &&& departure_available(
        chains[to],
        events,
        time + walk_time(config, manhattan(positions[from], positions[to])),
    )
}

/// Whether arrival node `a` has every transfer that the schedule offers: an
/// alight edge if its stop has a departure after the minimum transfer time,
/// and a pedestrian edge to every neighbouring stop that has a departure
/// after the walk.
pub open spec fn arrival_connected(
    nodes: Seq<Node>,
    chains: Seq<Seq<usize>>,
    positions: Seq<Point>,
    config: BuildConfig,
    a: int,
) -> bool {
    &&& departure_available(
        chains[events(nodes)[a].stop as int],
        events(nodes),
        events(nodes)[a].time + config.min_transfer_time,
    ) ==> has_alight_edge(nodes, chains, config, a)
    &&& forall|s: int| #[trigger]
        walk_possible(
            chains,
            positions,
            events(nodes),
            config,
            events(nodes)[a].stop as int,
            s,
            events(nodes)[a].time as int,
        ) ==> has_walk_edge(nodes, chains, positions, config, a, s)
}

/// The number of rides of a trip: one from each call to the next.
pub open spec fn rides_of(trip: Trip) -> int {
    if trip.stop_times@.len() == 0 {
        0
    } else {
        trip.stop_times@.len() - 1
    }
}

/// The number of rides of the first `n` trips.
pub open spec fn rides_before(trips: Seq<Trip>, n: int) -> int
    decreases n,
{
    if n <= 0 {
        0
    } else {
        rides_before(trips, n - 1) + rides_of(trips[n - 1])
    }
}

/// The place in the arena of the departure of the ride of trip `t` from its
/// call `i`; the arrival of the ride follows it.
pub open spec fn departure_node(trips: Seq<Trip>, t: int, i: int) -> int {
    2 * (rides_before(trips, t) + i)
}

/// Whether the arena holds the ride of trip `t` from its call `i` in its
/// place: the departure from call `i`, then the arrival at the next call,
/// and as the first edge of the departure the ride to the arrival.
pub open spec fn ride_present(trips: Seq<Trip>, nodes: Seq<Node>, t: int, i: int) -> bool {
    let d = departure_node(trips, t, i);
    &&& 0 <= d && d + 1 < nodes.len()
    &&& nodes[d].event.trip == t
    &&& nodes[d].event.seq == i
    &&& nodes[d].event.kind is Dep
    &&& nodes[d + 1].event.trip == t
    &&& nodes[d + 1].event.seq == i + 1
    &&& nodes[d + 1].event.kind is Arr
    &&& nodes[d].edges@.len() >= 1
    &&& nodes[d].edges@[0].target_node == d + 1
    &&& nodes[d].edges@[0].trip_id is Some
}

/// Whether the arena holds the rides of all trips and no other nodes: for
/// each trip in table order, and each of its calls but the last in their
/// order, a departure and an arrival.
pub open spec fn rides_complete(trips: Seq<Trip>, nodes: Seq<Node>) -> bool {
    &&& nodes.len() == 2 * rides_before(trips, trips.len() as int)
    &&& forall|t: int, i: int|
        0 <= t < trips.len() && 0 <= i < rides_of(trips[t]) ==> #[trigger] ride_present(
            trips,
            nodes,
            t,
            i,
        )
}

/// Whether departure node `x` has its ride as its first edge and, unless it
/// is the last departure of its stop, the wait edge to the next departure as
/// its second, and no other edge.
pub open spec fn departure_edges_exact(chains: Seq<Seq<usize>>, nodes: Seq<Node>, x: int) -> bool {
    forall|k: int|
        0 <= k < chains[nodes[x].event.stop as int].len() && #[trigger] chains[nodes[x].event.stop as int][k]
            == x ==> if k + 1 < chains[nodes[x].event.stop as int].len() {
            nodes[x].edges@.len() == 2 && is_wait_link(
                events(nodes),
                chains[nodes[x].event.stop as int],
                k,
                nodes[x].edges@[1],
            )
        } else {
            nodes[x].edges@.len() == 1
        }
}

/// The order of the transfers of an arrival at stop `from`: first the one
/// at the stop itself, then those to the neighbouring stops in the order
/// of the neighbour list.
pub open spec fn transfer_before(
    positions: Seq<Point>,
    config: BuildConfig,
    from: int,
    first: int,
    second: int,
) -> bool {
    first != second && (first == from || (second != from && listed_before(
        positions,
        config.max_pedestrian_dist,
        from,
        first,
        second,
    )))
}

/// Whether the edges of arrival node `a` are in the order of
/// [`transfer_before`] of the stops that they lead to, so that no two of them
/// lead to the same stop.
pub open spec fn arrival_edges_ordered(
    positions: Seq<Point>,
    config: BuildConfig,
    nodes: Seq<Node>,
    a: int,
) -> bool {
    forall|i: int, j: int|
        0 <= i < j < nodes[a].edges@.len() ==> transfer_before(
            positions,
            config,
            nodes[a].event.stop as int,
            nodes[(#[trigger] nodes[a].edges@[i]).target_node as int].event.stop as int,
            nodes[(#[trigger] nodes[a].edges@[j]).target_node as int].event.stop as int,
        )
}

/// Whether node `x` has exactly the edges that belong to it, in their
/// order: a departure its ride and its wait edge, an arrival its transfers.
pub open spec fn edges_exact(
    chains: Seq<Seq<usize>>,
    positions: Seq<Point>,
    config: BuildConfig,
    nodes: Seq<Node>,
    x: int,
) -> bool {
    match nodes[x].event.kind {
        NodeKind::Dep => departure_edges_exact(chains, nodes, x),
        NodeKind::Arr => arrival_edges_ordered(positions, config, nodes, x),
    }
}

/// Whether stops, trips and nodes form a time-expanded graph of the
/// schedule under `config`: the graph is sound, it holds the rides of all
/// trips, every arrival has the transfers that the schedule offers, and no
/// node has an edge beyond those.
pub open spec fn is_time_expanded(
    stops: Seq<Stop>,
    trips: Seq<Trip>,
    nodes: Seq<Node>,
    config: BuildConfig,
) -> bool {
    &&& is_sound_graph(stops, trips, nodes, config)
    &&& rides_complete(trips, nodes)
    &&& forall|x: int|
        0 <= x < nodes.len() ==> #[trigger] edges_exact(
            chains(stops),
            positions(stops),
            config,
            nodes,
            x,
        )
    &&& forall|a: int|
        0 <= a < nodes.len() && (#[trigger] events(nodes)[a]).kind is Arr ==> arrival_connected(
            nodes,
            chains(stops),
            positions(stops),
            config,
            a,
        )
}

} // verus!
