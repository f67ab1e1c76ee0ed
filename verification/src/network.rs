use vstd::prelude::*;
use crate::calendar::Service;
use crate::error::GtfsError;
use crate::graph::{Node, Stop, events, is_earliest_at};
use crate::records::{Route, Trip, lemma_arrivals_ascend};
use crate::spatial::manhattan;
use crate::schedule::{
    BuildConfig, chain_of_stop, departure_available, edge_sound, event_sound, is_alight_edge,
    is_ride_edge, is_sound_graph, is_time_expanded, is_wait_edge, is_walk_edge,
    chains, positions, stop_ids, walk_time,
};
use crate::search::{
    earliest_arrival, edges_ascend, is_earliest_arrival, is_path, lemma_path_ascends, reachable,
};
use crate::table::{Table, keys_of};

verus! {

/// In a sound graph every edge leads to a node of the arena that is no
/// earlier than its source.
pub proof fn lemma_sound_edges_ascend(
    stops: Seq<Stop>,
    trips: Seq<Trip>,
    nodes: Seq<Node>,
    config: BuildConfig,
)
    requires
        is_sound_graph(stops, trips, nodes, config),
    ensures
        edges_ascend(nodes),
{
    let evs = events(nodes);
    assert forall|x: int, j: int| 0 <= x < nodes.len() && 0 <= j < nodes[x].edges@.len() implies (
    #[trigger] nodes[x].edges@[j]).target_node < nodes.len() && nodes[x].event.time
        <= nodes[nodes[x].edges@[j].target_node as int].event.time by {
        let e = nodes[x].edges@[j];
        assert(edge_sound(trips, chains(stops), positions(stops), evs, config, x, e));
        assert(event_sound(stop_ids(stops), trips, evs[x]));
        if is_ride_edge(trips, evs, x, e) {
            let y = e.target_node as int;
            assert(event_sound(stop_ids(stops), trips, evs[y]));
            let calls = trips[evs[x].trip as int].stop_times@;
            assert(calls[evs[x].seq as int].departure_time <= calls[evs[x].seq + 1].arrival_time);
        } else if is_wait_edge(chains(stops), evs, x, e) {
            let s = evs[x].stop as int;
            let chain = chains(stops)[s];
            assert(chain == stops[s].deps());
            assert(chain_of_stop(chain, evs, s));
            let k = choose|k: int| chain[k] == x && #[trigger] crate::graph::is_wait_link(evs, chain, k, e);
            assert(crate::graph::departs_before(evs, chain[k], chain[k + 1]));
        } else if is_alight_edge(chains(stops), evs, config, x, e) {
            let s = evs[x].stop as int;
            let ready = evs[x].time + config.min_transfer_time;
            let k = choose|k: int| #[trigger]
                is_earliest_at(chains(stops)[s], evs, ready, k) && chains(stops)[s][k] == e.target_node;
        } else {
            assert(is_walk_edge(chains(stops), positions(stops), evs, config, x, e));
            let s = evs[e.target_node as int].stop as int;
            let way = crate::spatial::manhattan(
                positions(stops)[evs[x].stop as int],
                positions(stops)[s],
            );
            let ready = evs[x].time + walk_time(config, way);
            let k = choose|k: int| #[trigger]
                is_earliest_at(chains(stops)[s], evs, ready, k) && chains(stops)[s][k] == e.target_node;
            assert(walk_time(config, way) >= 0) by {
                vstd::arithmetic::div_mod::lemma_div_pos_is_pos(
                    10 * way + config.walk_speed - 1,
                    config.walk_speed as int,
                );
            }
        }
    }
}

/// Whether `outcome` answers the query for the earliest arrival at stop
/// `dest` of a passenger who boards the first departure of `chain` at or
/// after `time`: the time from `time` to an earliest arrival at `dest`, or
/// `None` if no node of `dest` can be reached.
pub open spec fn is_answer(
    nodes: Seq<Node>,
    chain: Seq<usize>,
    dest: usize,
    time: u32,
    outcome: Option<u32>,
) -> bool {
    forall|k: int| #[trigger]
        is_earliest_at(chain, events(nodes), time as int, k) ==> match outcome {
            Some(seconds) => exists|x: int| #[trigger]
                is_earliest_arrival(nodes, chain[k] as int, dest, x) && seconds
                    == nodes[x].event.time - time,
            None => forall|y: int| #[trigger]
                reachable(nodes, chain[k] as int, y) ==> nodes[y].event.stop != dest,
        }
}

/// A schedule and the time-expanded graph built from it.
pub struct Network {
    stops: Table<Stop>,
    routes: Table<Route>,
    trips: Table<Trip>,
    services: Table<Service>,
    nodes: Vec<Node>,
    config: BuildConfig,
}

impl Network {
    /// The stops, in table order.
    pub closed spec fn stops(&self) -> Seq<Stop> {
        self.stops.rows@
    }

    /// The routes, in table order.
    pub closed spec fn routes(&self) -> Seq<Route> {
        self.routes.rows@
    }

    /// The trips, in table order.
    pub closed spec fn trips(&self) -> Seq<Trip> {
        self.trips.rows@
    }

    /// The services, in table order.
    pub closed spec fn services(&self) -> Seq<Service> {
        self.services.rows@
    }

    /// The node arena.
    pub closed spec fn nodes(&self) -> Seq<Node> {
        self.nodes@
    }

    /// The settings under which the graph was built.
    pub closed spec fn config(&self) -> BuildConfig {
        self.config
    }

    /// The place of the stop `id` in the stop table, if there is such a
    /// stop.
    pub closed spec fn stop_place(&self, id: Seq<char>) -> Option<usize> {
        self.stops.spec_position(id)
    }

    /// Whether the tables are indexed by their identifiers and the nodes
    /// form the time-expanded graph of the schedule.
    pub closed spec fn wf(&self) -> bool {
        &&& self.stops.wf()
        &&& self.routes.wf()
        &&& self.trips.wf()
        &&& self.services.wf()
        &&& is_time_expanded(self.stops.rows@, self.trips.rows@, self.nodes@, self.config)
    }

    /// What well-formedness means: the graph is the time-expanded graph of
    /// the schedule, and a stop is found under its identifier.
    pub proof fn lemma_wf(&self)
        requires
            self.wf(),
        ensures
            is_time_expanded(self.stops(), self.trips(), self.nodes(), self.config()),
            forall|id: Seq<char>|
                match #[trigger] self.stop_place(id) {
                    Some(place) => place < self.stops().len() && self.stops()[place as int].stop_id@
                        == id,
                    None => forall|s: int|
                        0 <= s < self.stops().len() ==> (#[trigger] self.stops()[s]).stop_id@ != id,
                },
    {
        assert forall|id: Seq<char>|
            match #[trigger] self.stop_place(id) {
                Some(place) => place < self.stops().len() && self.stops()[place as int].stop_id@ == id,
                None => forall|s: int|
                    0 <= s < self.stops().len() ==> (#[trigger] self.stops()[s]).stop_id@ != id,
            } by {
            let keys = keys_of(self.stops.rows@);
            match self.stop_place(id) {
                Some(place) => {
                    assert(keys[place as int] == self.stops.rows@[place as int].stop_id@);
                },
                None => {
                    assert forall|s: int| 0 <= s < self.stops().len() implies (
                    #[trigger] self.stops()[s]).stop_id@ != id by {
                        assert(keys[s] == self.stops.rows@[s].stop_id@);
                    }
                },
            }
        }
    }

    /// Whether `result` is the reply to a query from stop `origin` to stop
    /// `dest` at `time`: `NoDeparture` exactly if the origin has no
    /// departure at or after `time`; otherwise no time at all for a journey
    /// from a stop to itself, and else the answer for the passenger who
    /// boards the origin's first departure at or after `time`.
    pub open spec fn is_reply(
        &self,
        origin: usize,
        dest: usize,
        time: u32,
        result: Result<Option<u32>, GtfsError>,
    ) -> bool {
        if departure_available(
            self.stops()[origin as int].deps(),
            events(self.nodes()),
            time as int,
        ) {
            &&& result matches Ok(outcome)
            &&& if origin == dest {
                outcome == Some(0u32)
            } else {
                is_answer(self.nodes(), self.stops()[origin as int].deps(), dest, time, outcome)
            }
        } else {
            result == Err::<Option<u32>, GtfsError>(GtfsError::NoDeparture)
        }
    }

    /// Puts tables and graph together.
    pub fn new(
        stops: Table<Stop>,
        routes: Table<Route>,
        trips: Table<Trip>,
        services: Table<Service>,
        nodes: Vec<Node>,
        config: BuildConfig,
    ) -> (network: Network)
        requires
            stops.wf(),
            routes.wf(),
            trips.wf(),
            services.wf(),
            is_time_expanded(stops.rows@, trips.rows@, nodes@, config),
        ensures
            network.wf(),
            network.stops() == stops.rows@,
            network.routes() == routes.rows@,
            network.trips() == trips.rows@,
            network.services() == services.rows@,
            network.nodes() == nodes@,
            network.config() == config,
            forall|id: Seq<char>| network.stop_place(id) == stops.spec_position(id),
    {
        Network { stops, routes, trips, services, nodes, config }
    }

    /// The stop filed under `id`.
    pub fn get_stop(&self, id: &str) -> (stop: Option<&Stop>)
        requires
            self.wf(),
        ensures
            stop is Some <==> self.stop_place(id@) is Some,
            stop matches Some(s) ==> *s == self.stops()[self.stop_place(id@).unwrap() as int]
                && s.stop_id@ == id@,
    {
        self.stops.get(id)
    }

    /// The route filed under `id`.
    pub fn get_route(&self, id: &str) -> (route: Option<&Route>)
        requires
            self.wf(),
        ensures
            route matches Some(r) ==> r.route_id@ == id@ && exists|i: int|
                0 <= i < self.routes().len() && #[trigger] self.routes()[i] == *r,
            route is None ==> forall|i: int|
                0 <= i < self.routes().len() ==> (#[trigger] self.routes()[i]).route_id@ != id@,
    {
        let route = self.routes.get(id);
        proof {
            let keys = keys_of(self.routes.rows@);
            if route is None {
                assert forall|i: int| 0 <= i < self.routes().len() implies (
                #[trigger] self.routes()[i]).route_id@ != id@ by {
                    assert(keys[i] == self.routes.rows@[i].route_id@);
                }
            } else {
                assert(self.routes()[self.routes.index@[id@] as int] == *route.unwrap());
            }
        }
        route
    }

    /// The trip filed under `id`.
    pub fn get_trip(&self, id: &str) -> (trip: Option<&Trip>)
        requires
            self.wf(),
        ensures
            trip matches Some(t) ==> t.trip_id@ == id@ && exists|i: int|
                0 <= i < self.trips().len() && #[trigger] self.trips()[i] == *t,
            trip is None ==> forall|i: int|
                0 <= i < self.trips().len() ==> (#[trigger] self.trips()[i]).trip_id@ != id@,
    {
        let trip = self.trips.get(id);
        proof {
            let keys = keys_of(self.trips.rows@);
            if trip is None {
                assert forall|i: int| 0 <= i < self.trips().len() implies (
                #[trigger] self.trips()[i]).trip_id@ != id@ by {
                    assert(keys[i] == self.trips.rows@[i].trip_id@);
                }
            } else {
                assert(self.trips()[self.trips.index@[id@] as int] == *trip.unwrap());
            }
        }
        trip
    }

    /// The service filed under `id`.
    pub fn get_service(&self, id: &str) -> (service: Option<&Service>)
        requires
            self.wf(),
        ensures
            service matches Some(s) ==> s.service_id@ == id@ && exists|i: int|
                0 <= i < self.services().len() && #[trigger] self.services()[i] == *s,
            service is None ==> forall|i: int|
                0 <= i < self.services().len() ==> (#[trigger] self.services()[i]).service_id@ != id@,
    {
        let service = self.services.get(id);
        proof {
            let keys = keys_of(self.services.rows@);
            if service is None {
                assert forall|i: int| 0 <= i < self.services().len() implies (
                #[trigger] self.services()[i]).service_id@ != id@ by {
                    assert(keys[i] == self.services.rows@[i].service_id@);
                }
            } else {
                assert(self.services()[self.services.index@[id@] as int] == *service.unwrap());
            }
        }
        service
    }

    /// The nodes of the graph, for inspection.
    pub fn get_nodes(&self) -> (nodes: &Vec<Node>)
        ensures
            nodes@ == self.nodes(),
    {
        &self.nodes
    }

    /// The number of nodes of the graph.
    pub fn node_count(&self) -> (count: usize)
        ensures
            count == self.nodes().len(),
    {
        self.nodes.len()
    }

    /// The stops, in table order.
    pub fn get_stops(&self) -> (stops: &Vec<Stop>)
        ensures
            stops@ == self.stops(),
    {
        &self.stops.rows
    }

    /// The trips, in table order.
    pub fn get_trips(&self) -> (trips: &Vec<Trip>)
        ensures
            trips@ == self.trips(),
    {
        &self.trips.rows
    }

    /// The settings under which the graph was built.
    pub fn get_config(&self) -> (config: BuildConfig)
        ensures
            config == self.config(),
    {
        self.config
    }

    /// The travel time of the earliest connection from one stop to another
    /// for a passenger who is at the first stop at `time`.
    ///
    /// The passenger boards the first departure of the origin at or after
    /// `time` and from there follows the graph; the answer is the time from
    /// `time` to the earliest arrival at the destination, or `None` if the
    /// destination cannot be reached. A journey from a stop to itself takes
    /// no time.
    pub fn find_connection(&self, dep_stop_id: &str, target_stop_id: &str, time: u32) -> (result:
        Result<Option<u32>, GtfsError>)
        requires
            self.wf(),
        ensures
            result == Err::<Option<u32>, GtfsError>(GtfsError::UnknownStop) <==> (self.stop_place(
                dep_stop_id@,
            ) is None || self.stop_place(target_stop_id@) is None),
            self.stop_place(dep_stop_id@) is Some && self.stop_place(target_stop_id@) is Some
                ==> self.is_reply(
                self.stop_place(dep_stop_id@).unwrap(),
                self.stop_place(target_stop_id@).unwrap(),
                time,
                result,
            ),
    {
        let origin = match self.stops.position(dep_stop_id) {
            Some(place) => place,
            None => {
                return Err(GtfsError::UnknownStop);
            },
        };
        let dest = match self.stops.position(target_stop_id) {
            Some(place) => place,
            None => {
                return Err(GtfsError::UnknownStop);
            },
        };
        let ghost chain = self.stops.rows@[origin as int].deps();
        let ghost evs = events(self.nodes@);
        proof {
            assert(self.stops.rows@[origin as int].is_finalized());
            assert(chain_of_stop(chain, evs, origin as int));
            lemma_sound_edges_ascend(self.stops.rows@, self.trips.rows@, self.nodes@, self.config);
        }
        let seed = match self.stops.rows[origin].get_earliest_dep(time, &self.nodes) {
            Ok(Some(node)) => node,
            _ => {
                assert(!departure_available(chain, evs, time as int));
                return Err(GtfsError::NoDeparture);
            },
        };
        let ghost first = choose|k: int| #[trigger]
            is_earliest_at(chain, evs, time as int, k) && chain[k] == seed;
        assert(departure_available(chain, evs, time as int));
        if origin == dest {
            return Ok(Some(0));
        }
        let arrival = earliest_arrival(&self.nodes, seed, dest);
        let outcome = match arrival {
            Some(x) => {
                proof {
                    let path = choose|path: Seq<int>| #[trigger]
                        is_path(self.nodes@, path) && path[0] == seed as int && path.last() == x as int;
                    lemma_path_ascends(self.nodes@, path, 0, path.len() - 1);
                    assert(evs[seed as int] == self.nodes@[seed as int].event);
                }
                Some(self.nodes[x].get_time() - time)
            },
            None => None,
        };
        proof {
            assert forall|k: int| #[trigger] is_earliest_at(chain, evs, time as int, k) implies match outcome {
                Some(seconds) => exists|x: int| #[trigger]
                    is_earliest_arrival(self.nodes@, chain[k] as int, dest, x) && seconds
                        == self.nodes@[x].event.time - time,
                None => forall|y: int| #[trigger]
                    reachable(self.nodes@, chain[k] as int, y) ==> self.nodes@[y].event.stop != dest,
            } by {
                vstd::assert_by_contradiction!(k == first, {
                    if k < first {
                        assert(evs[chain[k] as int].time >= time);
                    } else {
                        assert(evs[chain[first] as int].time >= time);
                    }
                });
                match arrival {
                    Some(x) => {
                        assert(is_earliest_arrival(self.nodes@, chain[k] as int, dest, x as int));
                    },
                    None => {},
                }
            }
        }
        Ok(outcome)
    }

    /// Along every trip the sequence numbers of the calls strictly increase
    /// and the arrival times do not decrease.
    pub proof fn lemma_calls_in_order(&self, trip: int, i: int, j: int)
        requires
            self.wf(),
            0 <= trip < self.trips().len(),
            0 <= i < j < self.trips()[trip].stop_times@.len(),
        ensures
            self.trips()[trip].stop_times@[i].stop_sequence
                < self.trips()[trip].stop_times@[j].stop_sequence,
            self.trips()[trip].stop_times@[i].arrival_time
                <= self.trips()[trip].stop_times@[j].arrival_time,
    {
        lemma_arrivals_ascend(self.trips()[trip].stop_times@, i, j);
    }

    /// The departures of every stop are in ascending order of their times.
    pub proof fn lemma_departures_sorted(&self, stop: int, a: int, b: int)
        requires
            self.wf(),
            0 <= stop < self.stops().len(),
            0 <= a <= b < self.stops()[stop].deps().len(),
        ensures
            self.stops()[stop].is_finalized(),
            self.stops()[stop].deps()[a] < self.nodes().len(),
            self.stops()[stop].deps()[b] < self.nodes().len(),
            self.nodes()[self.stops()[stop].deps()[a] as int].event.time
                <= self.nodes()[self.stops()[stop].deps()[b] as int].event.time,
    {
        let chain = self.stops()[stop].deps();
        let evs = events(self.nodes());
        assert(chain_of_stop(chain, evs, stop));
        assert(evs[chain[a] as int] == self.nodes()[chain[a] as int].event);
        assert(evs[chain[b] as int] == self.nodes()[chain[b] as int].event);
        if a < b {
            assert(crate::graph::departs_before(evs, chain[a], chain[b]));
        }
    }

    /// Each departure of a stop is joined to the next one by a wait edge
    /// whose cost is the time between the two.
    pub proof fn lemma_departures_chained(&self, stop: int, k: int)
        requires
            self.wf(),
            0 <= stop < self.stops().len(),
            0 <= k,
            k + 1 < self.stops()[stop].deps().len(),
        ensures
            exists|j: int|
                0 <= j < self.nodes()[self.stops()[stop].deps()[k] as int].edges@.len() && {
                    let edge = #[trigger] self.nodes()[self.stops()[stop].deps()[k] as int].edges@[j];
                    &&& edge.target_node == self.stops()[stop].deps()[k + 1]
                    &&& edge.trip_id is None
                    &&& edge.spec_cost() == self.nodes()[self.stops()[stop].deps()[k
                        + 1] as int].event.time
                        - self.nodes()[self.stops()[stop].deps()[k] as int].event.time
                },
    {
        let chain = self.stops()[stop].deps();
        let evs = events(self.nodes());
        assert(chain_of_stop(chain, evs, stop));
        assert(chains(self.stops())[stop] == chain);
        assert(crate::schedule::has_wait_edge(self.nodes(), chains(self.stops())[stop], k));
        let j = choose|j: int|
            0 <= j < self.nodes()[chain[k] as int].edges@.len() && #[trigger] crate::graph::is_wait_link(
                evs,
                chain,
                k,
                self.nodes()[chain[k] as int].edges@[j],
            );
        let edge = self.nodes()[chain[k] as int].edges@[j];
        assert(evs[chain[k] as int] == self.nodes()[chain[k] as int].event);
        assert(evs[chain[k + 1] as int] == self.nodes()[chain[k + 1] as int].event);
        assert(edge.target_node == chain[k + 1] && edge.trip_id is None);
    }

    /// An edge from an arrival to a departure of the same stop leads to
    /// the earliest departure of that stop that leaves the minimum transfer
    /// time: it is no earlier than the arrival and that time, and no later
    /// than any departure of the stop of which the same holds.
    pub proof fn lemma_alight_is_earliest(&self, a: int, j: int, k: int)
        requires
            self.wf(),
            0 <= a < self.nodes().len(),
            self.nodes()[a].event.kind is Arr,
            0 <= j < self.nodes()[a].edges@.len(),
            self.nodes()[self.nodes()[a].edges@[j].target_node as int].event.stop
                == self.nodes()[a].event.stop,
            0 <= k < self.stops()[self.nodes()[a].event.stop as int].deps().len(),
            self.nodes()[self.stops()[self.nodes()[a].event.stop as int].deps()[k] as int].event.time
                >= self.nodes()[a].event.time + self.config().min_transfer_time,
        ensures
            self.nodes()[a].edges@[j].target_node < self.nodes().len(),
            self.nodes()[self.nodes()[a].edges@[j].target_node as int].event.kind is Dep,
            self.stops()[self.nodes()[a].event.stop as int].deps().contains(
                self.nodes()[a].edges@[j].target_node,
            ),
            self.nodes()[self.nodes()[a].edges@[j].target_node as int].event.time
                >= self.nodes()[a].event.time + self.config().min_transfer_time,
            self.nodes()[self.nodes()[a].edges@[j].target_node as int].event.time
                <= self.nodes()[self.stops()[self.nodes()[a].event.stop as int].deps()[k] as int].event.time,
            self.nodes()[a].edges@[j].spec_cost() == self.config().min_transfer_time,
    {
        let nodes = self.nodes();
        let evs = events(nodes);
        let e = nodes[a].edges@[j];
        let all_chains = chains(self.stops());
        assert(evs[a] == nodes[a].event);
        assert(edge_sound(self.trips(), all_chains, positions(self.stops()), evs, self.config(), a, e));
        assert(event_sound(stop_ids(self.stops()), self.trips(), evs[a]));
        let s = evs[a].stop as int;
        let chain = self.stops()[s].deps();
        assert(all_chains[s] == chain);
        assert(evs[e.target_node as int] == nodes[e.target_node as int].event);
        assert(is_alight_edge(all_chains, evs, self.config(), a, e));
        let ready = evs[a].time + self.config().min_transfer_time;
        let first = choose|first: int| #[trigger]
            is_earliest_at(chain, evs, ready, first) && chain[first] == e.target_node;
        assert(chain_of_stop(chain, evs, s));
        assert(evs[chain[k] as int] == nodes[chain[k] as int].event);
        if k < first {
            assert(evs[chain[k] as int].time < ready);
        } else if first < k {
            assert(crate::graph::departs_before(evs, chain[first], chain[k]));
        }
    }

    /// A ride joins two consecutive calls of one trip: it leads from the
    /// departure from a call to the arrival at the next call of the same
    /// trip, carries the identifier of that trip, and its ends lie at the
    /// stops that the two calls name.
    pub proof fn lemma_ride_joins_consecutive_calls(&self, x: int, j: int)
        requires
            self.wf(),
            0 <= x < self.nodes().len(),
            0 <= j < self.nodes()[x].edges@.len(),
            self.nodes()[x].edges@[j].trip_id is Some,
        ensures
            ({
                let edge = self.nodes()[x].edges@[j];
                let from = self.nodes()[x].event;
                let to = self.nodes()[edge.target_node as int].event;
                let trip = self.trips()[from.trip as int];
                &&& edge.target_node < self.nodes().len()
                &&& from.kind is Dep
                &&& to.kind is Arr
                &&& from.trip < self.trips().len()
                &&& to.trip == from.trip
                &&& edge.trip_id->0@ == trip.trip_id@
                &&& to.seq == from.seq + 1
                &&& to.seq < trip.stop_times@.len()
                &&& from.stop < self.stops().len()
                &&& to.stop < self.stops().len()
                &&& self.stops()[from.stop as int].stop_id@ == trip.stop_times@[from.seq as int].stop_id@
                &&& self.stops()[to.stop as int].stop_id@ == trip.stop_times@[to.seq as int].stop_id@
                &&& edge.departs_at == trip.stop_times@[from.seq as int].departure_time
                &&& edge.arrives_at == trip.stop_times@[to.seq as int].arrival_time
            }),
    {
        let nodes = self.nodes();
        let evs = events(nodes);
        let e = nodes[x].edges@[j];
        assert(evs[x] == nodes[x].event);
        assert(edge_sound(
            self.trips(),
            chains(self.stops()),
            positions(self.stops()),
            evs,
            self.config(),
            x,
            e,
        ));
        assert(is_ride_edge(self.trips(), evs, x, e)) by {
            if is_wait_edge(chains(self.stops()), evs, x, e) {
                let chain = chains(self.stops())[evs[x].stop as int];
                let k = choose|k: int|
                    chain[k] == x && #[trigger] crate::graph::is_wait_link(evs, chain, k, e);
            }
        }
        let y = e.target_node as int;
        assert(evs[y] == nodes[y].event);
        assert(event_sound(stop_ids(self.stops()), self.trips(), evs[x]));
        assert(event_sound(stop_ids(self.stops()), self.trips(), evs[y]));
        assert(stop_ids(self.stops())[evs[x].stop as int] == self.stops()[evs[x].stop as int].stop_id@);
        assert(stop_ids(self.stops())[evs[y].stop as int] == self.stops()[evs[y].stop as int].stop_id@);
    }

    /// An edge from an arrival to a departure of another stop is a walk
    /// between stops within walking distance, and it leaves the time to
    /// walk.
    pub proof fn lemma_walk_is_short(&self, a: int, j: int)
        requires
            self.wf(),
            0 <= a < self.nodes().len(),
            self.nodes()[a].event.kind is Arr,
            0 <= j < self.nodes()[a].edges@.len(),
            self.nodes()[self.nodes()[a].edges@[j].target_node as int].event.stop
                != self.nodes()[a].event.stop,
        ensures
            ({
                let edge = self.nodes()[a].edges@[j];
                let from = self.nodes()[a].event;
                let to = self.nodes()[edge.target_node as int].event;
                let way = manhattan(
                    self.stops()[from.stop as int].position,
                    self.stops()[to.stop as int].position,
                );
                &&& edge.target_node < self.nodes().len()
                &&& from.stop < self.stops().len()
                &&& to.stop < self.stops().len()
                &&& to.kind is Dep
                &&& way <= self.config().max_pedestrian_dist
                &&& edge.spec_cost() == walk_time(self.config(), way)
                &&& to.time >= from.time + walk_time(self.config(), way)
            }),
    {
        let nodes = self.nodes();
        let evs = events(nodes);
        let e = nodes[a].edges@[j];
        let all_chains = chains(self.stops());
        let places = positions(self.stops());
        assert(evs[a] == nodes[a].event);
        assert(edge_sound(self.trips(), all_chains, places, evs, self.config(), a, e));
        assert(event_sound(stop_ids(self.stops()), self.trips(), evs[a]));
        assert(evs[e.target_node as int] == nodes[e.target_node as int].event);
        assert(is_walk_edge(all_chains, places, evs, self.config(), a, e));
        let s = evs[e.target_node as int].stop as int;
        let chain = self.stops()[s].deps();
        assert(all_chains[s] == chain);
        assert(places[s] == self.stops()[s].position);
        assert(places[evs[a].stop as int] == self.stops()[evs[a].stop as int].position);
        let way = manhattan(places[evs[a].stop as int], places[s]);
        let ready = evs[a].time + walk_time(self.config(), way);
        let first = choose|first: int| #[trigger]
            is_earliest_at(chain, evs, ready, first) && chain[first] == e.target_node;
        assert(chain_of_stop(chain, evs, s));
    }
}

} // verus!
