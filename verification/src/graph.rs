use vstd::prelude::*;
use vstd::seq_lib::*;
use crate::error::GtfsError;
use crate::spatial::Point;

verus! {

/// The role of a node of the time-expanded graph.
#[derive(Debug, Clone, Copy, PartialEq, Eq, Structural)]
pub enum NodeKind {
    /// A scheduled arrival of a trip at a stop.
    Arr,
    /// A scheduled departure of a trip from a stop.
    Dep,
}

/// A directed edge to `target_node`, travelled between two clock times.
#[derive(Debug)]
pub struct Edge {
    /// Clock time, in seconds of the day, at which the edge is entered.
    pub departs_at: u32,
    /// Clock time, in seconds of the day, at which the edge is left.
    pub arrives_at: u32,
    /// The trip that is ridden; `None` for waiting and walking.
    pub trip_id: Option<String>,
    /// Index of the node the edge leads to.
    pub target_node: usize,
}

impl Edge {
    pub fn new(departs_at: u32, arrives_at: u32, trip_id: Option<String>, target_node: usize) -> (edge: Edge)
        ensures
            edge.departs_at == departs_at,
            edge.arrives_at == arrives_at,
            edge.trip_id == trip_id,
            edge.target_node == target_node,
    {
        Edge { departs_at, arrives_at, trip_id, target_node }
    }

    /// The cost of the edge in seconds, as a mathematical integer.
    pub open spec fn spec_cost(&self) -> int {
        self.arrives_at - self.departs_at
    }

    /// Returns the cost of the edge in seconds.
    pub fn cost(&self) -> (seconds: u32)
        requires
            self.departs_at <= self.arrives_at,
        ensures
            seconds == self.spec_cost(),
    {
        self.arrives_at - self.departs_at
    }
}

impl Clone for Edge {
    fn clone(&self) -> (copy: Edge)
        ensures
            copy == *self,
    {
        Edge {
            departs_at: self.departs_at,
            arrives_at: self.arrives_at,
            trip_id: self.trip_id.clone(),
            target_node: self.target_node,
        }
    }
}

/// One timetabled event: a trip leaving from, or arriving at, a stop.
///
/// `stop` and `trip` are positions in the stop and trip tables; `seq` is the
/// position of the event's stop time within the trip.
#[derive(Debug, Clone, Copy, PartialEq, Eq, Structural)]
pub struct Event {
    pub stop: usize,
    pub trip: usize,
    pub seq: usize,
    pub kind: NodeKind,
    /// Clock time of the event, in seconds of the day.
    pub time: u32,
}

/// A node of the time-expanded graph: an event and the edges that leave it.
#[derive(Debug)]
pub struct Node {
    pub event: Event,
    pub edges: Vec<Edge>,
}

impl Node {
    pub fn new(stop: usize, trip: usize, seq: usize, node_kind: NodeKind, time: u32) -> (node: Node)
        ensures
            node.event == (Event { stop, trip, seq, kind: node_kind, time }),
            node.edges@ == Seq::<Edge>::empty(),
    {
        Node { event: Event { stop, trip, seq, kind: node_kind, time }, edges: Vec::new() }
    }

    pub fn add_edge(&mut self, edge: Edge)
        ensures
            final(self).event == old(self).event,
            final(self).edges@ == old(self).edges@.push(edge),
    {
        self.edges.push(edge);
    }

    pub fn get_time(&self) -> (time: u32)
        ensures
            time == self.event.time,
    {
        self.event.time
    }

    pub fn get_edges(&self) -> (edges: &Vec<Edge>)
        ensures
            *edges == self.edges,
    {
        &self.edges
    }
}

/// The events of a node arena, without the edges.
pub open spec fn events(nodes: Seq<Node>) -> Seq<Event> {
    Seq::new(nodes.len(), |i: int| nodes[i].event)
}

/// Whether every index of `chain` is a position in the arena.
pub open spec fn chain_in_bounds(chain: Seq<usize>, events: Seq<Event>) -> bool {
    forall|i: int| 0 <= i < chain.len() ==> (#[trigger] chain[i]) < events.len()
}

/// The order of a stop's departure chain: by clock time, and by node index
/// among departures at the same time. A node stands in this order with
/// itself.
pub open spec fn departs_before(events: Seq<Event>, a: usize, b: usize) -> bool {
    events[a as int].time < events[b as int].time || (events[a as int].time == events[b as int].time
        && a <= b)
}

/// Whether `chain` is in ascending order of [`departs_before`].
pub open spec fn chain_sorted(chain: Seq<usize>, events: Seq<Event>) -> bool {
    forall|i: int, j: int|
        0 <= i < j < chain.len() ==> departs_before(events, #[trigger] chain[i], #[trigger] chain[j])
}

/// The wait edge from the `k`-th departure of `chain` to the next one: it
/// carries no trip and spans the two departure times.
pub open spec fn wait_link(events: Seq<Event>, chain: Seq<usize>, k: int) -> Edge {
    Edge {
        departs_at: events[chain[k] as int].time,
        arrives_at: events[chain[k + 1] as int].time,
        trip_id: None,
        target_node: chain[k + 1],
    }
}

/// Whether `edge` is the wait edge from the `k`-th departure of `chain` to
/// the next one.
pub open spec fn is_wait_link(events: Seq<Event>, chain: Seq<usize>, k: int, edge: Edge) -> bool {
    &&& 0 <= k && k + 1 < chain.len()
    &&& edge.departs_at == events[chain[k] as int].time
    &&& edge.arrives_at == events[chain[k + 1] as int].time
    &&& edge.trip_id is None
    &&& edge.target_node == chain[k + 1]
}

/// The wait edges that leave node `x` among the first `links` wait edges of
/// `chain`, in the order of the chain: one for each place below `links` at
/// which `x` stands.
pub open spec fn links_at(events: Seq<Event>, chain: Seq<usize>, links: int, x: int) -> Seq<Edge>
    decreases links,
{
    if links <= 0 {
        Seq::empty()
    } else if chain[links - 1] == x {
        links_at(events, chain, links - 1, x).push(wait_link(events, chain, links - 1))
    } else {
        links_at(events, chain, links - 1, x)
    }
}

/// Whether `after` is `before` with the first `links` wait edges of `chain`
/// added and nothing else changed: every node keeps its event and has, after
/// the edges that it had, the wait edges that leave it.
pub open spec fn chain_installed(
    before: Seq<Node>,
    after: Seq<Node>,
    chain: Seq<usize>,
    links: int,
) -> bool {
    &&& after.len() == before.len()
    &&& events(after) == events(before)
    &&& forall|x: int|
        0 <= x < before.len() ==> (#[trigger] after[x]).edges@ == before[x].edges@ + links_at(
            events(before),
            chain,
            links,
            x,
        )
}

/// Whether node `x` is one of the first `links` departures of `chain`.
pub open spec fn is_link_source(chain: Seq<usize>, links: int, x: int) -> bool {
    exists|k: int| 0 <= k < links && #[trigger] chain[k] == x
}

/// Whether the `k`-th departure of `chain` has in `after` the edges that it
/// has in `before` and, after them, the wait edge to the next departure.
pub open spec fn link_installed(before: Seq<Node>, after: Seq<Node>, chain: Seq<usize>, k: int) -> bool {
    after[chain[k] as int].edges@ == before[chain[k] as int].edges@.push(
        wait_link(events(before), chain, k),
    )
}

/// In a chain that holds no node twice, a node has at most one wait edge: the
/// one from its own place, if that is among the first `links`.
pub proof fn lemma_links_at_once(events: Seq<Event>, chain: Seq<usize>, links: int, x: int)
    requires
        chain.no_duplicates(),
        links <= chain.len(),
    ensures
        forall|k: int|
            0 <= k < links && #[trigger] chain[k] == x ==> links_at(events, chain, links, x) == seq![
                wait_link(events, chain, k),
            ],
        !is_link_source(chain, links, x) ==> links_at(events, chain, links, x) == Seq::<Edge>::empty(),
    decreases links,
{
    if links > 0 {
        lemma_links_at_once(events, chain, links - 1, x);
        if chain[links - 1] == x {
            assert(!is_link_source(chain, links - 1, x)) by {
                if is_link_source(chain, links - 1, x) {
                    let k = choose|k: int| 0 <= k < links - 1 && #[trigger] chain[k] == x;
                    assert(chain[k] == chain[links - 1]);
                }
            }
            assert forall|k: int| 0 <= k < links && #[trigger] chain[k] == x implies links_at(
                events,
                chain,
                links,
                x,
            ) == seq![wait_link(events, chain, k)] by {
                assert(k == links - 1) by {
                    if k != links - 1 {
                        assert(chain[k] == chain[links - 1]);
                    }
                }
                assert(Seq::<Edge>::empty().push(wait_link(events, chain, k)) == seq![
                    wait_link(events, chain, k),
                ]);
            }
        } else {
            if !is_link_source(chain, links, x) {
                assert(!is_link_source(chain, links - 1, x)) by {
                    if is_link_source(chain, links - 1, x) {
                        let k = choose|k: int| 0 <= k < links - 1 && #[trigger] chain[k] == x;
                        assert(0 <= k < links && chain[k] == x);
                    }
                }
            }
        }
    }
}

/// Where a chain that holds no node twice is installed, each of its first
/// `links` departures has got the wait edge to the next one as its last
/// edge, and every other node has the edges that it had.
pub proof fn lemma_installed_once(before: Seq<Node>, after: Seq<Node>, chain: Seq<usize>, links: int)
    requires
        chain_installed(before, after, chain, links),
        chain_in_bounds(chain, events(before)),
        chain.no_duplicates(),
        links <= chain.len(),
    ensures
        forall|k: int| 0 <= k < links ==> #[trigger] link_installed(before, after, chain, k),
        forall|x: int|
            0 <= x < before.len() && !is_link_source(chain, links, x) ==> (#[trigger] after[x]).edges@
                == before[x].edges@,
{
    let evs = events(before);
    assert forall|k: int| 0 <= k < links implies #[trigger] link_installed(before, after, chain, k) by {
        let x = chain[k] as int;
        lemma_links_at_once(evs, chain, links, x);
        assert(after[x].edges@ == before[x].edges@ + links_at(evs, chain, links, x));
        assert(before[x].edges@ + seq![wait_link(evs, chain, k)] == before[x].edges@.push(
            wait_link(evs, chain, k),
        ));
    }
    assert forall|x: int| 0 <= x < before.len() && !is_link_source(chain, links, x) implies (
    #[trigger] after[x]).edges@ == before[x].edges@ by {
        lemma_links_at_once(evs, chain, links, x);
        assert(before[x].edges@ + Seq::<Edge>::empty() == before[x].edges@);
    }
}

/// Whether `k` is the first position of `chain` whose departure is at or
/// after `time`.
pub open spec fn is_earliest_at(chain: Seq<usize>, events: Seq<Event>, time: int, k: int) -> bool {
    &&& 0 <= k < chain.len()
    &&& events[chain[k] as int].time >= time
    &&& forall|j: int| 0 <= j < k ==> events[(#[trigger] chain[j]) as int].time < time
}

/// The departure nodes of one stop and the phase the stop is in: open while
/// departures are added, finalized once they are sorted and chained.
#[derive(Debug)]
pub struct DepartureList {
    nodes: Vec<usize>,
    finalized: bool,
}

impl DepartureList {
    /// An open list without departures.
    pub fn new() -> (list: DepartureList)
        ensures
            list.deps() == Seq::<usize>::empty(),
            !list.is_finalized(),
    {
        DepartureList { nodes: Vec::new(), finalized: false }
    }

    /// The registered departure nodes, in their current order.
    pub closed spec fn deps(&self) -> Seq<usize> {
        self.nodes@
    }

    /// Whether the list has been finalized.
    pub closed spec fn is_finalized(&self) -> bool {
        self.finalized
    }
}

/// A boarding point, together with the departure nodes that the graph
/// builder has registered for it.
///
/// A stop is open while departures are being added and finalized once its
/// departure list has been sorted and chained.
#[derive(Debug)]
pub struct Stop {
    pub stop_id: String,
    pub stop_name: String,
    /// Latitude in millionths of a degree.
    pub stop_lat: i32,
    /// Longitude in millionths of a degree.
    pub stop_lon: i32,
    /// Where the stop lies on the projected plane.
    pub position: Point,
    pub zone_id: String,
    pub stop_url: Option<String>,
    pub location_type: u8,
    pub parent_station: Option<String>,
    pub wheelchair_boarding: Option<i32>,
    pub level_id: Option<String>,
    pub platform_code: Option<String>,
    /// The departures registered so far, and the phase the stop is in.
    pub departures: DepartureList,
}

impl Stop {
    /// A new open stop without departures; the optional columns are empty.
    pub fn new(stop_id: String, stop_name: String, position: Point) -> (stop: Stop)
        ensures
            stop.stop_id == stop_id,
            stop.stop_name == stop_name,
            stop.position == position,
            stop.stop_lat == 0,
            stop.stop_lon == 0,
            stop.zone_id@ == Seq::<char>::empty(),
            stop.stop_url is None,
            stop.location_type == 0,
            stop.parent_station is None,
            stop.wheelchair_boarding is None,
            stop.level_id is None,
            stop.platform_code is None,
            stop.deps() == Seq::<usize>::empty(),
            !stop.is_finalized(),
    {
        Stop {
            stop_id,
            stop_name,
            stop_lat: 0,
            stop_lon: 0,
            position,
            zone_id: String::new(),
            stop_url: None,
            location_type: 0,
            parent_station: None,
            wheelchair_boarding: None,
            level_id: None,
            platform_code: None,
            departures: DepartureList::new(),
        }
    }

    /// The registered departure nodes, in their current order.
    pub open spec fn deps(&self) -> Seq<usize> {
        self.departures.deps()
    }

    /// Whether the stop has been finalized.
    pub open spec fn is_finalized(&self) -> bool {
        self.departures.is_finalized()
    }

    /// Whether two stops hold the same record, whatever their departures.
    pub open spec fn same_record(&self, other: &Stop) -> bool {
        &&& self.stop_id == other.stop_id
        &&& self.stop_name == other.stop_name
        &&& self.stop_lat == other.stop_lat
        &&& self.stop_lon == other.stop_lon
        &&& self.position == other.position
        &&& self.zone_id == other.zone_id
        &&& self.stop_url == other.stop_url
        &&& self.location_type == other.location_type
        &&& self.parent_station == other.parent_station
        &&& self.wheelchair_boarding == other.wheelchair_boarding
        &&& self.level_id == other.level_id
        &&& self.platform_code == other.platform_code
    }

    /// Whether the stop's departure list fits an arena: its indices are
    /// in bounds and, once finalized, in departure order.
    pub open spec fn fits(&self, events: Seq<Event>) -> bool {
        &&& chain_in_bounds(self.deps(), events)
        &&& self.is_finalized() ==> chain_sorted(self.deps(), events)
    }

    /// The phase in which every stop starts: open.
    pub fn default_state() -> (finalized: bool)
        ensures
            !finalized,
    {
        false
    }

    pub fn finalized(&self) -> (finalized: bool)
        ensures
            finalized == self.is_finalized(),
    {
        self.departures.finalized
    }

    pub fn get_dep_node(&self, index: usize) -> (node: usize)
        requires
            index < self.deps().len(),
        ensures
            node == self.deps()[index as int],
    {
        self.departures.nodes[index]
    }

    pub fn get_dep_nodes(&self) -> (nodes: &Vec<usize>)
        ensures
            nodes@ == self.deps(),
    {
        &self.departures.nodes
    }

    /// Registers a departure node while the stop is open; a finalized stop
    /// refuses it and stays as it is.
    pub fn add_dep_node(&mut self, dep_node: usize) -> (result: Result<(), GtfsError>)
        ensures
            final(self).same_record(old(self)),
            final(self).is_finalized() == old(self).is_finalized(),
            !old(self).is_finalized() ==> result is Ok && final(self).deps() == old(self).deps().push(
                dep_node,
            ),
            old(self).is_finalized() ==> result == Err::<(), GtfsError>(GtfsError::AlreadyFinalized)
                && final(self).deps() == old(self).deps(),
    {
        if !self.departures.finalized {
            self.departures.nodes.push(dep_node);
            Ok(())
        } else {
            Err(GtfsError::AlreadyFinalized)
        }
    }

    pub fn dep_node_count(&self) -> (count: usize)
        ensures
            count == self.deps().len(),
    {
        self.departures.nodes.len()
    }

    /// Sorts the departure list by clock time, links each departure to the
    /// next one by a wait edge, and closes the stop for further additions.
    /// A stop that is already finalized is left alone.
    pub fn finalize(&mut self, nodes: &mut Vec<Node>)
        requires
            old(self).fits(events(old(nodes)@)),
        ensures
            final(self).is_finalized(),
            final(self).same_record(old(self)),
            final(self).fits(events(final(nodes)@)),
            events(final(nodes)@) == events(old(nodes)@),
            final(self).deps().to_multiset() == old(self).deps().to_multiset(),
            final(self).deps().len() == old(self).deps().len(),
            old(self).is_finalized() ==> final(self).deps() == old(self).deps() && final(nodes)@
                == old(nodes)@,
            !old(self).is_finalized() ==> chain_installed(
                old(nodes)@,
                final(nodes)@,
                final(self).deps(),
                final(self).deps().len() - 1,
            ),
    {
        if self.departures.finalized {
            return ;
        }
        let chain = sorted_chain(&self.departures.nodes, nodes);
        install_chain(&chain, nodes);
        self.departures.nodes = chain;
        self.departures.finalized = true;
    }

    /// The first departure of a finalized stop at or after `time`, if there
    /// is one.
    pub fn get_earliest_dep(&self, time: u32, nodes: &Vec<Node>) -> (result: Result<
        Option<usize>,
        GtfsError,
    >)
        requires
            self.is_finalized() ==> self.fits(events(nodes@)),
        ensures
            !self.is_finalized() ==> result == Err::<Option<usize>, GtfsError>(
                GtfsError::NotFinalized,
            ),
            self.is_finalized() ==> result is Ok,
            result matches Ok(Some(dep)) ==> exists|k: int| #[trigger]
                is_earliest_at(self.deps(), events(nodes@), time as int, k) && self.deps()[k] == dep,
            result matches Ok(None) ==> forall|k: int|
                0 <= k < self.deps().len() ==> events(nodes@)[(#[trigger] self.deps()[k]) as int].time
                    < time,
    {
        if !self.departures.finalized {
            return Err(GtfsError::NotFinalized);
        }
        let count = self.departures.nodes.len();
        let mut low: usize = 0;
        let mut high: usize = count;
        while low < high
            invariant
                low <= high <= count,
                count == self.departures.nodes@.len(),
                chain_in_bounds(self.departures.nodes@, events(nodes@)),
                chain_sorted(self.departures.nodes@, events(nodes@)),
                forall|j: int|
                    0 <= j < low ==> events(nodes@)[(#[trigger] self.departures.nodes@[j]) as int].time
                        < time,
                forall|j: int|
                    high <= j < count ==> events(nodes@)[(
                    #[trigger] self.departures.nodes@[j]) as int].time >= time,
            decreases high - low,
        {
            let middle = low + (high - low) / 2;
            let addr = self.departures.nodes[middle];
            if nodes[addr].get_time() >= time {
                high = middle;
            } else {
                low = middle + 1;
            }
        }
        if low < count {
            assert(is_earliest_at(self.deps(), events(nodes@), time as int, low as int));
            Ok(Some(self.departures.nodes[low]))
        } else {
            Ok(None)
        }
    }
}

/// Whether node `a` comes before node `b` in chain order.
fn departs_no_later(nodes: &Vec<Node>, a: usize, b: usize) -> (result: bool)
    requires
        a < nodes.len(),
        b < nodes.len(),
    ensures
        result == departs_before(events(nodes@), a, b),
{
    let time_a = nodes[a].get_time();
    let time_b = nodes[b].get_time();
    time_a < time_b || (time_a == time_b && a <= b)
}

/// The indices of `deps` in departure order.
fn sorted_chain(deps: &Vec<usize>, nodes: &Vec<Node>) -> (chain: Vec<usize>)
    requires
        chain_in_bounds(deps@, events(nodes@)),
    ensures
        chain@.to_multiset() == deps@.to_multiset(),
        chain_sorted(chain@, events(nodes@)),
        chain_in_bounds(chain@, events(nodes@)),
        chain@.len() == deps@.len(),
{
    let mut chain: Vec<usize> = Vec::new();
    let mut taken: usize = 0;
    assert(chain@ == deps@.subrange(0, 0));
    while taken < deps.len()
        invariant
            taken <= deps.len(),
            chain_in_bounds(deps@, events(nodes@)),
            chain_in_bounds(chain@, events(nodes@)),
            chain_sorted(chain@, events(nodes@)),
            chain@.len() == taken,
            chain@.to_multiset() == deps@.subrange(0, taken as int).to_multiset(),
        decreases deps.len() - taken,
    {
        let dep = deps[taken];
        let mut place: usize = chain.len();
        while place > 0 && !departs_no_later(nodes, chain[place - 1], dep)
            invariant
                place <= chain.len(),
                dep < nodes.len(),
                chain_in_bounds(chain@, events(nodes@)),
                forall|j: int| place <= j < chain.len() ==> !departs_before(events(nodes@), #[trigger] chain@[j], dep),
            decreases place,
        {
            place -= 1;
        }
        proof {
            to_multiset_insert(chain@, place as int, dep);
            assert(deps@.subrange(0, taken + 1) == deps@.subrange(0, taken as int).push(dep));
            to_multiset_build(deps@.subrange(0, taken as int), dep);
        }
        let ghost earlier = chain@;
        chain.insert(place, dep);
        assert(chain_sorted(chain@, events(nodes@))) by {
            assert forall|i: int, j: int| 0 <= i < j < chain@.len() implies departs_before(
                events(nodes@),
                #[trigger] chain@[i],
                #[trigger] chain@[j],
            ) by {
                if j < place {
                    assert(chain@[i] == earlier[i] && chain@[j] == earlier[j]);
                } else if j == place {
                    assert(chain@[i] == earlier[i]);
                    if place > 0 {
                        assert(departs_before(events(nodes@), earlier[place - 1], dep));
                        if i < place - 1 {
                            assert(departs_before(events(nodes@), earlier[i], earlier[place - 1]));
                        }
                    }
                } else if i < place {
                    assert(chain@[i] == earlier[i] && chain@[j] == earlier[j - 1]);
                } else if i == place {
                    assert(chain@[j] == earlier[j - 1]);
                    assert(!departs_before(events(nodes@), earlier[j - 1], dep));
                } else {
                    assert(chain@[i] == earlier[i - 1] && chain@[j] == earlier[j - 1]);
                }
            }
        }
        assert(chain_in_bounds(chain@, events(nodes@))) by {
            assert forall|i: int| 0 <= i < chain@.len() implies (#[trigger] chain@[i]) < nodes@.len() by {
                if i < place {
                    assert(chain@[i] == earlier[i]);
                } else if i > place {
                    assert(chain@[i] == earlier[i - 1]);
                }
            }
        }
        taken += 1;
    }
    assert(deps@.subrange(0, taken as int) == deps@);
    chain
}

/// Adds the wait edge from each departure of `chain` to the next one.
fn install_chain(chain: &Vec<usize>, nodes: &mut Vec<Node>)
    requires
        chain_in_bounds(chain@, events(old(nodes)@)),
    ensures
        chain_installed(old(nodes)@, final(nodes)@, chain@, chain@.len() - 1),
{
    let count = chain.len();
    let ghost before = nodes@;
    let mut link: usize = 0;
    assert(chain_installed(before, nodes@, chain@, 0)) by {
        assert forall|x: int| 0 <= x < before.len() implies (#[trigger] nodes@[x]).edges@
            == before[x].edges@ + links_at(events(before), chain@, 0, x) by {
            assert(before[x].edges@ + Seq::<Edge>::empty() == before[x].edges@);
        }
    }
    if count < 2 {
        assert(links_at(events(before), chain@, chain@.len() - 1, 0) == links_at(
            events(before),
            chain@,
            0,
            0,
        ));
        assert forall|x: int| 0 <= x < before.len() implies links_at(
            events(before),
            chain@,
            chain@.len() - 1,
            x,
        ) == links_at(events(before), chain@, 0, x) by {}
        return ;
    }
    while link + 1 < count
        invariant
            count == chain@.len(),
            count >= 2,
            link + 1 <= count,
            chain_in_bounds(chain@, events(before)),
            chain_installed(before, nodes@, chain@, link as int),
        decreases count - link,
    {
        let source = chain[link];
        let target = chain[link + 1];
        let departs_at = nodes[source].get_time();
        let arrives_at = nodes[target].get_time();
        let ghost earlier = nodes@;
        assert(events(earlier)[source as int] == earlier[source as int].event);
        assert(events(earlier)[target as int] == earlier[target as int].event);
        let edge = Edge::new(departs_at, arrives_at, None, target);
        assert(edge == wait_link(events(before), chain@, link as int));
        nodes[source].add_edge(edge);
        proof {
            let now = nodes@;
            let evs = events(before);
            assert(events(now) == evs) by {
                assert forall|x: int| 0 <= x < now.len() implies now[x].event == before[x].event by {
                    assert(events(earlier)[x] == evs[x]);
                }
            }
            assert forall|x: int| 0 <= x < before.len() implies (#[trigger] now[x]).edges@
                == before[x].edges@ + links_at(evs, chain@, link + 1, x) by {
                assert(earlier[x].edges@ == before[x].edges@ + links_at(evs, chain@, link as int, x));
                if x == source {
                    assert(links_at(evs, chain@, link + 1, x) == links_at(
                        evs,
                        chain@,
                        link as int,
                        x,
                    ).push(edge));
                    assert(now[x].edges@ == earlier[x].edges@.push(edge));
                    assert((before[x].edges@ + links_at(evs, chain@, link as int, x)).push(edge)
                        == before[x].edges@ + links_at(evs, chain@, link as int, x).push(edge));
                } else {
                    assert(now[x] == earlier[x]);
                }
            }
        }
        link += 1;
    }
}

} // verus!
