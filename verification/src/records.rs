use vstd::prelude::*;
use crate::error::GtfsError;

verus! {

/// The largest time of day that a schedule may hold: two days, so that
/// trips running past midnight fit.
pub const MAX_TIME: u32 = 172800;

/// An operator of routes.
#[derive(Debug)]
pub struct Agency {
    pub agency_id: String,
    pub agency_name: String,
    pub agency_url: String,
    pub agency_timezone: String,
    pub agency_lang: String,
    pub agency_phone: String,
}

/// A named line.
#[derive(Debug)]
pub struct Route {
    pub route_id: String,
    pub agency_id: String,
    pub route_short_name: String,
    pub route_long_name: String,
    pub route_type: i32,
    pub route_url: Option<String>,
    pub route_color: Option<String>,
    pub route_text_color: Option<String>,
    pub is_night: bool,
}

impl Route {
    /// A day route of the given agency, names and type, with no identifier,
    /// address or colours yet.
    pub fn new(agency_id: String, short_name: String, long_name: String, route_type: i32) -> (route:
        Route)
        ensures
            route.route_id@ == Seq::<char>::empty(),
            route.agency_id == agency_id,
            route.route_short_name == short_name,
            route.route_long_name == long_name,
            route.route_type == route_type,
            route.route_url is None,
            route.route_color is None,
            route.route_text_color is None,
            !route.is_night,
    {
        Route {
            route_id: String::new(),
            agency_id,
            route_short_name: short_name,
            route_long_name: long_name,
            route_type,
            route_url: None,
            route_color: None,
            route_text_color: None,
            is_night: false,
        }
    }
}

/// One call of a trip at a stop.
#[derive(Debug)]
pub struct StopTime {
    pub trip_id: String,
    /// Time of the day in seconds.
    pub arrival_time: u32,
    /// Time of the day in seconds.
    pub departure_time: u32,
    pub stop_id: String,
    pub stop_sequence: u32,
    pub stop_headsign: Option<String>,
    pub pickup_type: u8,
    pub drop_off_type: u8,
    /// Distance along the shape, in thousandths of the feed's unit.
    pub shape_dist_travelled: Option<i64>,
}

/// One scheduled run along a route, with its calls in order.
#[derive(Debug)]
pub struct Trip {
    pub route_id: String,
    pub service_id: String,
    pub trip_id: String,
    pub trip_headsign: Option<String>,
    pub trip_short_name: Option<String>,
    pub direction_id: u8,
    pub block_id: Option<String>,
    pub shape_id: Option<String>,
    pub wheelchair_accessible: Option<u8>,
    pub bikes_allowed: Option<u8>,
    pub exceptional: Option<u8>,
    pub trip_operation_type: Option<u8>,
    pub stop_times: Vec<StopTime>,
}

impl Trip {
    /// A trip of the given route and service, with no identifier and no
    /// calls yet.
    pub fn new(route_id: String, service_id: String) -> (trip: Trip)
        ensures
            trip.route_id == route_id,
            trip.service_id == service_id,
            trip.trip_id@ == Seq::<char>::empty(),
            trip.trip_headsign is None,
            trip.trip_short_name is None,
            trip.direction_id == 0,
            trip.block_id is None,
            trip.shape_id is None,
            trip.wheelchair_accessible is None,
            trip.bikes_allowed is None,
            trip.exceptional is None,
            trip.trip_operation_type is None,
            trip.stop_times@ == Seq::<StopTime>::empty(),
    {
        Trip {
            route_id,
            service_id,
            trip_id: String::new(),
            trip_headsign: None,
            trip_short_name: None,
            direction_id: 0,
            block_id: None,
            shape_id: None,
            wheelchair_accessible: None,
            bikes_allowed: None,
            exceptional: None,
            trip_operation_type: None,
            stop_times: Vec::new(),
        }
    }
}

/// Whether the calls of a trip are in order of their sequence numbers,
/// without a number occurring twice.
pub open spec fn sequence_ascending(stop_times: Seq<StopTime>) -> bool {
    forall|i: int, j: int|
        0 <= i < j < stop_times.len() ==> (#[trigger] stop_times[i]).stop_sequence < (
        #[trigger] stop_times[j]).stop_sequence
}

/// Whether the times of a trip's calls are in order: each call arrives no
/// later than it departs, departs no later than the next call arrives, and
/// every time lies within two days.
pub open spec fn times_in_order(stop_times: Seq<StopTime>) -> bool {
    &&& forall|i: int|
        0 <= i < stop_times.len() ==> (#[trigger] stop_times[i]).arrival_time
            <= stop_times[i].departure_time < MAX_TIME
    &&& forall|i: int|
        0 <= i && i + 1 < stop_times.len() ==> (#[trigger] stop_times[i]).departure_time
            <= stop_times[i + 1].arrival_time
}

/// Whether the calls of a trip form a schedule.
pub open spec fn is_schedule(stop_times: Seq<StopTime>) -> bool {
    sequence_ascending(stop_times) && times_in_order(stop_times)
}

/// Along a trip whose calls form a schedule, no call arrives before an
/// earlier one does, and the sequence numbers strictly increase.
pub proof fn lemma_arrivals_ascend(stop_times: Seq<StopTime>, i: int, j: int)
    requires
        is_schedule(stop_times),
        0 <= i <= j < stop_times.len(),
    ensures
        stop_times[i].arrival_time <= stop_times[j].arrival_time,
        stop_times[i].departure_time <= stop_times[j].departure_time,
        i < j ==> stop_times[i].stop_sequence < stop_times[j].stop_sequence,
        i < j ==> stop_times[i].departure_time <= stop_times[j].arrival_time,
    decreases j - i,
{
    if i < j {
        lemma_arrivals_ascend(stop_times, i, j - 1);
        assert(stop_times[j - 1].departure_time <= stop_times[j].arrival_time);
    }
}

/// Reads a flag that a feed writes as 0 or 1.
pub fn bool_from_int(value: u8) -> (result: Result<bool, GtfsError>)
    ensures
        value == 0 ==> result == Ok::<bool, GtfsError>(false),
        value == 1 ==> result == Ok::<bool, GtfsError>(true),
        value > 1 ==> result == Err::<bool, GtfsError>(GtfsError::MalformedBool),
{
    match value {
        0 => Ok(false),
        1 => Ok(true),
        _ => Err(GtfsError::MalformedBool),
    }
}

} // verus!
