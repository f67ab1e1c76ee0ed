use prahadlo::calendar::{Date, Service, ServiceException};
use prahadlo::error::GtfsError;
use prahadlo::graph::Stop;
use prahadlo::loader::load_transport_network;
use prahadlo::network::Network;
use prahadlo::records::{Route, StopTime, Trip};
use prahadlo::schedule::BuildConfig;
use prahadlo::spatial::Point;

fn stop(id: &str, x: i32, y: i32) -> Stop {
    Stop::new(id.to_string(), id.to_string(), Point { x, y })
}

fn route() -> Route {
    let mut route = Route::new("99".to_string(), "A".to_string(), "Line A".to_string(), 1);
    route.route_id = "R".to_string();
    route
}

fn service() -> Service {
    Service {
        service_id: "S".to_string(),
        monday: true,
        tuesday: true,
        wednesday: true,
        thursday: true,
        friday: true,
        saturday: false,
        sunday: false,
        start_date: Date::from_ymd(2020, 1, 1).unwrap(),
        end_date: Date::from_ymd(2020, 12, 31).unwrap(),
        exceptions: Vec::new(),
    }
}

fn trip(id: &str) -> Trip {
    let mut trip = Trip::new("R".to_string(), "S".to_string());
    trip.trip_id = id.to_string();
    trip
}

fn call(trip: &str, sequence: u32, stop: &str, arrival: u32, departure: u32) -> StopTime {
    StopTime {
        trip_id: trip.to_string(),
        arrival_time: arrival,
        departure_time: departure,
        stop_id: stop.to_string(),
        stop_sequence: sequence,
        stop_headsign: None,
        pickup_type: 0,
        drop_off_type: 0,
        shape_dist_travelled: None,
    }
}

fn hms(h: u32, m: u32, s: u32) -> u32 {
    3600 * h + 60 * m + s
}

fn network(stops: Vec<Stop>, trips: Vec<Trip>, calls: Vec<StopTime>, config: BuildConfig) -> Network {
    let exceptions: Vec<ServiceException> = Vec::new();
    load_transport_network(stops, vec![route()], trips, vec![service()], exceptions, calls, config)
        .unwrap()
}

fn single_trip() -> Network {
    network(
        vec![stop("A", 0, 0), stop("B", 10_000, 0), stop("C", 20_000, 0)],
        vec![trip("T1")],
        vec![
            call("T1", 1, "A", hms(8, 0, 0), hms(8, 0, 0)),
            call("T1", 2, "B", hms(8, 5, 0), hms(8, 6, 0)),
            call("T1", 3, "C", hms(8, 15, 0), hms(8, 15, 0)),
        ],
        BuildConfig::default(),
    )
}

#[test]
fn single_trip_direct() {
    let net = single_trip();
    assert_eq!(net.find_connection("A", "C", hms(7, 30, 0)), Ok(Some(2700)));
}

#[test]
fn boarding_too_late_finds_no_departure() {
    let net = single_trip();
    assert_eq!(net.find_connection("A", "C", hms(8, 0, 1)), Err(GtfsError::NoDeparture));
}

#[test]
fn query_at_departure_time_takes_that_departure() {
    let net = single_trip();
    assert_eq!(net.find_connection("A", "C", hms(8, 0, 0)), Ok(Some(900)));
    assert_eq!(net.find_connection("A", "B", hms(8, 0, 0)), Ok(Some(300)));
}

#[test]
fn journey_to_the_same_stop_takes_no_time() {
    let net = single_trip();
    assert_eq!(net.find_connection("A", "A", hms(7, 0, 0)), Ok(Some(0)));
    assert_eq!(net.find_connection("A", "A", hms(9, 0, 0)), Err(GtfsError::NoDeparture));
}

#[test]
fn unknown_stops_are_reported() {
    let net = single_trip();
    assert_eq!(net.find_connection("X", "C", 0), Err(GtfsError::UnknownStop));
    assert_eq!(net.find_connection("A", "X", 0), Err(GtfsError::UnknownStop));
}

#[test]
fn later_trip_is_taken_when_the_first_is_missed() {
    let net = network(
        vec![stop("A", 0, 0), stop("B", 10_000, 0)],
        vec![trip("T1"), trip("T2")],
        vec![
            call("T1", 1, "A", hms(9, 0, 0), hms(9, 0, 0)),
            call("T1", 2, "B", hms(9, 10, 0), hms(9, 10, 0)),
            call("T2", 1, "A", hms(9, 20, 0), hms(9, 20, 0)),
            call("T2", 2, "B", hms(9, 25, 0), hms(9, 25, 0)),
        ],
        BuildConfig::default(),
    );
    assert_eq!(net.find_connection("A", "B", hms(9, 5, 0)), Ok(Some(1200)));
    assert_eq!(net.find_connection("A", "B", hms(8, 55, 0)), Ok(Some(900)));
}

#[test]
fn transfer_between_trips_at_one_stop() {
    let net = network(
        vec![stop("A", 0, 0), stop("B", 10_000, 0), stop("C", 20_000, 0)],
        vec![trip("T1"), trip("T2")],
        vec![
            call("T1", 1, "A", hms(10, 0, 0), hms(10, 0, 0)),
            call("T1", 2, "B", hms(10, 10, 0), hms(10, 10, 0)),
            call("T2", 1, "B", hms(10, 12, 0), hms(10, 12, 0)),
            call("T2", 2, "C", hms(10, 20, 0), hms(10, 20, 0)),
        ],
        BuildConfig::default(),
    );
    assert_eq!(net.find_connection("A", "C", hms(9, 55, 0)), Ok(Some(1500)));
}

#[test]
fn transfer_needs_the_minimum_transfer_time() {
    let stops = || vec![stop("A", 0, 0), stop("B", 10_000, 0), stop("C", 20_000, 0)];
    let calls = || {
        vec![
            call("T1", 1, "A", hms(10, 0, 0), hms(10, 0, 0)),
            call("T1", 2, "B", hms(10, 10, 0), hms(10, 10, 0)),
            call("T2", 1, "B", hms(10, 10, 30), hms(10, 10, 30)),
            call("T2", 2, "C", hms(10, 20, 0), hms(10, 20, 0)),
        ]
    };
    let strict = network(stops(), vec![trip("T1"), trip("T2")], calls(), BuildConfig::default());
    assert_eq!(strict.find_connection("A", "C", hms(9, 55, 0)), Ok(None));
    let mut config = BuildConfig::default();
    config.min_transfer_time = 0;
    let lenient = network(stops(), vec![trip("T1"), trip("T2")], calls(), config);
    assert_eq!(lenient.find_connection("A", "C", hms(9, 55, 0)), Ok(Some(1500)));
}

fn walking_feed(second_departure: u32) -> Network {
    network(
        vec![stop("A", 0, 0), stop("B", 10_000, 0), stop("B2", 10_060, 40), stop("Z", 30_000, 0)],
        vec![trip("T1"), trip("T2")],
        vec![
            call("T1", 1, "A", hms(10, 50, 0), hms(10, 50, 0)),
            call("T1", 2, "B", hms(11, 0, 0), hms(11, 0, 0)),
            call("T2", 1, "B2", second_departure, second_departure),
            call("T2", 2, "Z", hms(11, 10, 0), hms(11, 10, 0)),
        ],
        BuildConfig::default(),
    )
}

#[test]
fn pedestrian_transfer_between_nearby_stops() {
    let net = walking_feed(hms(11, 3, 0));
    assert_eq!(net.find_connection("A", "Z", hms(10, 45, 0)), Ok(Some(1500)));
}

#[test]
fn pedestrian_transfer_takes_eighty_eight_seconds_for_a_hundred_metres() {
    let just_in_time = walking_feed(hms(11, 1, 28));
    assert_eq!(just_in_time.find_connection("A", "Z", hms(10, 45, 0)), Ok(Some(1500)));
    let too_early = walking_feed(hms(11, 1, 27));
    assert_eq!(too_early.find_connection("A", "Z", hms(10, 45, 0)), Ok(None));
}

#[test]
fn disjoint_trips_are_unreachable() {
    let net = network(
        vec![stop("A", 0, 0), stop("B", 10_000, 0), stop("C", 20_000, 0), stop("D", 30_000, 0)],
        vec![trip("T1"), trip("T2")],
        vec![
            call("T1", 1, "A", hms(8, 0, 0), hms(8, 0, 0)),
            call("T1", 2, "B", hms(8, 10, 0), hms(8, 10, 0)),
            call("T2", 1, "C", hms(8, 20, 0), hms(8, 20, 0)),
            call("T2", 2, "D", hms(8, 30, 0), hms(8, 30, 0)),
        ],
        BuildConfig::default(),
    );
    assert_eq!(net.find_connection("A", "D", hms(7, 0, 0)), Ok(None));
}
