use prahadlo::builder::build_graph;
use prahadlo::calendar::{Date, Service, ServiceException, EXCEPTION_ADDED, EXCEPTION_REMOVED};
use prahadlo::error::GtfsError;
use prahadlo::graph::{NodeKind, Stop};
use prahadlo::loader::{
    load_routes, load_service_exceptions, load_services, load_stop_times, load_stops, load_tables,
    load_transport_network, load_trips,
};
use prahadlo::records::{bool_from_int, Agency, Route, StopTime, Trip};
use prahadlo::schedule::{
    BuildConfig, BASE_PEDESTRIAN_TRANSFER_TIME, MAX_PEDESTRIAN_DIST, MINIMAL_TRANSFER_TIME,
    PEDESTRIAN_SPEED,
};
use prahadlo::spatial::Point;
use prahadlo::table::{build_table, reversed};

fn budejovicka() -> Stop {
    let mut stop = Stop::new("U50S1".to_string(), "Budějovická".to_string(), Point { x: 460_495, y: 5_543_766 });
    stop.stop_lat = (50.04441_f64 * 1_000_000.0).round() as i32;
    stop.stop_lon = (14.44879_f64 * 1_000_000.0).round() as i32;
    stop.zone_id = "P".to_string();
    stop.location_type = 1;
    stop.wheelchair_boarding = Some(1);
    stop
}

fn line_a(is_night: u8) -> Route {
    let mut route = Route::new(
        "99".to_string(),
        "A".to_string(),
        "Nemocnice Motol - Petřiny - Skalka - Depo Hostivař".to_string(),
        1,
    );
    route.route_id = "L991".to_string();
    route.route_url = Some(String::from("https://pid.cz/linka/A"));
    route.route_color = Some(String::from("00A562"));
    route.route_text_color = Some(String::from("FFFFFF"));
    route.is_night = bool_from_int(is_night).unwrap();
    route
}

fn motol_trip() -> Trip {
    let mut trip = Trip::new("L991".to_string(), "0000010-1".to_string());
    trip.trip_id = "991_1411_191224".to_string();
    trip.trip_headsign = Some(String::from("Nemocnice Motol"));
    trip.direction_id = 0;
    trip.shape_id = Some(String::from("L991V1"));
    trip.wheelchair_accessible = Some(1);
    trip.bikes_allowed = Some(1);
    trip.exceptional = Some(0);
    trip.trip_operation_type = Some(1);
    trip
}

fn saturday_service() -> Service {
    Service {
        service_id: "0000010-1".to_string(),
        monday: bool_from_int(0).unwrap(),
        tuesday: bool_from_int(0).unwrap(),
        wednesday: bool_from_int(0).unwrap(),
        thursday: bool_from_int(0).unwrap(),
        friday: bool_from_int(0).unwrap(),
        saturday: bool_from_int(1).unwrap(),
        sunday: bool_from_int(0).unwrap(),
        start_date: Date::from_ymd(2020, 1, 25).unwrap(),
        end_date: Date::from_ymd(2020, 2, 7).unwrap(),
        exceptions: Vec::new(),
    }
}

fn check_stop_loading() {
    let stops = load_stops(vec![budejovicka()]);
    assert_eq!(1, stops.len());
    let stop = stops.get("U50S1").unwrap();
    assert_eq!(stop.stop_id, "U50S1");
    assert_eq!(stop.stop_name, "Budějovická");
    assert_eq!(stop.stop_lat, 50_044_410);
    assert_eq!(stop.stop_lon, 14_448_790);
    assert_eq!(stop.zone_id, "P");
    assert_eq!(stop.stop_url, None);
    assert_eq!(stop.location_type, 1);
    assert_eq!(stop.parent_station, None);
    assert_eq!(stop.wheelchair_boarding, Some(1));
    assert_eq!(stop.level_id, None);
    assert_eq!(stop.platform_code, None);
}

fn check_route_loading() {
    let routes = load_routes(vec![line_a(0)]);
    assert_eq!(1, routes.len());
    let route = routes.get("L991").unwrap();
    assert_eq!(route.route_id, "L991");
    assert_eq!(route.agency_id, "99");
    assert_eq!(route.route_short_name, "A");
    assert_eq!(route.route_long_name, "Nemocnice Motol - Petřiny - Skalka - Depo Hostivař");
    assert_eq!(route.route_type, 1);
    assert_eq!(route.route_url, Some(String::from("https://pid.cz/linka/A")));
    assert_eq!(route.route_color, Some(String::from("00A562")));
    assert_eq!(route.route_text_color, Some(String::from("FFFFFF")));
    assert_eq!(route.is_night, false);
}

fn check_trip_loading() {
    let trips = load_trips(vec![motol_trip()]);
    assert_eq!(trips.len(), 1);
    let trip = trips.get("991_1411_191224").unwrap();
    assert_eq!(trip.route_id, "L991");
    assert_eq!(trip.service_id, "0000010-1");
    assert_eq!(trip.trip_id, "991_1411_191224");
    assert_eq!(trip.trip_headsign, Some(String::from("Nemocnice Motol")));
    assert_eq!(trip.trip_short_name, None);
    assert_eq!(trip.direction_id, 0);
    assert_eq!(trip.block_id, None);
    assert_eq!(trip.shape_id, Some(String::from("L991V1")));
    assert_eq!(trip.wheelchair_accessible, Some(1));
    assert_eq!(trip.bikes_allowed, Some(1));
    assert_eq!(trip.exceptional, Some(0));
    assert_eq!(trip.trip_operation_type, Some(1));
}

fn check_service_loading() {
    let services = load_services(vec![saturday_service()]);
    assert_eq!(services.len(), 1);
    let service = services.get("0000010-1").unwrap();
    assert_eq!(service.monday, false);
    assert_eq!(service.tuesday, false);
    assert_eq!(service.wednesday, false);
    assert_eq!(service.thursday, false);
    assert_eq!(service.friday, false);
    assert_eq!(service.saturday, true);
    assert_eq!(service.sunday, false);
    assert_eq!(service.start_date, Date::from_ymd(2020, 1, 25).unwrap());
    assert_eq!(service.end_date, Date::from_ymd(2020, 2, 7).unwrap())
}

#[test]
fn gtfs_loader_test_stop_loading() {
    check_stop_loading();
}

#[test]
fn gtfs_loader_test_route_loading() {
    check_route_loading();
}

#[test]
fn gtfs_loader_test_trip_loading() {
    check_trip_loading();
}

#[test]
fn gtfs_loader_test_service_loading() {
    check_service_loading();
}

#[test]
fn loader_test_stop_loading() {
    check_stop_loading();
}

#[test]
fn loader_test_route_loading() {
    check_route_loading();
}

#[test]
fn loader_test_trip_loading() {
    check_trip_loading();
}

#[test]
fn loader_test_service_loading() {
    check_service_loading();
}

fn stop(id: &str, x: i32, y: i32) -> Stop {
    Stop::new(id.to_string(), id.to_string(), Point { x, y })
}

fn route(id: &str) -> Route {
    let mut route = Route::new("99".to_string(), id.to_string(), id.to_string(), 3);
    route.route_id = id.to_string();
    route
}

fn service(id: &str) -> Service {
    let mut service = saturday_service();
    service.service_id = id.to_string();
    service
}

fn trip(id: &str) -> Trip {
    let mut trip = Trip::new("R".to_string(), "S".to_string());
    trip.trip_id = id.to_string();
    trip
}

fn call(trip: &str, sequence: u32, stop: &str, arrival: u32, departure: u32) -> StopTime {
    StopTime {
        trip_id: trip.to_string(),
        arrival_time: arrival,
        departure_time: departure,
        stop_id: stop.to_string(),
        stop_sequence: sequence,
        stop_headsign: None,
        pickup_type: 0,
        drop_off_type: 0,
        shape_dist_travelled: None,
    }
}

fn exception(service: &str, day: u32, exception_type: u8) -> ServiceException {
    ServiceException {
        service_id: service.to_string(),
        date: Date::from_ymd(2020, 2, day).unwrap(),
        exception_type,
    }
}

fn three_stops() -> Vec<Stop> {
    vec![stop("A", 0, 0), stop("B", 10_000, 0), stop("C", 20_000, 0)]
}

fn load(
    trips: Vec<Trip>,
    exceptions: Vec<ServiceException>,
    calls: Vec<StopTime>,
) -> Result<prahadlo::network::Network, GtfsError> {
    load_transport_network(
        three_stops(),
        vec![route("R")],
        trips,
        vec![service("S")],
        exceptions,
        calls,
        BuildConfig::default(),
    )
}

fn failure(result: Result<prahadlo::network::Network, GtfsError>) -> GtfsError {
    match result {
        Ok(_) => panic!("the feed was loaded"),
        Err(e) => e,
    }
}

#[test]
fn default_settings_are_the_documented_ones() {
    let config = BuildConfig::default();
    assert_eq!(config.min_transfer_time, 60);
    assert_eq!(config.max_pedestrian_dist, 500);
    assert_eq!(config.walk_base, 60);
    assert_eq!(config.walk_speed, 36);
    assert_eq!(MINIMAL_TRANSFER_TIME, 60);
    assert_eq!(MAX_PEDESTRIAN_DIST, 500);
    assert_eq!(BASE_PEDESTRIAN_TRANSFER_TIME, 60);
    assert_eq!(PEDESTRIAN_SPEED, 36);
}

#[test]
fn agency_is_a_plain_record() {
    let agency = Agency {
        agency_id: "99".to_string(),
        agency_name: "PID".to_string(),
        agency_url: "https://pid.cz".to_string(),
        agency_timezone: "Europe/Prague".to_string(),
        agency_lang: "cs".to_string(),
        agency_phone: "+420".to_string(),
    };
    assert_eq!(agency.agency_id, "99");
    assert_eq!(agency.agency_timezone, "Europe/Prague");
}

#[test]
fn route_and_trip_start_without_identifier() {
    let route = Route::new("99".to_string(), "A".to_string(), "Line A".to_string(), 1);
    assert_eq!(route.route_id, "");
    assert_eq!(route.agency_id, "99");
    assert_eq!(route.route_short_name, "A");
    assert_eq!(route.route_long_name, "Line A");
    assert_eq!(route.route_type, 1);
    assert_eq!(route.route_url, None);
    assert!(!route.is_night);
    let trip = Trip::new("L991".to_string(), "0000010-1".to_string());
    assert_eq!(trip.trip_id, "");
    assert_eq!(trip.route_id, "L991");
    assert_eq!(trip.service_id, "0000010-1");
    assert!(trip.stop_times.is_empty());
}

#[test]
fn reversed_turns_the_order_round() {
    assert_eq!(reversed(vec![1, 2, 3, 4]), vec![4, 3, 2, 1]);
    assert_eq!(reversed(Vec::<u8>::new()), Vec::<u8>::new());
    assert_eq!(reversed(vec!["a".to_string()]), vec!["a".to_string()]);
}

#[test]
fn table_keeps_the_order_of_the_records() {
    let table = build_table(vec![stop("C", 3, 0), stop("A", 1, 0), stop("B", 2, 0)]);
    assert_eq!(table.len(), 3);
    assert_eq!(table.position("C"), Some(0));
    assert_eq!(table.position("A"), Some(1));
    assert_eq!(table.position("B"), Some(2));
    assert_eq!(table.position("D"), None);
    assert_eq!(table.get("A").unwrap().position, Point { x: 1, y: 0 });
    assert!(table.get("").is_none());
}

#[test]
fn last_record_under_an_identifier_stays() {
    let table = load_stops(vec![stop("A", 1, 0), stop("B", 2, 0), stop("A", 3, 0), stop("A", 4, 0)]);
    assert_eq!(table.len(), 2);
    assert_eq!(table.get("A").unwrap().position, Point { x: 4, y: 0 });
    assert_eq!(table.get("B").unwrap().position, Point { x: 2, y: 0 });
    assert_eq!(table.position("B"), Some(0));
    assert_eq!(table.position("A"), Some(1));
}

#[test]
fn exceptions_are_appended_to_their_services() {
    let mut services = load_services(vec![service("S1"), service("S2")]);
    let result = load_service_exceptions(
        vec![
            exception("S2", 1, EXCEPTION_ADDED),
            exception("S1", 2, EXCEPTION_REMOVED),
            exception("S2", 3, EXCEPTION_REMOVED),
        ],
        &mut services,
    );
    assert_eq!(result, Ok(()));
    let first = services.get("S1").unwrap();
    assert_eq!(first.exceptions.len(), 1);
    assert_eq!(first.exceptions[0].date.day, 2);
    let second = services.get("S2").unwrap();
    assert_eq!(second.exceptions.len(), 2);
    assert_eq!(second.exceptions[0].date.day, 1);
    assert_eq!(second.exceptions[0].exception_type, EXCEPTION_ADDED);
    assert_eq!(second.exceptions[1].date.day, 3);
    assert_eq!(second.exceptions[1].exception_type, EXCEPTION_REMOVED);
}

#[test]
fn exception_of_an_unknown_service_dangles() {
    let mut services = load_services(vec![service("S1")]);
    let result = load_service_exceptions(
        vec![exception("S1", 1, EXCEPTION_ADDED), exception("S9", 2, EXCEPTION_ADDED)],
        &mut services,
    );
    assert_eq!(result, Err(GtfsError::DanglingReference));
    assert!(services.get("S1").unwrap().exceptions.is_empty());
}

#[test]
fn calls_are_sorted_into_their_trips() {
    let mut trips = load_trips(vec![trip("T1"), trip("T2")]);
    let result = load_stop_times(
        vec![
            call("T1", 30, "C", 300, 300),
            call("T2", 2, "B", 50, 60),
            call("T1", 10, "A", 100, 100),
            call("T1", 20, "B", 200, 210),
            call("T2", 1, "A", 10, 20),
        ],
        &mut trips,
    );
    assert_eq!(result, Ok(()));
    let first: Vec<u32> = trips.get("T1").unwrap().stop_times.iter().map(|c| c.stop_sequence).collect();
    assert_eq!(first, vec![10, 20, 30]);
    let stops: Vec<&str> = trips.get("T1").unwrap().stop_times.iter().map(|c| c.stop_id.as_str()).collect();
    assert_eq!(stops, vec!["A", "B", "C"]);
    let second: Vec<u32> = trips.get("T2").unwrap().stop_times.iter().map(|c| c.stop_sequence).collect();
    assert_eq!(second, vec![1, 2]);
}

#[test]
fn call_of_an_unknown_trip_dangles() {
    let mut trips = load_trips(vec![trip("T1")]);
    let result = load_stop_times(
        vec![call("T1", 1, "A", 0, 0), call("T9", 1, "A", 0, 0)],
        &mut trips,
    );
    assert_eq!(result, Err(GtfsError::DanglingReference));
    assert!(trips.get("T1").unwrap().stop_times.is_empty());
}

#[test]
fn repeated_sequence_number_is_a_conflict() {
    let mut trips = load_trips(vec![trip("T1"), trip("T2")]);
    let result = load_stop_times(
        vec![call("T1", 1, "A", 0, 0), call("T2", 1, "A", 0, 0), call("T1", 1, "B", 10, 10)],
        &mut trips,
    );
    assert_eq!(result, Err(GtfsError::ScheduleConflict));
}

#[test]
fn feed_with_unknown_stop_dangles() {
    let result = load(
        vec![trip("T1")],
        vec![],
        vec![call("T1", 1, "A", 0, 0), call("T1", 2, "X", 10, 10)],
    );
    assert_eq!(failure(result), GtfsError::DanglingReference);
}

#[test]
fn feed_with_unknown_route_or_service_dangles() {
    let mut astray = trip("T1");
    astray.route_id = "R9".to_string();
    assert_eq!(failure(load(vec![astray], vec![], vec![])), GtfsError::DanglingReference);
    let mut astray = trip("T1");
    astray.service_id = "S9".to_string();
    assert_eq!(failure(load(vec![astray], vec![], vec![])), GtfsError::DanglingReference);
}

#[test]
fn feed_with_unknown_trip_or_service_of_a_record_dangles() {
    let result = load(vec![trip("T1")], vec![], vec![call("T9", 1, "A", 0, 0)]);
    assert_eq!(failure(result), GtfsError::DanglingReference);
    let result = load(vec![trip("T1")], vec![exception("S9", 1, EXCEPTION_ADDED)], vec![]);
    assert_eq!(failure(result), GtfsError::DanglingReference);
}

#[test]
fn dangling_reference_is_reported_before_a_conflict() {
    let result = load(
        vec![trip("T1")],
        vec![],
        vec![call("T1", 1, "A", 0, 0), call("T1", 1, "B", 10, 10), call("T1", 2, "X", 20, 20)],
    );
    assert_eq!(failure(result), GtfsError::DanglingReference);
}

#[test]
fn feed_with_repeated_sequence_number_is_in_conflict() {
    let result = load(
        vec![trip("T1")],
        vec![],
        vec![call("T1", 1, "A", 0, 0), call("T1", 1, "B", 10, 10)],
    );
    assert_eq!(failure(result), GtfsError::ScheduleConflict);
}

#[test]
fn feed_with_times_out_of_order_is_in_conflict() {
    let departs_before_arriving = load(vec![trip("T1")], vec![], vec![call("T1", 1, "A", 20, 10)]);
    assert_eq!(failure(departs_before_arriving), GtfsError::ScheduleConflict);
    let arrives_before_leaving = load(
        vec![trip("T1")],
        vec![],
        vec![call("T1", 1, "A", 100, 100), call("T1", 2, "B", 90, 95)],
    );
    assert_eq!(failure(arrives_before_leaving), GtfsError::ScheduleConflict);
    let beyond_two_days = load(vec![trip("T1")], vec![], vec![call("T1", 1, "A", 172_800, 172_800)]);
    assert_eq!(failure(beyond_two_days), GtfsError::ScheduleConflict);
    let within_two_days = load(vec![trip("T1")], vec![], vec![call("T1", 1, "A", 172_799, 172_799)]);
    assert!(within_two_days.is_ok());
}

#[test]
fn trip_that_brings_calls_out_of_order_is_in_conflict() {
    let mut disordered = trip("T1");
    disordered.stop_times = vec![call("T1", 2, "B", 10, 10), call("T1", 1, "A", 0, 0)];
    assert_eq!(failure(load(vec![disordered], vec![], vec![])), GtfsError::ScheduleConflict);
}

#[test]
fn tables_are_loaded_and_checked() {
    let schedule = load_tables(
        three_stops(),
        vec![route("R")],
        vec![trip("T1")],
        vec![service("S")],
        vec![exception("S", 1, EXCEPTION_ADDED)],
        vec![call("T1", 2, "B", 10, 10), call("T1", 1, "A", 0, 0)],
    )
    .ok()
    .unwrap();
    assert_eq!(schedule.stops.len(), 3);
    assert_eq!(schedule.routes.len(), 1);
    assert_eq!(schedule.trips.get("T1").unwrap().stop_times.len(), 2);
    assert_eq!(schedule.trips.get("T1").unwrap().stop_times[0].stop_id, "A");
    assert_eq!(schedule.services.get("S").unwrap().exceptions.len(), 1);
    let network = build_graph(schedule, BuildConfig::default());
    assert_eq!(network.node_count(), 2);
}

fn two_trips() -> prahadlo::network::Network {
    load(
        vec![trip("T1"), trip("T2")],
        vec![exception("S", 1, EXCEPTION_ADDED)],
        vec![
            call("T1", 1, "A", 100, 100),
            call("T1", 2, "B", 200, 300),
            call("T1", 3, "C", 400, 400),
            call("T2", 1, "B", 250, 250),
            call("T2", 2, "C", 350, 350),
        ],
    )
    .ok()
    .unwrap()
}

#[test]
fn network_hands_out_its_records() {
    let net = two_trips();
    assert_eq!(net.get_stop("B").unwrap().stop_id, "B");
    assert!(net.get_stop("X").is_none());
    assert_eq!(net.get_route("R").unwrap().route_id, "R");
    assert!(net.get_route("X").is_none());
    assert_eq!(net.get_trip("T2").unwrap().stop_times.len(), 2);
    assert!(net.get_trip("X").is_none());
    assert_eq!(net.get_service("S").unwrap().exceptions.len(), 1);
    assert!(net.get_service("X").is_none());
    assert_eq!(net.get_stops().len(), 3);
    assert_eq!(net.get_trips().len(), 2);
    assert_eq!(net.get_config(), BuildConfig::default());
}

#[test]
fn every_ride_has_a_departure_and_an_arrival() {
    let net = two_trips();
    let nodes = net.get_nodes();
    assert_eq!(net.node_count(), 6);
    let events: Vec<(usize, usize, usize, NodeKind, u32)> = nodes
        .iter()
        .map(|n| (n.event.stop, n.event.trip, n.event.seq, n.event.kind, n.event.time))
        .collect();
    assert_eq!(
        events,
        vec![
            (0, 0, 0, NodeKind::Dep, 100),
            (1, 0, 1, NodeKind::Arr, 200),
            (1, 0, 1, NodeKind::Dep, 300),
            (2, 0, 2, NodeKind::Arr, 400),
            (1, 1, 0, NodeKind::Dep, 250),
            (2, 1, 1, NodeKind::Arr, 350),
        ]
    );
}

#[test]
fn rides_join_consecutive_calls_of_one_trip() {
    let net = two_trips();
    let nodes = net.get_nodes();
    for (x, node) in nodes.iter().enumerate() {
        for edge in node.get_edges().iter().filter(|e| e.trip_id.is_some()) {
            let target = &nodes[edge.target_node];
            assert_eq!(edge.target_node, x + 1);
            assert_eq!(node.event.kind, NodeKind::Dep);
            assert_eq!(target.event.kind, NodeKind::Arr);
            assert_eq!(target.event.trip, node.event.trip);
            assert_eq!(target.event.seq, node.event.seq + 1);
            assert_eq!(edge.trip_id.as_ref().unwrap(), &net.get_trips()[node.event.trip].trip_id);
            assert_eq!(edge.cost(), target.event.time - node.event.time);
        }
    }
    assert_eq!(nodes[0].get_edges()[0].trip_id, Some("T1".to_string()));
    assert_eq!(nodes[4].get_edges()[0].trip_id, Some("T2".to_string()));
}

#[test]
fn departures_of_a_stop_are_chained_in_order_of_time() {
    let net = two_trips();
    let nodes = net.get_nodes();
    let stop = net.get_stop("B").unwrap();
    assert!(stop.finalized());
    assert_eq!(stop.get_dep_nodes(), &vec![4, 2]);
    let wait: Vec<_> = nodes[4].get_edges().iter().filter(|e| e.trip_id.is_none()).collect();
    assert_eq!(wait.len(), 1);
    assert_eq!(wait[0].target_node, 2);
    assert_eq!(wait[0].cost(), 50);
    assert!(nodes[2].get_edges().iter().all(|e| e.trip_id.is_some()));
}

#[test]
fn arrival_alights_to_the_first_departure_after_the_transfer_time() {
    let net = two_trips();
    let nodes = net.get_nodes();
    let edges = nodes[1].get_edges();
    assert_eq!(edges.len(), 1);
    assert_eq!(edges[0].target_node, 2);
    assert_eq!(nodes[4].event.time, 250);
    assert_eq!(nodes[2].event.time, 300);
    assert_eq!(edges[0].departs_at, 200);
    assert_eq!(edges[0].arrives_at, 260);
    assert_eq!(edges[0].cost(), 60);
    assert_eq!(edges[0].trip_id, None);
    assert!(nodes[3].get_edges().is_empty());
    assert!(nodes[5].get_edges().is_empty());
}

#[test]
fn arrival_walks_to_stops_in_reach_only() {
    let net = load_transport_network(
        vec![stop("A", 0, 0), stop("B", 10_000, 0), stop("N", 10_300, 200), stop("F", 10_300, 201)],
        vec![route("R")],
        vec![trip("T1"), trip("T2"), trip("T3")],
        vec![service("S")],
        vec![],
        vec![
            call("T1", 1, "A", 0, 0),
            call("T1", 2, "B", 1000, 1000),
            call("T2", 1, "N", 1500, 1500),
            call("T2", 2, "A", 2000, 2000),
            call("T3", 1, "F", 1500, 1500),
            call("T3", 2, "A", 2000, 2000),
        ],
        BuildConfig::default(),
    )
    .ok()
    .unwrap();
    let nodes = net.get_nodes();
    let edges = nodes[1].get_edges();
    assert_eq!(edges.len(), 1);
    assert_eq!(edges[0].target_node, 2);
    assert_eq!(nodes[2].event.stop, 2);
    assert_eq!(edges[0].departs_at, 1000);
    assert_eq!(edges[0].arrives_at, 1000 + 60 + 139);
    assert_eq!(edges[0].cost(), 199);
    assert_eq!(edges[0].trip_id, None);
}

#[test]
fn building_twice_gives_the_same_graph() {
    let first = two_trips();
    let second = two_trips();
    assert_eq!(first.node_count(), second.node_count());
    for (a, b) in first.get_nodes().iter().zip(second.get_nodes().iter()) {
        assert_eq!(a.event, b.event);
        assert_eq!(a.get_edges().len(), b.get_edges().len());
        for (e, f) in a.get_edges().iter().zip(b.get_edges().iter()) {
            assert_eq!(
                (e.departs_at, e.arrives_at, &e.trip_id, e.target_node),
                (f.departs_at, f.arrives_at, &f.trip_id, f.target_node)
            );
        }
    }
    for time in [0, 100, 101, 250, 300, 301] {
        assert_eq!(first.find_connection("A", "C", time), second.find_connection("A", "C", time));
        assert_eq!(first.find_connection("B", "C", time), second.find_connection("B", "C", time));
    }
    assert_eq!(first.find_connection("A", "C", 0), Ok(Some(400)));
    assert_eq!(first.find_connection("B", "C", 250), Ok(Some(100)));
    assert_eq!(first.find_connection("B", "C", 251), Ok(Some(149)));
}

#[test]
fn without_walking_speed_nobody_walks() {
    let mut config = BuildConfig::default();
    config.walk_speed = 0;
    let net = load_transport_network(
        vec![stop("A", 0, 0), stop("B", 10_000, 0), stop("N", 10_010, 0)],
        vec![route("R")],
        vec![trip("T1"), trip("T2")],
        vec![service("S")],
        vec![],
        vec![
            call("T1", 1, "A", 0, 0),
            call("T1", 2, "B", 1000, 1000),
            call("T2", 1, "N", 1500, 1500),
            call("T2", 2, "A", 2000, 2000),
        ],
        config,
    )
    .ok()
    .unwrap();
    assert!(net.get_nodes()[1].get_edges().is_empty());
    assert_eq!(net.find_connection("A", "N", 0), Ok(None));
}

#[test]
fn calls_whose_times_run_backwards_are_a_conflict() {
    let mut trips = load_trips(vec![trip("T1")]);
    let result = load_stop_times(
        vec![call("T1", 1, "A", 100, 100), call("T1", 2, "B", 50, 50)],
        &mut trips,
    );
    assert_eq!(result, Err(GtfsError::ScheduleConflict));
    let mut trips = load_trips(vec![trip("T1")]);
    let result = load_stop_times(
        vec![call("T1", 2, "B", 100, 100), call("T1", 1, "A", 50, 101)],
        &mut trips,
    );
    assert_eq!(result, Err(GtfsError::ScheduleConflict));
    let mut trips = load_trips(vec![trip("T1")]);
    let result = load_stop_times(vec![call("T1", 1, "A", 20, 10)], &mut trips);
    assert_eq!(result, Err(GtfsError::ScheduleConflict));
    let mut trips = load_trips(vec![trip("T1")]);
    let result = load_stop_times(vec![call("T1", 1, "A", 172_800, 172_800)], &mut trips);
    assert_eq!(result, Err(GtfsError::ScheduleConflict));
}

#[test]
fn calls_in_order_of_time_are_loaded_with_ascending_arrivals() {
    let mut trips = load_trips(vec![trip("T1")]);
    let result = load_stop_times(
        vec![call("T1", 3, "C", 300, 300), call("T1", 1, "A", 100, 100), call("T1", 2, "B", 100, 300)],
        &mut trips,
    );
    assert_eq!(result, Ok(()));
    let arrivals: Vec<u32> =
        trips.get("T1").unwrap().stop_times.iter().map(|c| c.arrival_time).collect();
    assert_eq!(arrivals, vec![100, 100, 300]);
}
