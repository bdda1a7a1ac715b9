use retro::network::{LoadError, Metro};
use retro::records::{Station, Trip};
use retro::route::{fastest, RouteError};
use retro::search::get_time;

fn network(lines: &[&str]) -> Metro {
    let records: Vec<String> = lines.iter().map(|l| l.to_string()).collect();
    Metro::new(&records).expect("valid network")
}

fn line_one() -> Vec<&'static str> {
    vec!["V 0 1 0 A", "V 1 1 0 B", "V 2 1 1 C", "E 0 1 60", "E 1 2 60"]
}

#[test]
fn station_record_is_parsed() {
    let station = Station::new("V 0042 04 0 Les Halles").unwrap();
    assert_eq!(station.id, 42);
    assert_eq!(station.line, String::from("4"));
    assert_eq!(station.state, false);
    assert_eq!(station.name, String::from("Les Halles"));
}

#[test]
fn station_record_keeps_unpadded_line() {
    let station = Station::new("V 0042 4 1 Châtelet").unwrap();
    assert_eq!(station.line, String::from("4"));
    assert!(station.state);
    assert_eq!(station.name, String::from("Châtelet"));
}

#[test]
fn trip_record_is_parsed() {
    let trip = Trip::new("E 0042 0069 420").unwrap();
    assert_eq!(trip.first, 42);
    assert_eq!(trip.second, 69);
    assert_eq!(trip.time, 420);
}

#[test]
fn malformed_records_are_refused() {
    assert!(Station::new("V 12 3").is_none());
    assert!(Station::new("V x1 3 0 Name").is_none());
    assert!(Station::new("E 1 2 3").is_none());
    assert!(Station::new("V 99999999999999999999999 1 0 Big").is_none());
    assert!(Trip::new("E 1 2").is_none());
    assert!(Trip::new("E 1 2 3 4").is_none());
    assert!(Trip::new("E 1 2 x").is_none());
    assert!(Trip::new("E 1  2").is_none());
}

#[test]
fn load_reports_first_bad_record() {
    let recs = |ls: &[&str]| ls.iter().map(|l| l.to_string()).collect::<Vec<String>>();
    assert_eq!(Metro::new(&recs(&["# header", "V 0 1 0 A", "V nope"])).err(), Some(LoadError::BadStation(2)));
    assert_eq!(Metro::new(&recs(&["V 0 1 0 A", "E 0 0"])).err(), Some(LoadError::BadTrip(1)));
    assert_eq!(Metro::new(&recs(&["V 0 1 0 A", "V 2 1 0 B"])).err(), Some(LoadError::IdMismatch(1)));
    assert_eq!(Metro::new(&recs(&["V 0 1 0 A", "E 0 1 5"])).err(), Some(LoadError::UnknownStation(0)));
    let huge = format!("E 0 0 {}", usize::MAX - 10);
    assert_eq!(Metro::new(&recs(&["V 0 1 0 A", "E 0 0 1", huge.as_str()])).err(), Some(LoadError::TooLong(1)));
}

#[test]
fn load_skips_other_records() {
    let m = network(&["", "comment", "V 0 1 1 A", "E 0 0 5"]);
    assert_eq!(m.stations.len(), 1);
    assert_eq!(m.trips.len(), 1);
}

#[test]
fn neighbors_in_registry_order() {
    let m = network(&["V 0 1 0 A", "V 1 1 0 B", "V 2 1 1 C", "E 0 1 60", "E 1 2 60", "E 2 1 7"]);
    assert_eq!(m.get_paths_to_neighboors(1), vec![(0, 60), (2, 60), (2, 7)]);
    assert_eq!(m.get_paths_to_neighboors(0), vec![(1, 60)]);
}

#[test]
fn stations_are_found_by_name() {
    let m = network(&["V 0 1 0 A", "V 1 2 0 B", "V 2 1 1 A"]);
    assert_eq!(m.get_station("A"), vec![0, 2]);
    assert_eq!(m.get_station("B"), vec![1]);
    assert!(m.get_station("Z").is_empty());
}

#[test]
fn times_split_into_minutes() {
    assert_eq!(get_time(180), (3, 0));
    assert_eq!(get_time(61), (1, 1));
    assert_eq!(get_time(59), (0, 59));
}

#[test]
fn single_line_trip() {
    let m = network(&line_one());
    let r = m.dijkstra(0, 2).unwrap();
    assert_eq!(r.path, vec![0, 1, 2]);
    assert_eq!(r.time, (3, 0));
    assert!(r.changes.is_empty());
    assert_eq!(r.directions, vec![2]);
    assert_eq!((r.start, r.end), (0, 2));
}

#[test]
fn trip_ending_with_a_change_of_line() {
    let mut ls = line_one();
    ls.push("V 3 2 1 D");
    ls.push("E 1 3 30");
    let m = network(&ls);
    let r = m.dijkstra(0, 3).unwrap();
    assert_eq!(r.path, vec![0, 1, 3]);
    assert_eq!(r.time, (2, 30));
    assert_eq!(r.changes, vec![3]);
    assert_eq!(r.directions, vec![2]);
    assert_eq!(m.get_terminus(0, 1), Some(2));
    assert_eq!(m.get_terminus(1, 3), Some(3));
}

#[test]
fn change_of_line_gives_a_second_direction() {
    let mut ls = line_one();
    ls.extend(["V 3 2 0 D", "V 4 2 1 E", "E 1 3 30", "E 3 4 30"]);
    let m = network(&ls);
    let r = m.dijkstra(0, 4).unwrap();
    assert_eq!(r.path, vec![0, 1, 3, 4]);
    assert_eq!(r.changes, vec![3]);
    assert_eq!(r.directions, vec![2, 4]);
    assert_eq!(r.directions.len(), r.changes.len() + 1);
}

#[test]
fn same_station_is_a_trivial_route() {
    let m = network(&line_one());
    let r = m.dijkstra(1, 1).unwrap();
    assert_eq!(r.time, (0, 0));
    assert!(r.changes.is_empty());
    assert!(r.directions.is_empty());
    assert_eq!(r.path, vec![1]);
}

#[test]
fn disconnected_stations_have_no_route() {
    let m = network(&["V 0 1 1 A", "V 1 1 1 B", "V 2 2 1 C", "E 0 1 10"]);
    assert_eq!(m.dijkstra(0, 2).unwrap_err(), RouteError::NoRoute);
    assert_eq!(m.dijkstra(2, 1).unwrap_err(), RouteError::NoRoute);
}

#[test]
fn line_without_terminus() {
    let m = network(&["V 0 1 0 A", "V 1 1 0 B", "E 0 1 10"]);
    assert_eq!(m.dijkstra(0, 1).unwrap_err(), RouteError::NoTerminus);
    assert_eq!(m.get_terminus(0, 1), None);
}

#[test]
fn terminus_walk_takes_the_last_qualifying_trip() {
    let m = network(&["V 0 1 0 A", "V 1 1 0 B", "V 2 1 1 C", "V 3 1 1 D", "E 0 1 5", "E 1 2 5", "E 1 3 5"]);
    assert_eq!(m.get_terminus(0, 1), Some(3));
}

#[test]
fn longer_trip_never_shortens_the_route() {
    let short = network(&line_one());
    let long = network(&["V 0 1 0 A", "V 1 1 0 B", "V 2 1 1 C", "E 0 1 120", "E 1 2 60"]);
    let a = short.dijkstra(0, 2).unwrap();
    let b = long.dijkstra(0, 2).unwrap();
    assert_eq!(a.time, (3, 0));
    assert_eq!(b.time, (4, 0));
    assert!(a.time <= b.time);
}

#[test]
fn segments_rebuild_the_path() {
    let mut ls = line_one();
    ls.extend(["V 3 2 0 D", "V 4 2 1 E", "E 1 3 30", "E 3 4 30"]);
    let m = network(&ls);
    let r = m.dijkstra(0, 4).unwrap();
    let mut rebuilt: Vec<usize> = Vec::new();
    let mut cut = 0;
    for &c in &r.changes {
        let at = r.path.iter().position(|&s| s == c).unwrap();
        rebuilt.extend_from_slice(&r.path[cut..at]);
        cut = at;
    }
    rebuilt.extend_from_slice(&r.path[cut..]);
    assert_eq!(rebuilt, r.path);
}

#[test]
fn fastest_takes_first_among_equals() {
    let m = network(&["V 0 1 1 A", "V 1 1 0 B", "V 2 1 1 C", "E 0 1 60", "E 1 2 60"]);
    let results = vec![m.dijkstra(1, 0).unwrap(), m.dijkstra(0, 2).unwrap(), m.dijkstra(1, 2).unwrap()];
    assert_eq!(results[0].time, (1, 30));
    assert_eq!(results[2].time, (1, 30));
    assert_eq!(fastest(&results), Some(0));
    assert_eq!(fastest(&Vec::new()), None);
}

#[test]
fn relaxation_compares_without_stop_time() {
    let base = ["V 0 1 0 S", "V 1 1 0 A", "V 2 1 1 X", "E 0 2 70", "E 0 1 0"];
    let mut shorter: Vec<&str> = base.to_vec();
    shorter.push("E 1 2 60");
    let mut longer: Vec<&str> = base.to_vec();
    longer.push("E 1 2 70");
    let a = network(&shorter).dijkstra(0, 2).unwrap();
    let b = network(&longer).dijkstra(0, 2).unwrap();
    assert_eq!(a.path, vec![0, 1, 2]);
    assert_eq!(a.time, (2, 0));
    assert_eq!(b.path, vec![0, 2]);
    assert_eq!(b.time, (1, 40));
    assert_eq!(a.directions, vec![2]);
}

#[test]
fn best_route_over_candidates() {
    let m = network(&["V 0 1 1 A", "V 1 1 0 B", "V 2 1 1 C", "V 3 2 1 Z", "E 0 1 60", "E 1 2 60"]);
    let r = m.best_route(&vec![0, 3], &vec![2, 1]).unwrap();
    assert_eq!((r.start, r.end), (0, 1));
    assert_eq!(r.time, (1, 30));
    let none = m.best_route(&vec![3], &vec![0, 2]);
    assert_eq!(none.unwrap_err(), RouteError::NoRoute);
}

#[test]
fn best_route_keeps_first_among_equals() {
    let m = network(&["V 0 1 1 A", "V 1 1 0 B", "V 2 1 1 C", "E 0 1 60", "E 1 2 60"]);
    let r = m.best_route(&vec![0, 2], &vec![1]).unwrap();
    assert_eq!((r.start, r.end), (0, 1));
    let r = m.best_route(&vec![2, 0], &vec![1]).unwrap();
    assert_eq!((r.start, r.end), (2, 1));
}
