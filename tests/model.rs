use home_connections::config::{
    count_digits, MAX_DURATION_DIGITS, walk_seconds, walk_time_from_text, walk_time_to_text, DesiredConnection, MAX_WALK_EXTRA_NANOS, MAX_WALK_SECONDS,
};
use home_connections::connection::ConnectionExt;
use home_connections::mvg::{
    connection_query, known_locations, FirstLegSummary, location_query, pick_unambiguous_station, Connection,
    ConnectionPart, ConnectionPartPlace, Line, Location, LocationOrUnknown, Place, Station,
    StationLookupError, TransportType,
};

fn station(id: &str, name: &str) -> Station {
    Station {
        global_id: id.to_string(),
        name: name.to_string(),
    }
}

fn two_legs() -> Connection {
    let leg = |from: &str, at: i64, to: &str, until: i64, label: &str, kind| ConnectionPart {
        from: ConnectionPartPlace {
            name: from.to_string(),
            planned_departure: at,
        },
        to: ConnectionPartPlace {
            name: to.to_string(),
            planned_departure: until,
        },
        line: Line {
            label: label.to_string(),
            transport_type: kind,
        },
    };
    Connection {
        parts: vec![
            leg("Waldfriedhof", 1_000, "Harras", 1_300, "U6", TransportType::UBahn),
            leg("Harras", 1_400, "Schwanthaler Höhe", 1_900, "62", TransportType::Bus),
        ],
    }
}

#[test]
fn icons_per_transport_type() {
    assert_eq!(TransportType::Bahn.icon(), "🚆");
    assert_eq!(TransportType::SBahn.icon(), "🚆");
    assert_eq!(TransportType::UBahn.icon(), "🚇");
    assert_eq!(TransportType::Tram.icon(), "🚊");
    assert_eq!(TransportType::Bus.icon(), "🚍");
    assert_eq!(TransportType::RegionalBus.icon(), "🚍");
    assert_eq!(TransportType::Schiff.icon(), "🛳");
    assert_eq!(TransportType::Ruftaxi.icon(), "🚖");
    assert_eq!(TransportType::Pedestrian.icon(), "🚶");
}

#[test]
fn connection_accessors() {
    let c = two_legs();
    assert_eq!(c.planned_departure_time(), 1_000);
    assert_eq!(c.planned_arrival_time(), 1_900);
    assert_eq!(c.departure().from().name(), "Waldfriedhof");
    assert_eq!(c.departure().to().name(), "Harras");
    assert_eq!(c.departure().line_label(), "U6");
    assert_eq!(c.departure().line_transport_type(), TransportType::UBahn);
    assert_eq!(c.arrival().line_label(), "62");
    assert_eq!(c.arrival().to().name(), "Schwanthaler Höhe");
}

#[test]
fn complete_connection_start_to_walk() {
    let complete = two_legs().with_walk_to_start(300);
    assert_eq!(complete.walk_to_start, 300);
    assert_eq!(complete.start_to_walk(), 700);
    assert_eq!(complete.connection.planned_departure_time(), 1_000);
}

#[test]
fn single_station_is_picked() {
    let r = pick_unambiguous_station("Fuchswinkl", vec![station("de:1", "Fuchswinkl, Abzw.")]);
    assert_eq!(r.unwrap(), station("de:1", "Fuchswinkl, Abzw."));
}

#[test]
fn exact_name_wins_among_several() {
    let r = pick_unambiguous_station(
        "Marienplatz",
        vec![
            station("de:1", "Marienplatz (Bus)"),
            station("de:2", "Marienplatz"),
            station("de:3", "Marienplatz"),
        ],
    );
    assert_eq!(r.unwrap(), station("de:2", "Marienplatz"));
}

#[test]
fn several_without_exact_name_are_ambiguous() {
    let r = pick_unambiguous_station("Harr", vec![station("de:1", "Harras"), station("de:2", "Harrlach")]);
    match r {
        Err(StationLookupError::Ambiguous(name, candidates)) => {
            assert_eq!(name, "Harr");
            assert_eq!(candidates, vec!["Harras".to_string(), "Harrlach".to_string()]);
        }
        other => panic!("unexpected {:?}", other),
    }
}

#[test]
fn no_station_is_not_found() {
    match pick_unambiguous_station("Nowhere", vec![]) {
        Err(StationLookupError::NotFound(name)) => assert_eq!(name, "Nowhere"),
        other => panic!("unexpected {:?}", other),
    }
}

#[test]
fn unknown_locations_are_skipped() {
    let found = vec![
        LocationOrUnknown::Unknown("ADDRESS".to_string()),
        LocationOrUnknown::Location(Location::Station(station("de:1", "Harras"))),
        LocationOrUnknown::Unknown("POI".to_string()),
        LocationOrUnknown::Location(Location::Station(station("de:2", "Giesing"))),
    ];
    let known = known_locations(found);
    let names: Vec<String> = known
        .iter()
        .map(|l| match l {
            Location::Station(s) => s.name().to_string(),
        })
        .collect();
    assert_eq!(names, vec!["Harras".to_string(), "Giesing".to_string()]);
}

#[test]
fn walk_time_from_human_text() {
    assert_eq!(walk_time_from_text("5min"), Some(300));
    assert_eq!(walk_time_from_text("1h 30m"), Some(5_400));
    assert_eq!(walk_time_from_text("90s"), Some(90));
    assert_eq!(walk_time_from_text("2.5s"), Some(2));
    assert_eq!(walk_time_from_text("0"), Some(0));
    assert_eq!(walk_time_from_text(""), None);
    assert_eq!(walk_time_from_text("five minutes"), None);
}

#[test]
fn walk_time_to_human_text() {
    assert_eq!(walk_time_to_text(300), Some("5m".to_string()));
    assert_eq!(walk_time_to_text(5_400), Some("1h 30m".to_string()));
    assert_eq!(walk_time_to_text(0), Some("0s".to_string()));
    assert_eq!(walk_time_to_text(-1), None);
    assert_eq!(walk_time_from_text(&walk_time_to_text(3_725).unwrap()), Some(3_725));
}

#[test]
fn walk_seconds_range() {
    assert_eq!(walk_seconds(300, 0), Some(300));
    assert_eq!(walk_seconds(MAX_WALK_SECONDS, MAX_WALK_EXTRA_NANOS), Some(9_223_372_036_854_775));
    assert_eq!(walk_seconds(MAX_WALK_SECONDS, MAX_WALK_EXTRA_NANOS + 1), None);
    assert_eq!(walk_seconds(MAX_WALK_SECONDS + 1, 0), None);
    assert_eq!(walk_seconds(u64::MAX, 0), None);
}

#[test]
fn desired_connection_equality() {
    let d = |walk: i64, ignore: &[&str]| DesiredConnection {
        start: "Start".to_string(),
        destination: "Dest".to_string(),
        walk_to_start: walk,
        ignore_starting_with: ignore.iter().map(|s| s.to_string()).collect(),
    };
    assert_eq!(d(300, &["S2"]), d(300, &["S2"]));
    assert_ne!(d(300, &["S2"]), d(301, &["S2"]));
    assert_ne!(d(300, &["S2"]), d(300, &["S3"]));
    assert_ne!(d(300, &["S2"]), d(300, &["S2", "S3"]));
    assert_ne!(d(300, &[]), d(300, &["S2"]));
    assert_eq!(d(300, &["S2", "S3"]), d(300, &["S3", "S2"]));
    assert_eq!(d(300, &["S2", "S2"]), d(300, &["S2"]));
    assert_eq!(d(300, &[]), d(300, &[]));
}

#[test]
fn walk_time_refuses_too_many_digits() {
    assert_eq!(MAX_DURATION_DIGITS, 11);
    assert_eq!(walk_time_from_text("18446744073709551615s 1000000000ns"), None);
    assert_eq!(walk_time_from_text("99999999999s"), Some(99_999_999_999));
    assert_eq!(walk_time_from_text("000000000005min"), None);
    assert_eq!(count_digits("1h 30m"), 3);
    assert_eq!(count_digits("µs"), 0);
    assert_eq!(count_digits(""), 0);
}

#[test]
fn first_leg_summaries() {
    let mut c = two_legs();
    match c.first_leg_summary() {
        FirstLegSummary::RideTo(place, kind, label) => {
            assert_eq!(place, "Harras");
            assert_eq!(kind, TransportType::UBahn);
            assert_eq!(label, "U6");
        }
        other => panic!("unexpected {:?}", other),
    }
    c.parts[0].line.transport_type = TransportType::Pedestrian;
    match c.first_leg_summary() {
        FirstLegSummary::WalkTo(place) => assert_eq!(place, "Harras"),
        other => panic!("unexpected {:?}", other),
    }
    c.parts.pop();
    assert!(matches!(c.first_leg_summary(), FirstLegSummary::WalkOnly));
    c.parts[0].line.transport_type = TransportType::Tram;
    match c.first_leg_summary() {
        FirstLegSummary::RideOnly(kind, label) => {
            assert_eq!(kind, TransportType::Tram);
            assert_eq!(label, "U6");
        }
        other => panic!("unexpected {:?}", other),
    }
}

#[test]
fn departure_after_walk_adds_the_walk() {
    let d = DesiredConnection {
        start: "Start".to_string(),
        destination: "Dest".to_string(),
        walk_to_start: 600,
        ignore_starting_with: vec![],
    };
    assert_eq!(d.departure_after_walk(1_000), Some(1_600));
    assert_eq!(d.departure_after_walk(i64::MAX - 10), None);
}

#[test]
fn query_parameters() {
    let q = location_query("Marienplatz");
    assert_eq!(q, vec![("query".to_string(), "Marienplatz".to_string())]);
    let q = connection_query(
        &station("de:09162:1", "Waldfriedhof"),
        &station("de:09162:2", "Schwanthaler Höhe"),
        "2024-01-01T09:00:00.000Z",
    );
    let expected: Vec<(String, String)> = vec![
        ("originStationGlobalId", "de:09162:1"),
        ("destinationStationGlobalId", "de:09162:2"),
        ("routingDateTime", "2024-01-01T09:00:00.000Z"),
        ("routingDateTimeIsArrival", "false"),
        ("transportTypes", "SCHIFF,RUFTAXI,BAHN,UBAHN,TRAM,SBAHN,BUS,REGIONAL_BUS"),
    ]
    .into_iter()
    .map(|(a, b)| (a.to_string(), b.to_string()))
    .collect();
    assert_eq!(q, expected);
}
