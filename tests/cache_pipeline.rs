use home_connections::cache::{ConnectionsCache, REMAINING_WALK_DIVISOR, TOO_FEW_CONNECTIONS};
use home_connections::config::{Config, DesiredConnection};
use home_connections::mvg::{Connection, ConnectionPart, ConnectionPartPlace, Line, TransportType};

fn place(name: &str, at: i64) -> ConnectionPartPlace {
    ConnectionPartPlace {
        name: name.to_string(),
        planned_departure: at,
    }
}

fn ride(label: &str, kind: TransportType, departure: i64, arrival: i64) -> Connection {
    Connection {
        parts: vec![ConnectionPart {
            from: place("Start", departure),
            to: place("Dest", arrival),
            line: Line {
                label: label.to_string(),
                transport_type: kind,
            },
        }],
    }
}

fn train(departure: i64) -> Connection {
    ride("S2", TransportType::SBahn, departure, departure + 600)
}

fn desired(start: &str, destination: &str, walk: i64, ignore: &[&str]) -> DesiredConnection {
    DesiredConnection {
        start: start.to_string(),
        destination: destination.to_string(),
        walk_to_start: walk,
        ignore_starting_with: ignore.iter().map(|s| s.to_string()).collect(),
    }
}

fn departures(list: &[Connection]) -> Vec<i64> {
    list.iter().map(|c| c.planned_departure_time()).collect()
}

fn single(d: DesiredConnection, list: Vec<Connection>) -> ConnectionsCache {
    ConnectionsCache {
        connections: vec![(d, list)],
    }
}

#[test]
fn unreachable_eviction_keeps_catchable_connections() {
    let now = 10_000;
    let cache = single(
        desired("Start", "Dest", 300, &[]),
        vec![train(9_000), train(9_500), train(10_200), train(10_500), train(11_000)],
    );
    let evicted = cache.evict_unreachable_connections(now);
    let kept = &evicted.connections[0].1;
    assert_eq!(departures(kept), vec![10_200, 10_500, 11_000]);
    for c in kept {
        assert!(c.planned_departure_time() - 300 / REMAINING_WALK_DIVISOR >= now);
    }
}

#[test]
fn unreachable_eviction_needs_half_the_walk() {
    let cache = single(
        desired("Start", "Dest", 300, &[]),
        vec![train(1_149), train(1_150), train(1_151)],
    );
    let evicted = cache.evict_unreachable_connections(1_000);
    assert_eq!(departures(&evicted.connections[0].1), vec![1_150, 1_151]);
}

#[test]
fn unreachable_eviction_odd_walk_is_exact() {
    let cache = single(desired("Start", "Dest", 301, &[]), vec![train(1_150), train(1_151)]);
    let evicted = cache.evict_unreachable_connections(1_000);
    assert_eq!(departures(&evicted.connections[0].1), vec![1_151]);
}

#[test]
fn unreachable_eviction_is_monotone_in_time() {
    let make = || {
        single(
            desired("Start", "Dest", 120, &[]),
            vec![train(900), train(1_000), train(1_100), train(1_300)],
        )
    };
    let early = make().evict_unreachable_connections(950);
    let late = make().evict_unreachable_connections(1_100);
    let early_deps = departures(&early.connections[0].1);
    let late_deps = departures(&late.connections[0].1);
    assert_eq!(late_deps, vec![1_300]);
    assert_eq!(early_deps, vec![1_100, 1_300]);
    for d in late_deps {
        assert!(early_deps.contains(&d));
    }
}

#[test]
fn reconcile_keeps_matching_cache() {
    let cache = single(desired("Start", "Dest", 300, &["S2"]), vec![train(1_000)]);
    let config = Config {
        connections: vec![desired("Start", "Dest", 300, &["S2"])],
    };
    let r = cache.update_config(config);
    assert_eq!(r.connections.len(), 1);
    assert_eq!(departures(&r.connections[0].1), vec![1_000]);
}

#[test]
fn reconcile_ignores_label_order() {
    let cache = single(desired("Start", "Dest", 300, &["S2", "U3"]), vec![train(1_000)]);
    let config = Config {
        connections: vec![desired("Start", "Dest", 300, &["U3", "S2", "U3"])],
    };
    let r = cache.update_config(config);
    assert_eq!(departures(&r.connections[0].1), vec![1_000]);
}

#[test]
fn reconcile_discards_on_changed_destination() {
    let cache = single(desired("Start", "Dest", 300, &[]), vec![train(1_000), train(2_000)]);
    let config = Config {
        connections: vec![desired("Start", "Dest2", 300, &[])],
    };
    let r = cache.update_config(config);
    assert_eq!(r.connections.len(), 1);
    assert_eq!(r.connections[0].0.start, "Start");
    assert_eq!(r.connections[0].0.destination, "Dest2");
    assert!(r.connections[0].1.is_empty());
}

#[test]
fn reconcile_discards_on_any_field() {
    let variants = vec![
        desired("Other", "Dest", 300, &[]),
        desired("Start", "Dest", 360, &[]),
        desired("Start", "Dest", 300, &["S2"]),
    ];
    for v in variants {
        let cache = ConnectionsCache {
            connections: vec![
                (desired("Start", "Dest", 300, &[]), vec![train(1_000)]),
                (desired("Home", "Work", 60, &[]), vec![train(2_000)]),
            ],
        };
        let config = Config {
            connections: vec![v, desired("Home", "Work", 60, &[])],
        };
        let r = cache.update_config(config);
        assert_eq!(r.connections.len(), 2);
        assert!(r.connections.iter().all(|e| e.1.is_empty()));
    }
}

#[test]
fn reconcile_discards_on_different_length() {
    let cache = single(desired("Start", "Dest", 300, &[]), vec![train(1_000)]);
    let config = Config {
        connections: vec![desired("Start", "Dest", 300, &[]), desired("Home", "Work", 60, &[])],
    };
    let r = cache.update_config(config);
    assert_eq!(r.connections.len(), 2);
    assert!(r.connections.iter().all(|e| e.1.is_empty()));
    let empty = ConnectionsCache::default().update_config(Config { connections: vec![] });
    assert!(empty.connections.is_empty());
}

#[test]
fn reconcile_twice_is_reconcile_once() {
    let config = || Config {
        connections: vec![desired("Start", "Dest2", 300, &[])],
    };
    let cache = single(desired("Start", "Dest", 300, &[]), vec![train(1_000)]);
    let once = cache.update_config(config());
    let twice = once.clone().update_config(config());
    assert_eq!(once.connections.len(), twice.connections.len());
    assert_eq!(once.connections[0].0, twice.connections[0].0);
    assert_eq!(
        departures(&once.connections[0].1),
        departures(&twice.connections[0].1)
    );
    let kept = single(desired("Start", "Dest2", 300, &[]), vec![train(1_000)]);
    let kept_twice = kept.update_config(config()).update_config(config());
    assert_eq!(departures(&kept_twice.connections[0].1), vec![1_000]);
}

#[test]
fn too_few_clears_short_lists() {
    let cache = ConnectionsCache {
        connections: vec![
            (desired("A", "B", 60, &[]), vec![train(1), train(2)]),
            (desired("C", "D", 60, &[]), vec![train(1), train(2), train(3), train(4)]),
            (desired("E", "F", 60, &[]), vec![]),
            (desired("G", "H", 60, &[]), vec![train(1), train(2), train(3)]),
        ],
    };
    let r = cache.evict_too_few_connections(TOO_FEW_CONNECTIONS);
    assert!(r.connections[0].1.is_empty());
    assert_eq!(departures(&r.connections[1].1), vec![1, 2, 3, 4]);
    assert!(r.connections[2].1.is_empty());
    assert_eq!(departures(&r.connections[3].1), vec![1, 2, 3]);
    assert_eq!(r.connections[3].0.start, "G");
}

#[test]
fn too_few_with_zero_limit_keeps_everything() {
    let cache = single(desired("A", "B", 60, &[]), vec![train(1)]);
    let r = cache.evict_too_few_connections(0);
    assert_eq!(departures(&r.connections[0].1), vec![1]);
}

#[test]
fn pedestrian_and_ignored_starts_are_evicted() {
    let cache = single(
        desired("A", "B", 60, &["U3"]),
        vec![
            ride("", TransportType::Pedestrian, 100, 200),
            ride("U3", TransportType::UBahn, 110, 200),
            ride("U6", TransportType::UBahn, 120, 200),
            ride("S2", TransportType::SBahn, 130, 200),
        ],
    );
    let r = cache.evict_starts_with_pedestrian();
    assert_eq!(departures(&r.connections[0].1), vec![120, 130]);
}

#[test]
fn pedestrian_later_leg_is_kept() {
    let mut c = ride("S2", TransportType::SBahn, 100, 200);
    c.parts.push(ConnectionPart {
        from: place("Dest", 200),
        to: place("Home", 300),
        line: Line {
            label: String::new(),
            transport_type: TransportType::Pedestrian,
        },
    });
    let r = single(desired("A", "B", 60, &[]), vec![c]).evict_starts_with_pedestrian();
    assert_eq!(r.connections[0].1.len(), 1);
    assert_eq!(r.connections[0].1[0].planned_arrival_time(), 300);
}

#[test]
fn refresh_fetches_only_empty_entries() {
    let cache = ConnectionsCache {
        connections: vec![
            (desired("A", "X", 60, &[]), vec![train(500), train(600), train(700)]),
            (desired("B", "Y", 60, &[]), vec![]),
        ],
    };
    let mut calls: Vec<String> = Vec::new();
    let pending = cache.pending_indices();
    assert_eq!(pending, vec![1]);
    let fetched: Vec<Result<Vec<Connection>, String>> = pending
        .iter()
        .map(|&i| {
            calls.push(cache.connections[i].0.start.clone());
            Ok(vec![train(800), train(900)])
        })
        .collect();
    assert_eq!(calls, vec!["B".to_string()]);
    let r = cache.refresh_empty(fetched).unwrap();
    assert_eq!(r.connections[0].0.start, "A");
    assert_eq!(departures(&r.connections[0].1), vec![500, 600, 700]);
    assert_eq!(r.connections[1].0.start, "B");
    assert_eq!(departures(&r.connections[1].1), vec![800, 900]);
}

#[test]
fn refresh_returns_first_error() {
    let cache = ConnectionsCache {
        connections: vec![
            (desired("A", "X", 60, &[]), vec![]),
            (desired("B", "Y", 60, &[]), vec![train(1)]),
            (desired("C", "Z", 60, &[]), vec![]),
            (desired("D", "W", 60, &[]), vec![]),
        ],
    };
    assert_eq!(cache.pending_indices(), vec![0, 2, 3]);
    let fetched: Vec<Result<Vec<Connection>, String>> = vec![
        Ok(vec![train(5)]),
        Err("no station C".to_string()),
        Err("no station D".to_string()),
    ];
    let r = cache.refresh_empty(fetched);
    assert_eq!(r.unwrap_err(), "no station C");
}

#[test]
fn refresh_of_full_cache_needs_nothing() {
    let cache = single(desired("A", "X", 60, &[]), vec![train(1)]);
    assert!(cache.pending_indices().is_empty());
    let r = cache.refresh_empty::<String>(vec![]).unwrap();
    assert_eq!(departures(&r.connections[0].1), vec![1]);
}

#[test]
fn merged_view_orders_by_leave_time() {
    let cache = ConnectionsCache {
        connections: vec![
            (desired("A", "X", 300, &[]), vec![train(10_080)]),
            (desired("B", "Y", 600, &[]), vec![train(10_200)]),
        ],
    };
    let view = cache.all_connections();
    assert_eq!(view.len(), 2);
    assert_eq!(view[0].0, 600);
    assert_eq!(view[0].1.planned_departure_time(), 10_200);
    assert_eq!(view[1].0, 300);
    assert_eq!(view[1].1.planned_departure_time(), 10_080);
}

#[test]
fn merged_view_is_sorted_and_stable() {
    let cache = ConnectionsCache {
        connections: vec![
            (
                desired("A", "X", 100, &["U3"]),
                vec![
                    ride("S1", TransportType::SBahn, 500, 900),
                    ride("U3", TransportType::UBahn, 50, 900),
                    ride("S2", TransportType::SBahn, 300, 900),
                ],
            ),
            (
                desired("B", "Y", 200, &[]),
                vec![
                    ride("U3", TransportType::UBahn, 400, 900),
                    ride("S7", TransportType::SBahn, 700, 900),
                ],
            ),
        ],
    };
    let view = cache.all_connections();
    let labels: Vec<&str> = view.iter().map(|(_, c)| c.departure().line_label()).collect();
    let leave: Vec<i64> = view
        .iter()
        .map(|(w, c)| c.planned_departure_time() - w)
        .collect();
    assert_eq!(leave, vec![200, 200, 400, 500]);
    assert_eq!(labels, vec!["S2", "U3", "S1", "S7"]);
}

#[test]
fn merged_view_of_empty_cache_is_empty() {
    assert!(ConnectionsCache::default().all_connections().is_empty());
}

#[test]
fn pipeline_steps_combine_evictions() {
    let cache = ConnectionsCache {
        connections: vec![
            (desired("A", "X", 100, &[]), vec![train(900), train(1_100), train(1_200)]),
            (desired("B", "Y", 100, &[]), vec![train(1_100), train(1_200), train(1_300)]),
        ],
    };
    let before = cache.evict_before_refresh(1_000);
    assert!(before.connections[0].1.is_empty());
    assert_eq!(departures(&before.connections[1].1), vec![1_100, 1_200, 1_300]);
    let after = single(
        desired("A", "X", 100, &[]),
        vec![
            train(900),
            ride("", TransportType::Pedestrian, 1_100, 1_200),
            train(1_200),
        ],
    )
    .evict_after_refresh(1_000);
    assert_eq!(departures(&after.connections[0].1), vec![1_200]);
}

#[test]
fn well_formedness_check() {
    let good = single(desired("A", "X", 100, &[]), vec![train(1)]);
    assert!(good.is_well_formed());
    let bad = single(desired("A", "X", 100, &[]), vec![train(1), Connection { parts: vec![] }]);
    assert!(!bad.is_well_formed());
    assert!(ConnectionsCache::default().is_well_formed());
}
