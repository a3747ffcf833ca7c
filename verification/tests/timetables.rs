use solari::sorting::sort_order;
use solari::timetable::concat::{metadata_key, resume_at, ConcatPhase};
use solari::timetable::distance::Distance;
use solari::timetable::heartbeat::{
    progress_at, remarked_progress_at, stalled_progress_at, HeartbeatProgress, Passed,
    REPORT_INTERVAL_NANOS,
};
use solari::timetable::walks::{
    calculate_transfer_matrix, generate_transfer_candidates, TRANSFER_RADIUS_BITS,
};
use solari::timetable::{
    MmapTimetable, Route, RouteStop, Stop, StopRoute, Time, Transfer, Trip, TripStopTime,
};

/// One line along all stops, with vehicles that leave every 100 seconds.
fn line(stops: usize, trips: usize, begin: u32) -> MmapTimetable {
    let mut route_stops = Vec::new();
    let mut stop_list = Vec::new();
    let mut stop_routes = Vec::new();
    for s in 0..stops {
        route_stops.push(RouteStop {
            route_index: 0,
            stop_index: s,
            stop_seq: s,
            distance_along_route: Distance::from_bits(0),
        });
        stop_list.push(Stop {
            stop_index: s,
            s2cell: 1000 + s as u64,
            first_stop_route_index: s,
        });
        stop_routes.push(StopRoute {
            route_index: 0,
            stop_seq: s,
        });
    }
    let mut route_trips = Vec::new();
    let mut times = Vec::new();
    for t in 0..trips {
        route_trips.push(Trip {
            trip_index: t,
            route_index: 0,
            first_trip_stop_time: times.len(),
            last_trip_stop_time: times.len() + stops,
        });
        for s in 0..stops {
            let time = Time::from_epoch_seconds(begin + 100 * t as u32 + 10 * s as u32);
            times.push(TripStopTime {
                trip_index: t,
                route_stop_seq: s,
                arrival_time: time,
                departure_time: time,
            });
        }
    }
    let tt = MmapTimetable::from_in_memory(
        vec![Route {
            route_index: 0,
            first_route_stop: 0,
            first_route_trip: 0,
        }],
        route_stops,
        route_trips,
        stop_list,
        stop_routes,
        times,
    );
    assert!(tt.is_consistent());
    tt
}

#[test]
fn joined_timetables_keep_what_they_held() {
    let parts = [line(3, 2, 1000), MmapTimetable::empty(), line(2, 3, 5000)];
    let all = MmapTimetable::concatenate(&parts);
    assert!(all.is_consistent());
    assert_eq!(all.routes().len(), 2);
    assert_eq!(all.route_stops().len(), 5);
    assert_eq!(all.route_trips().len(), 5);
    assert_eq!(all.stops().len(), 5);
    assert_eq!(all.stop_routes().len(), 5);
    assert_eq!(all.trip_stop_times().len(), 12);
    assert!(all.transfers().is_empty());
    assert!(all.transfer_index().is_empty());
    assert_eq!(
        all.routes()[1],
        Route {
            route_index: 1,
            first_route_stop: 3,
            first_route_trip: 2
        }
    );
    assert_eq!(all.route_stops()[4].stop_index, 4);
    assert_eq!(all.route_stops()[4].stop_seq, 1);
    assert_eq!(
        all.route_trips()[3],
        Trip {
            trip_index: 3,
            route_index: 1,
            first_trip_stop_time: 8,
            last_trip_stop_time: 10
        }
    );
    assert_eq!(all.stops()[3].s2cell, 1000);
    assert_eq!(all.stops()[3].first_stop_route_index, 3);
    assert_eq!(all.stop_routes()[4].route_index, 1);
    assert_eq!(all.stop_time(1, 2, 1).departure(), Time::from_epoch_seconds(5210));
    assert_eq!(all.stop_time(1, 2, 1).trip_index, 4);
    assert_eq!(all.stop_time(0, 1, 2), parts[0].stop_time(0, 1, 2));
    for (i, stop) in parts[2].stops().iter().enumerate() {
        assert_eq!(metadata_key(3, stop.id()), all.stops()[3 + i].id() as u64);
    }
    assert_eq!(all.stops_of_route(1).len(), 2);
    assert_eq!(all.trips_of_route(1).len(), 3);
    assert_eq!(all.routes_of_stop(4).len(), 1);
}

#[test]
fn joining_resumes_where_it_was_left() {
    assert_eq!(resume_at(true, false, false), ConcatPhase::Transfers);
    assert_eq!(resume_at(false, true, true), ConcatPhase::Transfers);
    assert_eq!(resume_at(false, true, false), ConcatPhase::Core);
    assert_eq!(resume_at(false, false, true), ConcatPhase::Core);
}

#[test]
fn stored_transfers_are_read_back() {
    let mut tt = line(4, 1, 0);
    let t = |from, to| Transfer { to, from, time: 7 };
    let all = vec![
        vec![t(0, 1), t(0, 3)],
        vec![],
        vec![t(2, 0)],
        vec![t(3, 2), t(3, 1), t(3, 0)],
    ];
    tt.write_transfers(&all);
    assert!(tt.is_searchable());
    assert_eq!(tt.transfer_index(), &[0, 2, 2, 3]);
    for (s, transfers) in all.iter().enumerate() {
        assert_eq!(tt.transfers_from(s), transfers.as_slice());
    }
}

#[test]
fn walks_lead_to_stops_within_reach() {
    assert_eq!(f64::from_bits(TRANSFER_RADIUS_BITS), 1000.0);
    let d = |m: f64| Distance::from_bits(m.to_bits());
    let found = [(5, d(0.0)), (2, d(0.0)), (7, d(1000.0)), (1, d(1000.5)), (3, d(2.0))];
    assert_eq!(generate_transfer_candidates(&found, 5), vec![2, 7]);
    assert_eq!(generate_transfer_candidates(&found, 9), vec![5, 2, 7]);
    assert_eq!(generate_transfer_candidates(&[], 9), Vec::<usize>::new());
}

#[test]
fn walks_without_a_way_are_left_out() {
    let transfers = calculate_transfer_matrix(4, &[(1, Some(5000)), (2, None), (3, Some(1399))], 1400);
    assert_eq!(
        transfers,
        vec![
            Transfer {
                to: 1,
                from: 4,
                time: 3
            },
            Transfer {
                to: 3,
                from: 4,
                time: 0
            }
        ]
    );
}

#[test]
fn long_walks_keep_their_low_bits() {
    let t = Transfer {
        to: 0,
        from: 1,
        time: 0x1_0000_0005,
    };
    assert_eq!(t.time_seconds(), 5);
}

#[test]
fn reports_are_ten_seconds_apart() {
    let due = REPORT_INTERVAL_NANOS;
    assert_eq!(progress_at(3, 10, due - 1, 5), None);
    let report = progress_at(3, 10, due, 5).expect("due");
    assert_eq!((report.completed, report.total, report.elapsed_nanos), (3, 10, 5));
    assert_eq!(report.remaining, Some(7));
    assert_eq!(progress_at(0, 10, due, 5).expect("due").remaining, None);
    assert_eq!(progress_at(10, 10, 0, 5).expect("done").remaining, None);
    assert_eq!(progress_at(0, 0, 0, 5).expect("done").remaining, None);
    assert_eq!(remarked_progress_at(10, 10, due - 1, 5), None);
    assert_eq!(remarked_progress_at(10, 10, due, 5).expect("due").remaining, Some(0));
    assert_eq!(stalled_progress_at(10, 10, due - 1, 5), None);
    assert_eq!(stalled_progress_at(3, 10, due, 5).expect("due").remaining, None);
}

#[test]
fn a_fresh_task_reports_only_its_end() {
    let mut progress = HeartbeatProgress::new("joining", 2);
    assert_eq!(progress.maybe_log(1), None);
    assert_eq!(progress.maybe_log_with_extra(1, "note"), None);
    assert_eq!(progress.maybe_log_stalled(1, "waiting"), None);
    let report = progress.maybe_log(2).expect("done");
    assert_eq!((report.completed, report.total), (2, 2));
    assert_eq!(progress.label, "joining");
}

#[test]
fn an_old_task_reports() {
    let mut progress = HeartbeatProgress::new("joining", 4);
    let long_ago = progress
        .start
        .checked_sub(std::time::Duration::from_secs(11));
    if let Some(long_ago) = long_ago {
        progress.start = long_ago;
        let (report, note) = progress.maybe_log_with_extra(1, "note").expect("due");
        assert_eq!((report.completed, report.remaining, note), (1, Some(3), "note"));
        assert!(report.elapsed_nanos >= 11_000_000_000);
        assert_eq!(progress.last_log, report.elapsed_nanos);
        assert_eq!(progress.maybe_log_stalled(1, "waiting"), None);
        assert_eq!(progress.maybe_log(1), None);
        progress.last_log = 0;
        let (report, note) = progress.maybe_log_stalled(1, "waiting").expect("due");
        assert_eq!((report.remaining, note), (None, "waiting"));
        assert_eq!(progress.last_log, report.elapsed_nanos);
        progress.last_log = 0;
        let report = progress.maybe_log(1).expect("due");
        assert_eq!(report.remaining, Some(3));
        assert_eq!((progress.last_log, progress.start), (report.elapsed_nanos, long_ago));
    }
}

fn after(progress: &HeartbeatProgress, nanos: u128) -> Passed {
    Passed {
        since: progress.start,
        nanos,
    }
}

#[test]
fn a_report_is_remembered_when_it_is_made() {
    let due = REPORT_INTERVAL_NANOS;
    let mut progress = HeartbeatProgress::new("joining", 4);
    let begun = progress.start;
    let early = after(&progress, due - 1);
    assert_eq!(progress.log_with_extra_at(1, "note", early), None);
    assert_eq!(progress.last_log, 0);
    let now = after(&progress, due + 7);
    let (report, note) = progress.log_with_extra_at(1, "note", now).expect("due");
    assert_eq!((report.elapsed_nanos, report.remaining, note), (due + 7, Some(3), "note"));
    assert_eq!((progress.last_log, progress.start), (due + 7, begun));
    let early = after(&progress, 2 * due + 6);
    assert_eq!(progress.log_stalled_at(1, "waiting", early), None);
    assert_eq!(progress.last_log, due + 7);
    let now = after(&progress, 2 * due + 7);
    let (report, note) = progress.log_stalled_at(1, "waiting", now).expect("due");
    assert_eq!((report.elapsed_nanos, report.remaining, note), (2 * due + 7, None, "waiting"));
    assert_eq!(progress.last_log, 2 * due + 7);
    let before = after(&progress, due);
    assert_eq!(progress.log_stalled_at(1, "waiting", before), None);
}

#[test]
fn a_report_at_the_end_is_remembered_too() {
    let due = REPORT_INTERVAL_NANOS;
    let mut progress = HeartbeatProgress::new("joining", 4);
    let begun = progress.start;
    let early = after(&progress, due - 1);
    assert_eq!(progress.log_at(1, early), None);
    assert_eq!(progress.last_log, 0);
    let now = after(&progress, due);
    let report = progress.log_at(1, now).expect("due");
    assert_eq!((report.elapsed_nanos, report.remaining), (due, Some(3)));
    assert_eq!((progress.last_log, progress.start), (due, begun));
    let now = after(&progress, 2 * due);
    assert_eq!(progress.log_at(0, now).expect("due").remaining, None);
    let now = after(&progress, 2 * due + 9);
    let report = progress.log_at(4, now).expect("done");
    assert_eq!((report.completed, report.remaining), (4, None));
    assert_eq!(progress.last_log, 2 * due + 9);
    let now = after(&progress, 2 * due + 9);
    assert!(progress.log_at(5, now).is_some());
}

#[test]
fn sorting_is_stable() {
    assert_eq!(sort_order(&vec![5, 1, 5, 0, 1]), vec![3, 1, 4, 0, 2]);
    assert_eq!(sort_order(&vec![]), Vec::<usize>::new());
}
