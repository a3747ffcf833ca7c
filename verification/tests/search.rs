use solari::moments::UtcMoment;
use solari::route::context::{
    InternalItinerary, InternalStepLocation, LatLng, RouterContext, StopMark,
};
use solari::route::itineraries::{unwind_itinerary, SolariItinerary, SolariLeg};
use solari::route::picking::{
    cost_scaling_final_transfer, pick_best_itineraries, pick_best_itineraries_backward,
};
use solari::route::router::Router;
use solari::timetable::distance::Distance;
use solari::timetable::{
    MmapTimetable, Route, RouteStop, Stop, StopRoute, Time, Transfer, Trip, TripStopTime,
};

type Times = Vec<(u32, u32)>;

fn timetable(
    stop_count: usize,
    lines: Vec<(Vec<usize>, Vec<Times>)>,
    walks: Vec<(usize, usize, u64)>,
) -> MmapTimetable {
    let mut routes = Vec::new();
    let mut route_stops = Vec::new();
    let mut route_trips = Vec::new();
    let mut trip_stop_times = Vec::new();
    for (r, (sequence, trips)) in lines.iter().enumerate() {
        routes.push(Route {
            route_index: r,
            first_route_stop: route_stops.len(),
            first_route_trip: route_trips.len(),
        });
        for (seq, stop) in sequence.iter().enumerate() {
            route_stops.push(RouteStop {
                route_index: r,
                stop_index: *stop,
                stop_seq: seq,
                distance_along_route: Distance::from_bits((seq as f64 * 100.0).to_bits()),
            });
        }
        for times in trips {
            let trip_index = route_trips.len();
            let first = trip_stop_times.len();
            for (seq, (arrival, departure)) in times.iter().enumerate() {
                trip_stop_times.push(TripStopTime {
                    trip_index,
                    route_stop_seq: seq,
                    arrival_time: Time::from_epoch_seconds(*arrival),
                    departure_time: Time::from_epoch_seconds(*departure),
                });
            }
            route_trips.push(Trip {
                trip_index,
                route_index: r,
                first_trip_stop_time: first,
                last_trip_stop_time: trip_stop_times.len(),
            });
        }
    }
    let mut stops = Vec::new();
    let mut stop_routes = Vec::new();
    for s in 0..stop_count {
        stops.push(Stop {
            stop_index: s,
            s2cell: s as u64,
            first_stop_route_index: stop_routes.len(),
        });
        for (r, (sequence, _)) in lines.iter().enumerate() {
            for (seq, stop) in sequence.iter().enumerate() {
                if *stop == s {
                    stop_routes.push(StopRoute {
                        route_index: r,
                        stop_seq: seq,
                    });
                }
            }
        }
    }
    let mut tt = MmapTimetable::from_in_memory(
        routes,
        route_stops,
        route_trips,
        stops,
        stop_routes,
        trip_stop_times,
    );
    assert!(tt.is_consistent());
    let mut all: Vec<Vec<Transfer>> = (0..stop_count).map(|_| Vec::new()).collect();
    for (from, to, time) in walks {
        all[from].push(Transfer { to, from, time });
    }
    tt.write_transfers(&all);
    assert!(tt.is_searchable());
    tt
}

/// Two lines joined by a walk from stop 2 to stop 3, and two more that call at their ends.
fn network() -> MmapTimetable {
    timetable(
        7,
        vec![
            (
                vec![0, 1, 2],
                vec![
                    vec![(100, 100), (200, 210), (300, 300)],
                    vec![(400, 400), (500, 510), (600, 600)],
                ],
            ),
            (
                vec![3, 4],
                vec![vec![(350, 350), (450, 450)], vec![(700, 700), (800, 800)]],
            ),
            (vec![1, 5], vec![vec![(250, 250), (350, 350)]]),
            (vec![6, 3], vec![vec![(300, 300), (340, 340)]]),
        ],
        vec![(2, 3, 30), (3, 2, 30)],
    )
}

fn place(n: u64) -> LatLng {
    LatLng {
        lat_bits: n,
        lng_bits: n,
    }
}

fn at(seconds: i64) -> UtcMoment {
    UtcMoment { seconds, nanos: 0 }
}

fn time(seconds: u32) -> Time {
    Time::from_epoch_seconds(seconds)
}

fn summary(itinerary: &SolariItinerary) -> Vec<(char, usize, usize, i64, i64)> {
    itinerary
        .legs
        .iter()
        .map(|leg| match leg {
            SolariLeg::Transit {
                start_time,
                end_time,
                start_stop,
                end_stop,
                ..
            } => ('r', *start_stop, *end_stop, start_time.seconds, end_time.seconds),
            SolariLeg::Transfer {
                start_time,
                end_time,
                start_stop,
                end_stop,
            } => ('w', *start_stop, *end_stop, start_time.seconds, end_time.seconds),
        })
        .collect()
}

#[test]
fn one_ride_forward() {
    let tt = network();
    let router = Router::new(&tt);
    let found = router.route(
        time(50),
        place(1),
        place(2),
        &[(0, 10)],
        vec![(2, 5)],
        None,
        None,
    );
    assert_eq!(found.len(), 1);
    assert_eq!(summary(&found[0]), vec![('r', 0, 2, 100, 300)]);
    assert_eq!(found[0].start_time, at(50));
    assert_eq!(found[0].end_time, at(305));
    assert_eq!(found[0].start_location, place(1));
    assert_eq!(found[0].end_location, place(2));
}

#[test]
fn the_next_vehicle_is_taken_when_one_is_missed() {
    let tt = network();
    let router = Router::new(&tt);
    let found = router.route(
        time(95),
        place(1),
        place(2),
        &[(0, 10)],
        vec![(2, 5)],
        None,
        None,
    );
    assert_eq!(summary(&found[0]), vec![('r', 0, 2, 400, 600)]);
}

#[test]
fn nothing_is_found_after_the_last_vehicle() {
    let tt = network();
    let router = Router::new(&tt);
    let found = router.route(
        time(401),
        place(1),
        place(2),
        &[(0, 0)],
        vec![(2, 5)],
        None,
        None,
    );
    assert!(found.is_empty());
}

#[test]
fn ride_walk_ride_forward() {
    let tt = network();
    let router = Router::new(&tt);
    let found = router.route(
        time(50),
        place(1),
        place(2),
        &[(0, 10)],
        vec![(4, 20)],
        None,
        None,
    );
    assert_eq!(found.len(), 1);
    assert_eq!(
        summary(&found[0]),
        vec![
            ('r', 0, 2, 100, 300),
            ('w', 2, 3, 300, 330),
            ('r', 3, 4, 350, 450)
        ]
    );
    assert_eq!(found[0].end_time, at(470));
}

#[test]
fn ride_walk_ride_backward() {
    let tt = network();
    let router = Router::new(&tt);
    let found = router.route_arrive_by(
        time(500),
        place(1),
        place(2),
        vec![(0, 10)],
        &[(4, 20)],
        None,
        None,
    );
    assert_eq!(found.len(), 1);
    assert_eq!(
        summary(&found[0]),
        vec![
            ('r', 0, 2, 100, 300),
            ('w', 2, 3, 320, 320),
            ('r', 3, 4, 350, 450)
        ]
    );
    assert_eq!(found[0].start_time, at(100));
    assert_eq!(found[0].end_time, at(500));
}

#[test]
fn an_earlier_deadline_cannot_be_met() {
    let tt = network();
    let router = Router::new(&tt);
    let found = router.route_arrive_by(
        time(469),
        place(1),
        place(2),
        vec![(3, 10)],
        &[(4, 20)],
        None,
        None,
    );
    assert!(found.is_empty());
    let found = router.route_arrive_by(
        time(470),
        place(1),
        place(2),
        vec![(3, 10)],
        &[(4, 20)],
        None,
        None,
    );
    assert_eq!(summary(&found[0]), vec![('r', 3, 4, 350, 450)]);
}

#[test]
fn the_number_of_rounds_is_limited() {
    let tt = network();
    let router = Router::new(&tt);
    let two = router.route(
        time(50),
        place(1),
        place(2),
        &[(0, 10)],
        vec![(4, 20)],
        Some(2),
        None,
    );
    assert!(two.is_empty());
    let four = router.route(
        time(50),
        place(1),
        place(2),
        &[(0, 10)],
        vec![(4, 20)],
        Some(4),
        Some(2),
    );
    assert_eq!(four.len(), 1);
}

#[test]
fn legs_can_be_travelled_one_after_the_other() {
    let tt = network();
    let router = Router::new(&tt);
    for found in [
        router.route(
            time(50),
            place(1),
            place(2),
            &[(0, 10)],
            vec![(4, 20)],
            None,
            None,
        ),
        router.route_arrive_by(
            time(500),
            place(1),
            place(2),
            vec![(0, 10)],
            &[(4, 20)],
            None,
            None,
        ),
    ] {
        for itinerary in &found {
            let legs = summary(itinerary);
            assert!(itinerary.start_time.seconds <= legs[0].3);
            assert!(legs[legs.len() - 1].4 <= itinerary.end_time.seconds);
            for leg in &legs {
                assert!(leg.3 <= leg.4);
            }
            for pair in legs.windows(2) {
                assert_eq!(pair[0].2, pair[1].1);
                assert!(pair[0].4 <= pair[1].3);
                assert!(!(pair[0].0 == 'w' && pair[1].0 == 'w'));
            }
        }
    }
}

#[test]
fn later_rounds_know_no_worse_times() {
    let tt = network();
    let mut context = RouterContext::new(&tt, vec![(4, 20)], None, None);
    context.init(time(50), place(1), &[(0, 10)]);
    context.route();
    let rows = &context.best_times_per_round;
    assert_eq!(rows.len(), 6);
    for pair in rows.windows(2) {
        for stop in 0..7 {
            if let Some(before) = pair[0][stop] {
                let after = pair[1][stop].expect("known before");
                assert!(after.final_time.epoch_seconds <= before.final_time.epoch_seconds);
            }
        }
    }
    assert_eq!(context.fewest_rounds_to_target(), Some(3));
}

#[test]
fn rounds_mark_what_they_reach() {
    let tt = network();
    let mut context = RouterContext::new(&tt, vec![(4, 20)], None, None);
    context.init(time(50), place(1), &[(0, 10), (1, 500)]);
    assert_eq!(context.best_times_per_round.len(), 1);
    assert_eq!(
        context.best_times_per_round[0][0].map(|it| it.final_time),
        Some(time(60))
    );
    assert!(context.do_round(1));
    assert_eq!(context.marked_stops[0][0], StopMark::MarkedForTransfersOnly);
    assert_eq!(context.marked_stops[1][2], StopMark::Marked);
    assert_eq!(context.marked_stops[2][3], StopMark::Marked);
    assert_eq!(
        context.best_times_per_round[1][1].map(|it| it.final_time),
        Some(time(200))
    );
    assert_eq!(context.best_times_per_round[1][3], None);
    assert_eq!(
        context.best_times_per_round[2][3].map(|it| it.final_time),
        Some(time(330))
    );
    assert!(context.do_round(2));
    assert_eq!(
        context.best_times_per_round[2][5].map(|it| it.final_time),
        Some(time(350))
    );
    assert!(context.do_round(3));
    assert_eq!(
        context.best_times_per_round[3][4].map(|it| it.final_time),
        Some(time(450))
    );
    assert!(!context.do_round(4));
}

#[test]
fn a_round_without_rides_ends_the_search() {
    let tt = timetable(
        5,
        vec![
            (vec![0, 2], vec![vec![(100, 100), (300, 300)]]),
            (vec![3, 4], vec![vec![(350, 350), (450, 450)]]),
        ],
        vec![(2, 3, 30)],
    );
    let mut context = RouterContext::new(&tt, vec![(4, 0)], None, None);
    context.init(time(50), place(1), &[(0, 0)]);
    context.route();
    assert_eq!(context.best_times_per_round.len(), 4);
    assert_eq!(
        context.best_times_per_round[2][3].map(|it| it.final_time),
        Some(time(330))
    );
    assert_eq!(context.fewest_rounds_to_target(), None);
}

#[test]
fn equal_arrivals_prefer_the_later_departure() {
    let tt = network();
    let mut context = RouterContext::new(&tt, vec![], None, None);
    context.init(time(0), place(1), &[(0, 10)]);
    let stop = InternalStepLocation::Stop(1);
    let from = InternalStepLocation::Stop(0);
    assert!(context.maybe_update_arrival_time_and_route(
        0, &from, time(5), &stop, time(100), None, None, 1
    ));
    assert!(!context.maybe_update_arrival_time_and_route(
        0, &from, time(5), &stop, time(100), None, None, 1
    ));
    assert!(context.maybe_update_arrival_time_and_route(
        0, &from, time(6), &stop, time(100), None, None, 1
    ));
    assert!(!context.maybe_update_arrival_time_and_route(
        0, &from, time(7), &stop, time(101), None, None, 1
    ));
    assert!(!context.maybe_update_arrival_time_and_route(
        0,
        &from,
        time(7),
        &InternalStepLocation::Location(place(9)),
        time(1),
        None,
        None,
        1
    ));
    assert_eq!(context.step_log.len(), 4);
}

#[test]
fn searching_back_equal_departures_are_replaced() {
    let tt = network();
    let mut context = RouterContext::new(&tt, vec![], None, None);
    context.init_backward(time(1000), place(1), &[(4, 10)]);
    assert_eq!(
        context.best_times_per_round[0][4].map(|it| it.final_time),
        Some(time(990))
    );
    let stop = InternalStepLocation::Stop(3);
    let from = InternalStepLocation::Stop(4);
    assert!(context.maybe_update_departure_time(
        0, &from, time(500), &stop, time(500), None, None, 1
    ));
    assert!(context.maybe_update_departure_time(
        0, &from, time(500), &stop, time(500), None, None, 1
    ));
    assert!(!context.maybe_update_departure_time(
        0, &from, time(499), &stop, time(499), None, None, 1
    ));
    assert!(context.maybe_update_departure_time(
        0, &from, time(501), &stop, time(501), None, None, 1
    ));
}

#[test]
fn trips_are_found_by_time() {
    let tt = network();
    let context = RouterContext::new(&tt, vec![], None, None);
    let at_one = tt.route_stops[1];
    assert_eq!(
        context.earliest_trip_from(&at_one, &time(210)).map(|t| t.trip_index),
        Some(0)
    );
    assert_eq!(
        context.earliest_trip_from(&at_one, &time(211)).map(|t| t.trip_index),
        Some(1)
    );
    assert_eq!(context.earliest_trip_from(&at_one, &time(511)), None);
    assert_eq!(
        context.latest_trip_arriving_by(&at_one, &time(500)).map(|t| t.trip_index),
        Some(1)
    );
    assert_eq!(
        context.latest_trip_arriving_by(&at_one, &time(499)).map(|t| t.trip_index),
        Some(0)
    );
    assert_eq!(context.latest_trip_arriving_by(&at_one, &time(199)), None);
}

#[test]
fn marking_keeps_the_earliest_catch() {
    let tt = network();
    let mut marks = vec![TripStopTime::marked(); tt.routes.len()];
    RouterContext::explore_routes_for_marked_stop(&tt, &mut marks, 1, &time(205));
    assert_eq!((marks[0].trip_index, marks[0].route_stop_seq), (0, 1));
    assert_eq!((marks[2].trip_index, marks[2].route_stop_seq), (4, 0));
    assert_eq!(marks[1], TripStopTime::marked());
    RouterContext::explore_routes_for_marked_stop(&tt, &mut marks, 0, &time(90));
    assert_eq!((marks[0].trip_index, marks[0].route_stop_seq), (0, 0));
}

#[test]
fn marking_back_keeps_the_latest_arrival() {
    let tt = network();
    let mut marks = vec![TripStopTime::marked(); tt.routes.len()];
    RouterContext::explore_routes_for_marked_stop_backward(&tt, &mut marks, 1, &time(505));
    assert_eq!((marks[0].trip_index, marks[0].route_stop_seq), (1, 1));
    RouterContext::explore_routes_for_marked_stop_backward(&tt, &mut marks, 2, &time(310));
    assert_eq!((marks[0].trip_index, marks[0].route_stop_seq), (0, 2));
    RouterContext::explore_routes_for_marked_stop_backward(&tt, &mut marks, 2, &time(650));
    assert_eq!((marks[0].trip_index, marks[0].route_stop_seq), (1, 2));
    RouterContext::explore_routes_for_marked_stop_backward(&tt, &mut marks, 2, &time(310));
    assert_eq!((marks[0].trip_index, marks[0].route_stop_seq), (1, 2));
    RouterContext::explore_routes_for_marked_stop_backward(&tt, &mut marks, 2, &time(299));
    assert_eq!((marks[0].trip_index, marks[0].route_stop_seq), (1, 2));
}

#[test]
fn marking_back_keeps_the_stop_nearest_the_end() {
    let early = vec![(10, 10), (20, 20), (30, 30), (40, 40), (50, 50), (100, 100)];
    let late = vec![(130, 130), (140, 140), (150, 150), (160, 160), (170, 170), (180, 180)];
    let tt = timetable(6, vec![(vec![0, 1, 2, 3, 4, 5], vec![early, late])], vec![]);
    let mut marks = vec![TripStopTime::marked(); 1];
    RouterContext::explore_routes_for_marked_stop_backward(&tt, &mut marks, 5, &time(120));
    assert_eq!((marks[0].route_stop_seq, marks[0].arrival_time), (5, time(100)));
    RouterContext::explore_routes_for_marked_stop_backward(&tt, &mut marks, 2, &time(155));
    assert_eq!((marks[0].route_stop_seq, marks[0].arrival_time), (5, time(100)));
    let mut marks = vec![TripStopTime::marked(); 1];
    RouterContext::explore_routes_for_marked_stop_backward(&tt, &mut marks, 2, &time(155));
    assert_eq!((marks[0].route_stop_seq, marks[0].arrival_time), (2, time(150)));
    RouterContext::explore_routes_for_marked_stop_backward(&tt, &mut marks, 5, &time(120));
    assert_eq!((marks[0].route_stop_seq, marks[0].arrival_time), (5, time(100)));
}

#[test]
fn a_vehicle_that_has_left_is_not_boarded() {
    let tt = timetable(
        2,
        vec![(
            vec![0, 1],
            vec![vec![(90, 120), (180, 180)], vec![(100, 200), (260, 260)]],
        )],
        vec![],
    );
    let router = Router::new(&tt);
    let found =
        router.route(time(150), place(1), place(2), &[(0, 0)], vec![(1, 0)], None, Some(1));
    assert_eq!(found.len(), 1);
    assert_eq!(found[0].start_time, at(150));
    assert_eq!(summary(&found[0]), vec![('r', 0, 1, 200, 260)]);
    let found =
        router.route(time(110), place(1), place(2), &[(0, 0)], vec![(1, 0)], None, Some(1));
    assert_eq!(summary(&found[0]), vec![('r', 0, 1, 120, 180)]);
}

#[test]
fn a_route_may_call_twice_at_a_stop() {
    let times = vec![(100, 100), (200, 200), (300, 300), (400, 400), (500, 500)];
    let tt = timetable(3, vec![(vec![0, 1, 0, 2, 1], vec![times])], vec![]);
    let router = Router::new(&tt);
    let on = |start: u32, from: usize, to: usize| {
        let near = [(from, 0)];
        router.route(time(start), place(1), place(2), &near, vec![(to, 0)], None, None)
    };
    assert_eq!(summary(&on(250, 0, 2)[0]), vec![('r', 0, 2, 300, 400)]);
    assert_eq!(summary(&on(50, 0, 2)[0]), vec![('r', 0, 2, 100, 400)]);
    assert_eq!(summary(&on(250, 2, 1)[0]), vec![('r', 2, 1, 400, 500)]);
    assert_eq!(on(301, 0, 2).len(), 0);
    let back = |end: u32, from: usize, to: usize| {
        let near = [(to, 0)];
        router.route_arrive_by(time(end), place(1), place(2), vec![(from, 0)], &near, None, None)
    };
    assert_eq!(summary(&back(550, 2, 1)[0]), vec![('r', 2, 1, 400, 500)]);
    assert_eq!(summary(&back(450, 0, 1)[0]), vec![('r', 0, 1, 100, 200)]);
}

#[test]
fn arrivals_that_cannot_beat_a_target_are_pruned() {
    let tt = network();
    let mut context = RouterContext::new(&tt, vec![(1, 20)], None, None);
    context.init(time(0), place(1), &[(0, 10)]);
    let from = InternalStepLocation::Stop(0);
    let mut offer = |stop: usize, arrival: u32, round: usize| {
        let to = InternalStepLocation::Stop(stop);
        context.maybe_update_arrival_time_and_route(
            round, &from, time(11), &to, time(arrival), None, None, 1
        )
    };
    assert!(offer(3, 500, 0));
    assert!(offer(1, 100, 0));
    assert!(!offer(4, 120, 0));
    assert!(!offer(3, 120, 0));
    assert!(offer(3, 119, 0));
    assert!(!offer(5, 50, 1));
    assert_eq!(context.step_log.len(), 5);
    assert_eq!(context.best_times_per_round[0][4], None);
    assert_eq!(context.best_times_per_round[0][5], None);
    assert_eq!(context.marked_stops[0][4], StopMark::Unmarked);
}

#[test]
fn departures_that_cannot_beat_a_target_are_pruned() {
    let tt = network();
    let mut context = RouterContext::new(&tt, vec![(1, 20)], None, None);
    context.init_backward(time(1000), place(1), &[(4, 10)]);
    let from = InternalStepLocation::Stop(4);
    let mut offer = |stop: usize, departure: u32| {
        let to = InternalStepLocation::Stop(stop);
        let leaves = time(departure);
        context.maybe_update_departure_time(0, &from, leaves, &to, leaves, None, None, 1)
    };
    assert!(offer(3, 100));
    assert!(offer(1, 500));
    assert!(!offer(2, 480));
    assert!(offer(2, 481));
    assert!(!offer(3, 300));
    assert_eq!(context.best_times_per_round[0][3].map(|it| it.final_time), Some(time(100)));
    assert_eq!(context.step_log.len(), 5);
}

#[test]
fn a_walk_alone_beats_slower_rides() {
    let tt = timetable(2, vec![(vec![0, 1], vec![vec![(100, 100), (200, 200)]])], vec![]);
    let router = Router::new(&tt);
    let on = |walk: u32| {
        let targets = vec![(0, walk), (1, 0)];
        router.route(time(50), place(1), place(2), &[(0, 10)], targets, None, None)
    };
    assert_eq!(on(140).len(), 0);
    assert_eq!(summary(&on(141)[0]), vec![('r', 0, 1, 100, 200)]);
}

#[test]
fn a_search_follows_nothing_that_a_target_beats() {
    let tt = timetable(
        4,
        vec![
            (vec![0, 1], vec![vec![(100, 100), (200, 200)]]),
            (vec![0, 2, 3], vec![vec![(150, 150), (210, 210), (300, 300)]]),
        ],
        vec![],
    );
    let mut context = RouterContext::new(&tt, vec![(1, 10)], None, None);
    context.init(time(50), place(1), &[(0, 0)]);
    assert!(context.do_round(1));
    assert_eq!(
        context.best_times_per_round[1][1].map(|it| it.final_time),
        Some(time(200))
    );
    assert_eq!(context.best_times_per_round[1][2], None);
    assert_eq!(context.best_times_per_round[1][3], None);
    assert!(!context.do_round(2));
    assert!(!context.do_round(3));
}

#[test]
fn itineraries_are_shown_by_arrival() {
    let tt = timetable(
        3,
        vec![
            (vec![0, 1], vec![vec![(100, 100), (200, 200)]]),
            (vec![0, 2], vec![vec![(100, 100), (190, 190)]]),
        ],
        vec![],
    );
    let targets = vec![(1usize, 10u32), (2usize, 25u32)];
    let mut context = RouterContext::new(&tt, targets.clone(), None, None);
    context.init(time(50), place(1), &[(0, 0)]);
    context.route();
    let its = pick_best_itineraries(&context, &targets);
    let ends: Vec<u32> = its.iter().map(|it| it.final_time.epoch_seconds).collect();
    assert_eq!(ends, vec![190, 200]);
    let log = &context.step_log;
    assert_eq!(log[its[0].last_step].to, InternalStepLocation::Stop(2));
    let told = unwind_itinerary(&context, &its[0], time(50), &targets, place(1), place(2));
    assert_eq!(told.end_time, at(215));
}

#[test]
fn itineraries_back_are_shown_by_departure() {
    let tt = timetable(
        4,
        vec![
            (vec![0, 3], vec![vec![(100, 100), (400, 400)]]),
            (vec![1, 3], vec![vec![(150, 150), (400, 400)]]),
            (vec![2, 1], vec![vec![(120, 120), (140, 140)]]),
        ],
        vec![],
    );
    let starts = vec![(0usize, 10u32), (2usize, 5u32)];
    let mut context = RouterContext::new(&tt, starts.clone(), None, None);
    context.init_backward(time(500), place(2), &[(3, 0)]);
    context.route_backward();
    let its = pick_best_itineraries_backward(&context, &starts);
    let starts_at: Vec<u32> = its.iter().map(|it| it.final_time.epoch_seconds).collect();
    assert_eq!(starts_at, vec![120, 100]);
}

#[test]
fn a_final_walk_is_weighed() {
    let tt = network();
    let mut context = RouterContext::new(&tt, vec![], None, None);
    context.init(time(50), place(1), &[(0, 11)]);
    let it = InternalItinerary {
        last_step: 1,
        final_time: time(61),
    };
    assert_eq!(cost_scaling_final_transfer(&context, &it, 1), 55);
    assert_eq!(cost_scaling_final_transfer(&context, &it, 2), 61);
    assert_eq!(cost_scaling_final_transfer(&context, &it, 4), 72);
}

#[test]
fn times_saturate() {
    assert_eq!(time(u32::MAX - 1).plus_seconds(5), time(u32::MAX));
    assert_eq!(time(3).plus_seconds(5), time(8));
    assert_eq!(time(3).minus_seconds(5), Time::epoch());
    assert_eq!(time(8).minus_seconds(5), time(3));
}

#[test]
fn nearest_stops_are_taken_up_to_the_limits() {
    let tt = network();
    let router = Router::new(&tt);
    let d = |m: f64| Distance::from_bits(m.to_bits());
    let found = [(4, d(1.0)), (2, d(20.0)), (0, d(20.5)), (1, d(300.0))];
    let ids = |stops: Vec<Stop>| stops.iter().map(|s| s.stop_index).collect::<Vec<_>>();
    assert_eq!(ids(router.nearest_stops(&found, Some(2), None)), vec![4, 2]);
    assert_eq!(ids(router.nearest_stops(&found, None, Some(d(20.0)))), vec![4, 2]);
    assert_eq!(ids(router.nearest_stops(&found, Some(3), Some(d(1e9)))), vec![4, 2, 0]);
    assert_eq!(ids(router.nearest_stops(&found, Some(0), None)), Vec::<usize>::new());
    assert_eq!(
        ids(router.nearest_stops(&found, None, Some(d(f64::NAN)))),
        vec![4, 2, 0, 1]
    );
}

#[test]
fn vehicles_may_overtake() {
    let tt = timetable(
        2,
        vec![(
            vec![0, 1],
            vec![vec![(100, 100), (500, 500)], vec![(200, 200), (300, 300)]],
        )],
        vec![],
    );
    let router = Router::new(&tt);
    let found = router.route(time(50), place(1), place(2), &[(0, 0)], vec![(1, 0)], None, None);
    assert_eq!(summary(&found[0]), vec![('r', 0, 1, 100, 500)]);
    let found = router.route(time(150), place(1), place(2), &[(0, 0)], vec![(1, 0)], None, None);
    assert_eq!(summary(&found[0]), vec![('r', 0, 1, 200, 300)]);
}

#[test]
fn searchable_timetables_are_told_from_others() {
    let mut tt = network();
    tt.trip_stop_times[0].route_stop_seq = 1;
    assert!(!tt.is_searchable());
    let mut tt = network();
    tt.stop_routes[0].stop_seq = 1;
    assert!(!tt.is_searchable());
    let mut tt = network();
    tt.transfers[0].to = 99;
    assert!(tt.is_consistent());
    assert!(!tt.is_searchable());
    let mut tt = network();
    tt.routes[1].first_route_stop = 100;
    assert!(!tt.is_consistent());
}
