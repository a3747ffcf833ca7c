use solari::route::context::{InternalStep, InternalStepLocation, LatLng};
use solari::route::itineraries::SolariLeg;
use solari::moments::UtcMoment;
use solari::route::shapes::{between_segments, clip_shape, clip_shape_backward};
use solari::timetable::distance::{f64_to_u32, Distance};
use solari::timetable::{
    MmapTimetable, Route, RouteStop, Stop, StopRoute, Time, Trip,
};

fn d(m: f64) -> Distance {
    Distance::from_bits(m.to_bits())
}

fn line() -> MmapTimetable {
    let route_stops = (0..3)
        .map(|seq| RouteStop {
            route_index: 0,
            stop_index: seq,
            stop_seq: seq,
            distance_along_route: d(seq as f64 * 10.0),
        })
        .collect();
    let stops = (0..4)
        .map(|s| Stop {
            stop_index: s,
            s2cell: 0,
            first_stop_route_index: if s < 3 { s } else { 3 },
        })
        .collect();
    let stop_routes = (0..3)
        .map(|seq| StopRoute {
            route_index: 0,
            stop_seq: seq,
        })
        .collect();
    let tt = MmapTimetable::from_in_memory(
        vec![Route {
            route_index: 0,
            first_route_stop: 0,
            first_route_trip: 0,
        }],
        route_stops,
        vec![],
        stops,
        stop_routes,
        vec![],
    );
    assert!(tt.is_consistent());
    tt
}

fn step(from: usize, to: usize, ride: bool) -> InternalStep {
    InternalStep {
        previous_step: 1,
        round: 1,
        from: InternalStepLocation::Stop(from),
        to: InternalStepLocation::Stop(to),
        route: if ride {
            Some(Route {
                route_index: 0,
                first_route_stop: 0,
                first_route_trip: 0,
            })
        } else {
            None
        },
        departure: Time::epoch(),
        arrival: Time::epoch(),
        trip: None,
    }
}

#[test]
fn shapes_are_clipped_to_the_ride() {
    let tt = line();
    let shape = vec![
        Some(d(0.0)),
        Some(d(5.0)),
        Some(d(10.0)),
        None,
        Some(d(f64::NAN)),
        Some(d(19.0)),
        Some(d(20.0)),
        Some(d(25.0)),
    ];
    assert_eq!(clip_shape(&tt, &step(1, 2, true), Some(&shape)), Some((2, 6)));
    assert_eq!(clip_shape(&tt, &step(0, 2, true), Some(&shape)), Some((0, 6)));
    assert_eq!(clip_shape_backward(&tt, &step(2, 1, true), Some(&shape)), Some((2, 6)));
    assert_eq!(clip_shape(&tt, &step(2, 1, true), Some(&shape)), Some((6, 6)));
    assert_eq!(clip_shape(&tt, &step(1, 2, true), None), None);
    assert_eq!(clip_shape(&tt, &step(1, 2, false), Some(&shape)), None);
    assert_eq!(clip_shape(&tt, &step(1, 3, true), Some(&shape)), None);
    let leg = SolariLeg::Transit {
        start_time: UtcMoment { seconds: 0, nanos: 0 },
        end_time: UtcMoment { seconds: 0, nanos: 0 },
        start_stop: 1,
        end_stop: 2,
        route: Route {
            route_index: 0,
            first_route_stop: 0,
            first_route_trip: 0,
        },
        trip: Trip {
            trip_index: 0,
            route_index: 0,
            first_trip_stop_time: 0,
            last_trip_stop_time: 0,
        },
    };
    assert_eq!(leg.clip(&tt, Some(&shape)), Some((2, 6)));
}

#[test]
fn a_ride_from_a_named_place_has_no_shape() {
    let tt = line();
    let mut from_place = step(0, 1, true);
    from_place.from = InternalStepLocation::Location(LatLng {
        lat_bits: 0,
        lng_bits: 0,
    });
    assert_eq!(clip_shape(&tt, &from_place, Some(&vec![Some(d(0.0))])), None);
}

#[test]
fn points_between_segments() {
    assert_eq!(between_segments(10, 2, 5), (3, 6));
    assert_eq!(between_segments(10, 2, 2), (3, 3));
    assert_eq!(between_segments(4, 2, 9), (3, 4));
    assert_eq!(between_segments(0, 0, 0), (0, 0));
}

#[test]
fn positions_of_steps() {
    let here = LatLng {
        lat_bits: 1,
        lng_bits: 2,
    };
    let there = LatLng {
        lat_bits: 3,
        lng_bits: 4,
    };
    assert_eq!(InternalStepLocation::Stop(1).latlng(&[here, there]), there);
    assert_eq!(InternalStepLocation::Location(here).latlng(&[]), here);
}

#[test]
fn distances_compare_as_doubles_do() {
    let values = [
        f64::NEG_INFINITY,
        -2.5,
        -0.0,
        0.0,
        5e-324,
        1.0,
        1500.0,
        f64::INFINITY,
        f64::NAN,
        -f64::NAN,
    ];
    for a in values {
        for b in values {
            assert_eq!(d(a).is_below(&d(b)), a < b);
        }
    }
}

#[test]
fn distances_have_bit_patterns() {
    for v in [0.0, 12.5, -12.5, f64::INFINITY, f64::NEG_INFINITY, 5e-324] {
        assert_eq!(f64::from_bits(d(v).to_bits()), v);
    }
    assert!(f64::from_bits(d(f64::NAN).to_bits()).is_nan());
    assert_eq!(d(-0.0), d(0.0));
}

#[test]
fn whole_parts_of_doubles() {
    for v in [
        0.0,
        -0.0,
        0.5,
        0.999,
        1.0,
        1.5,
        2.0,
        1234.75,
        4294967294.9,
        4294967295.0f64,
    ] {
        assert_eq!(f64_to_u32(v.to_bits()).ok(), Some(v as u32));
    }
    for v in [-1.0f64, -5e-324, 4294967295.5, 1e12, f64::INFINITY, f64::NAN] {
        assert!(f64_to_u32(v.to_bits()).is_err());
    }
}
