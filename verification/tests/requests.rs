use solari::api::plan::{debug_stop, debug_stop_limit, plan, time_of, MAX_DISTANCE_BITS};
use solari::api::request::{
    deserialize_optional_millis, serialize_optional_millis, SolariRequest, TransferMode,
    TransferQuantity,
};
use solari::moments::{OutOfRange, UtcMoment, FIRST_SECOND, LAST_SECOND};
use solari::route::context::LatLng;
use solari::timetable::distance::Distance;
use solari::timetable::{MmapTimetable, Stop, Time, Transfer};

fn at(seconds: i64, nanos: u32) -> UtcMoment {
    UtcMoment { seconds, nanos }
}

fn request() -> SolariRequest {
    let nowhere = LatLng {
        lat_bits: 0,
        lng_bits: 0,
    };
    SolariRequest {
        from: nowhere,
        to: nowhere,
        start_at: None,
        end_at: None,
        transfer_mode: TransferMode::default(),
        max_transfers: TransferQuantity::default(),
    }
}

#[test]
fn requests_default_to_walking_and_any_number_of_transfers() {
    assert_eq!(TransferMode::default(), TransferMode::Walking);
    assert_eq!(TransferQuantity::default(), TransferQuantity(usize::MAX));
}

#[test]
fn moments_are_read_from_milliseconds() {
    assert_eq!(
        deserialize_optional_millis(Some(1742845000000)),
        Ok(Some(at(1742845000, 0)))
    );
    assert_eq!(
        deserialize_optional_millis(Some(1742845000123)),
        Ok(Some(at(1742845000, 123_000_000)))
    );
    assert_eq!(deserialize_optional_millis(Some(-1)), Ok(Some(at(-1, 999_000_000))));
    assert_eq!(deserialize_optional_millis(None), Ok(None));
    assert_eq!(deserialize_optional_millis(Some(i64::MAX)), Err(OutOfRange {}));
    assert_eq!(deserialize_optional_millis(Some(i64::MIN)), Err(OutOfRange {}));
}

#[test]
fn moments_reach_from_year_to_year() {
    assert_eq!(UtcMoment::from_unix_timestamp(FIRST_SECOND), Ok(at(FIRST_SECOND, 0)));
    assert_eq!(UtcMoment::from_unix_timestamp(LAST_SECOND), Ok(at(LAST_SECOND, 0)));
    assert_eq!(UtcMoment::from_unix_timestamp(FIRST_SECOND - 1), Err(OutOfRange {}));
    assert_eq!(UtcMoment::from_unix_timestamp(LAST_SECOND + 1), Err(OutOfRange {}));
    let end = (LAST_SECOND as i128 + 1) * 1_000_000_000;
    assert_eq!(
        UtcMoment::from_unix_timestamp_nanos(end - 1),
        Ok(at(LAST_SECOND, 999_999_999))
    );
    assert_eq!(UtcMoment::from_unix_timestamp_nanos(end), Err(OutOfRange {}));
    let begin = FIRST_SECOND as i128 * 1_000_000_000;
    assert_eq!(UtcMoment::from_unix_timestamp_nanos(begin), Ok(at(FIRST_SECOND, 0)));
    assert_eq!(UtcMoment::from_unix_timestamp_nanos(begin - 1), Err(OutOfRange {}));
    assert_eq!(UtcMoment::from_unix_timestamp_nanos(-1), Ok(at(-1, 999_999_999)));
    assert_eq!(UtcMoment::of_time(Time::from_epoch_seconds(u32::MAX)), at(4294967295, 0));
}

#[test]
fn moments_are_written_as_they_were_read() {
    for ms in [0i64, 1, -1, 999, -999, 1742845000123, -62135596800001] {
        let moment = deserialize_optional_millis(Some(ms)).expect("in range");
        assert_eq!(serialize_optional_millis(&moment), Some(ms));
    }
    assert_eq!(serialize_optional_millis(&None), None);
}

#[test]
fn fractions_of_milliseconds_are_dropped() {
    assert_eq!(serialize_optional_millis(&Some(at(1, 1_999_999))), Some(1001));
    assert_eq!(serialize_optional_millis(&Some(at(-1, 999_999_999))), Some(0));
    assert_eq!(serialize_optional_millis(&Some(at(-2, 500_000_001))), Some(-1499));
}

#[test]
fn a_deadline_wins_over_a_start() {
    assert_eq!(f64::from_bits(MAX_DISTANCE_BITS), 1500.0);
    let now = at(77, 5);
    let mut r = request();
    let q = plan(&r, &now);
    assert_eq!((q.time, q.arrive_by), (Time::from_epoch_seconds(77), false));
    assert_eq!((q.max_candidate_stops, q.max_steps, q.max_step_delta), (1000, 5, 2));
    assert_eq!(q.max_distance, Distance::from_bits(1500f64.to_bits()));
    r.start_at = Some(at(500, 0));
    r.max_transfers = TransferQuantity(3);
    let q = plan(&r, &now);
    assert_eq!((q.time, q.arrive_by, q.max_steps), (Time::from_epoch_seconds(500), false, 3));
    r.end_at = Some(at(900, 0));
    let q = plan(&r, &now);
    assert_eq!((q.time, q.arrive_by), (Time::from_epoch_seconds(900), true));
}

#[test]
fn seconds_beyond_32_bits_wrap() {
    for seconds in [0i64, -1, -2, 4294967295, 4294967296, -4294967296, -4294967297, i64::MIN, i64::MAX] {
        assert_eq!(time_of(&at(seconds, 0)).epoch_seconds(), seconds as u32);
    }
}

#[test]
fn stops_are_told_with_their_transfers() {
    let stops = (0..2)
        .map(|s| Stop {
            stop_index: s,
            s2cell: 0,
            first_stop_route_index: 0,
        })
        .collect();
    let mut tt = MmapTimetable::from_in_memory(vec![], vec![], vec![], stops, vec![], vec![]);
    tt.write_transfers(&vec![
        vec![],
        vec![Transfer {
            to: 0,
            from: 1,
            time: 61,
        }],
    ]);
    let told = debug_stop(&tt, 1);
    assert_eq!((told.id, told.transfer_count), (1, 1));
    assert_eq!(
        (told.transfers_to[0].to_stop_id, told.transfers_to[0].duration_seconds),
        (0, 61)
    );
    assert_eq!(debug_stop(&tt, 0).transfer_count, 0);
    assert_eq!(debug_stop_limit(None), 100);
    assert_eq!(debug_stop_limit(Some(3)), 3);
}
