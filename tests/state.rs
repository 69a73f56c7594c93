use ogn_tracker::ddb::Aircraft;
use ogn_tracker::nearby::nearest_first;
use ogn_tracker::pipeline::{next_step, NextStep, SessionEnd};
use ogn_tracker::store::{get_current_timestamp, App, Status, MAX_AGE_DIFF};

#[derive(Clone, Debug, PartialEq)]
struct Position {
    latitude: f32,
    longitude: f32,
}

fn create_status(aircraft_id: String, position: Position, time_stamp: u64) -> Status<Position> {
    Status {
        aircraft: Aircraft {
            id: aircraft_id,
            call_sign: None,
            registration: None,
            model: None,
            visible: true,
        },
        report: position,
        time_stamp,
    }
}

fn paris() -> Position {
    Position {
        latitude: 48.858222,
        longitude: 2.2945,
    }
}

#[test]
fn get_overview_works() {
    let mut sut = App::create();

    let result_empty = sut.get_overview();

    let current_timestamp = get_current_timestamp();

    let position = paris();

    sut.push_status(create_status(
        String::from("AB1234"),
        position.clone(),
        current_timestamp - 50,
    ));

    sut.push_status(create_status(
        String::from("CD5678"),
        position.clone(),
        current_timestamp,
    ));

    sut.push_last_aprs_update_timestamp(current_timestamp);

    let result_filled = sut.get_overview();

    assert_eq!(result_empty.count, 0);
    assert_eq!(result_empty.last_status_update, None);
    assert_eq!(result_empty.last_aprs_update, None);

    assert_eq!(result_filled.count, 2);
    assert_eq!(result_filled.last_status_update, Some(current_timestamp));
    assert_eq!(result_filled.last_aprs_update, Some(current_timestamp));
}

#[test]
fn outdated_status_is_removed_on_push() {
    let mut sut = App::create();
    let now: u64 = 1_000_000;
    sut.push_status_at(create_status(String::from("AB1234"), paris(), now), now);
    sut.push_status_at(
        create_status(String::from("CD5678"), paris(), now - MAX_AGE_DIFF - 1),
        now,
    );
    sut.remove_outdated_states(now);
    let ids: Vec<String> = sut.states().iter().map(|s| s.aircraft.id.clone()).collect();
    assert_eq!(ids, vec![String::from("AB1234")]);
}

#[test]
fn expiry_boundary_is_inclusive() {
    let mut sut = App::create();
    let stamp: u64 = 5_000;
    sut.push_status_at(create_status(String::from("AB1234"), paris(), stamp), stamp);
    assert_eq!(sut.get_overview_at(stamp + MAX_AGE_DIFF).count, 1);
    assert_eq!(sut.get_overview_at(stamp + MAX_AGE_DIFF + 1).count, 0);
}

#[test]
fn future_time_stamp_is_not_outdated() {
    let mut sut = App::create();
    sut.push_status_at(create_status(String::from("AB1234"), paris(), 9_000), 100);
    let overview = sut.get_overview_at(100);
    assert_eq!(overview.count, 1);
    assert_eq!(overview.last_status_update, Some(9_000));
}

#[test]
fn upsert_same_id_keeps_size_and_latest() {
    let mut sut = App::create();
    let now: u64 = 2_000;
    sut.push_status_at(create_status(String::from("AB1234"), paris(), now - 10), now);
    sut.push_status_at(create_status(String::from("CD5678"), paris(), now - 5), now);
    let moved = Position {
        latitude: 50.0,
        longitude: 8.0,
    };
    sut.push_status_at(create_status(String::from("AB1234"), moved.clone(), now), now);
    assert_eq!(sut.states().len(), 2);
    let stored: Vec<&Status<Position>> = sut
        .states()
        .iter()
        .filter(|s| s.aircraft.id == "AB1234")
        .collect();
    assert_eq!(stored.len(), 1);
    assert_eq!(stored[0].report, moved);
    assert_eq!(stored[0].time_stamp, now);
}

#[test]
fn overview_counts_distinct_live_ids() {
    let mut sut = App::create();
    let now: u64 = 10_000;
    sut.push_status_at(create_status(String::from("A"), paris(), now - 400), now - 400);
    sut.push_status_at(create_status(String::from("B"), paris(), now - 100), now - 100);
    sut.push_status_at(create_status(String::from("B"), paris(), now - 20), now - 20);
    sut.push_status_at(create_status(String::from("C"), paris(), now - 300), now - 20);
    let overview = sut.get_overview_at(now);
    assert_eq!(overview.count, 2);
    assert_eq!(overview.last_status_update, Some(now - 20));
    assert_eq!(overview.last_aprs_update, None);
}

#[test]
fn aprs_update_is_recorded_as_given() {
    let mut sut: App<Position> = App::create();
    sut.push_last_aprs_update_timestamp(0);
    assert_eq!(sut.get_overview_at(10).last_aprs_update, Some(0));
    sut.push_last_aprs_update_timestamp(42);
    assert_eq!(sut.get_overview_at(10).last_aprs_update, Some(42));
}

#[test]
fn nearest_first_filters_and_sorts() {
    let candidates = vec![(4_500u32, "EF9012"), (3_160u32, "CD5678"), (0u32, "AB1234")];
    let result = nearest_first(candidates, 4_000);
    assert_eq!(result, vec![(0u32, "AB1234"), (3_160u32, "CD5678")]);
}

#[test]
fn nearest_first_keeps_range_boundary() {
    let candidates = vec![(7u32, 'c'), (5u32, 'a'), (6u32, 'b'), (5u32, 'd'), (8u32, 'e')];
    let result = nearest_first(candidates, 7);
    let keys: Vec<u32> = result.iter().map(|c| c.0).collect();
    assert_eq!(keys, vec![5, 5, 6, 7]);
    let mut items: Vec<char> = result.iter().map(|c| c.1).collect();
    items.sort();
    assert_eq!(items, vec!['a', 'b', 'c', 'd']);
}

#[test]
fn nearest_first_on_empty_input() {
    let candidates: Vec<(u32, u8)> = Vec::new();
    assert!(nearest_first(candidates, u32::MAX).is_empty());
}

#[test]
fn disconnect_leads_to_reconnect_and_failure_to_shutdown() {
    assert_eq!(next_step(SessionEnd::Disconnected), NextStep::Reconnect);
    assert_eq!(next_step(SessionEnd::Failed), NextStep::Shutdown);
}
