use seatsim::models::{CustomerConfig, SeatConfig, SeatType};
use seatsim::monitor::MonitorState;
use seatsim::policy::try_allocate;

fn seat(id: &str, t: SeatType, accessible: bool) -> SeatConfig {
    SeatConfig { id: id.to_string(), type_: t, is_wheelchair_accessible: accessible, label: None }
}

fn customer(id: u32, arrival: u64, size: u32, baby: u32, wheel: u32, dur: u64) -> CustomerConfig {
    CustomerConfig {
        id,
        family_id: id,
        arrival_time: arrival,
        type_: String::from("FAMILY"),
        party_size: size,
        baby_chair_count: baby,
        wheelchair_count: wheel,
        est_dining_time: dur,
    }
}

#[test]
fn wheelchair_party_gets_accessible_table_not_counter_seat() {
    let seats = vec![
        seat("S01", SeatType::Single, false),
        seat("S02", SeatType::Single, false),
        seat("T01", SeatType::Table4, false),
        seat("T02", SeatType::Table4, true),
    ];
    let m = MonitorState::new(seats, 2, 2);
    let c = customer(1, 0, 2, 0, 1, 10);
    let got = try_allocate(&m, &c).unwrap();
    assert_eq!(got, vec![3usize]);
}

#[test]
fn wheelchair_party_refused_without_accessible_table() {
    let seats = vec![
        seat("S01", SeatType::Single, true),
        seat("T01", SeatType::Table4, false),
    ];
    let m = MonitorState::new(seats, 2, 2);
    let c = customer(1, 0, 1, 0, 1, 10);
    // an accessible counter seat does not qualify
    assert!(try_allocate(&m, &c).is_none());
}

#[test]
fn multi_person_party_takes_first_fitting_table() {
    let seats = vec![
        seat("S01", SeatType::Single, false),
        seat("T6", SeatType::Table6, false),
        seat("T4", SeatType::Table4, false),
    ];
    let m = MonitorState::new(seats, 0, 0);
    // a party of 3 fits at the six-table, which comes first in registry order
    let c = customer(1, 0, 3, 0, 0, 10);
    assert_eq!(try_allocate(&m, &c).unwrap(), vec![1usize]);
    // a party of 5 only fits the six-table
    let c5 = customer(2, 0, 5, 0, 0, 10);
    assert_eq!(try_allocate(&m, &c5).unwrap(), vec![1usize]);
}

#[test]
fn party_of_four_falls_back_to_contiguous_singles() {
    let seats = vec![
        seat("S01", SeatType::Single, false),
        seat("S02", SeatType::Single, false),
        seat("S03", SeatType::Single, false),
        seat("S04", SeatType::Single, false),
        seat("S05", SeatType::Single, false),
    ];
    let m = MonitorState::new(seats, 0, 0);
    let c = customer(1, 0, 4, 0, 0, 10);
    assert_eq!(try_allocate(&m, &c).unwrap(), vec![0usize, 1, 2, 3]);
}

#[test]
fn contiguity_is_over_single_seat_order() {
    // a table between counter seats does not break the run of singles
    let seats = vec![
        seat("S01", SeatType::Single, false),
        seat("S02", SeatType::Single, false),
        seat("T01", SeatType::Table6, true),
        seat("S03", SeatType::Single, false),
        seat("S04", SeatType::Single, false),
    ];
    let mut m = MonitorState::new(seats, 0, 0);
    // occupy the table so the party of four cannot take it
    let first = customer(7, 0, 5, 0, 0, 10);
    m.record_arrival(&first);
    let (got, _) = m.seat_party(&first).unwrap();
    assert_eq!(got, vec![2usize]);
    let c = customer(1, 0, 4, 0, 0, 10);
    assert_eq!(try_allocate(&m, &c).unwrap(), vec![0usize, 1, 3, 4]);
}

#[test]
fn party_of_five_refused_when_only_singles_free() {
    let seats = vec![
        seat("S01", SeatType::Single, false),
        seat("S02", SeatType::Single, false),
        seat("S03", SeatType::Single, false),
        seat("S04", SeatType::Single, false),
        seat("S05", SeatType::Single, false),
    ];
    let m = MonitorState::new(seats, 0, 0);
    // only a party of exactly four may fall back to counter seats
    let c = customer(1, 0, 5, 0, 0, 10);
    assert!(try_allocate(&m, &c).is_none());
}

#[test]
fn single_person_prefers_counter_seat_then_any_table() {
    let seats = vec![
        seat("T4", SeatType::Table4, false),
        seat("S01", SeatType::Single, false),
    ];
    let m = MonitorState::new(seats, 0, 0);
    let c = customer(1, 0, 1, 0, 0, 10);
    assert_eq!(try_allocate(&m, &c).unwrap(), vec![1usize]);

    let seats2 = vec![seat("T4", SeatType::Table4, false)];
    let m2 = MonitorState::new(seats2, 0, 0);
    assert_eq!(try_allocate(&m2, &c).unwrap(), vec![0usize]);
}

#[test]
fn pool_deficit_refuses_before_seat_search() {
    let seats = vec![seat("T4", SeatType::Table4, true)];
    let m = MonitorState::new(seats, 0, 1);
    let needs_baby = customer(1, 0, 2, 1, 0, 10);
    assert!(try_allocate(&m, &needs_baby).is_none());
    let needs_two_wheels = customer(2, 0, 2, 0, 2, 10);
    assert!(try_allocate(&m, &needs_two_wheels).is_none());
    let needs_one_wheel = customer(3, 0, 2, 0, 1, 10);
    assert!(try_allocate(&m, &needs_one_wheel).is_some());
}
