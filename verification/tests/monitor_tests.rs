use seatsim::errors::AppError;
use seatsim::models::{Action, CustomerConfig, SeatConfig, SeatType};
use seatsim::monitor::{validate_config, MonitorState};

fn seat(id: &str, t: SeatType, accessible: bool) -> SeatConfig {
    SeatConfig { id: id.to_string(), type_: t, is_wheelchair_accessible: accessible, label: None }
}

fn customer(id: u32, arrival: u64, size: u32, baby: u32, wheel: u32, dur: u64) -> CustomerConfig {
    CustomerConfig {
        id,
        family_id: id,
        arrival_time: arrival,
        type_: String::from("FAMILY"),
        party_size: size,
        baby_chair_count: baby,
        wheelchair_count: wheel,
        est_dining_time: dur,
    }
}

fn kind(a: &Action) -> &'static str {
    match a {
        Action::Arrive => "ARRIVAL",
        Action::Wait => "WAITING",
        Action::Sit(_) => "SEATED",
        Action::Leave(_) => "LEFT",
        Action::Error(_) => "ERROR",
    }
}

#[test]
fn solo_party_seats_at_arrival_and_leaves_after_duration() {
    // two single-occupant seats, one party of one, no consumables
    let seats = vec![
        seat("S01", SeatType::Single, false),
        seat("S02", SeatType::Single, false),
    ];
    let mut m = MonitorState::new(seats, 4, 2);
    let c = customer(1, 0, 1, 0, 0, 30);
    m.record_arrival(&c);
    let (got, sit_time) = m.seat_party(&c).unwrap();
    assert_eq!(got, vec![0usize]);
    assert_eq!(sit_time, 0);
    m.release_party(&c, &got, sit_time);
    let kinds: Vec<&str> = m.events.iter().map(|e| kind(&e.action)).collect();
    assert_eq!(kinds, vec!["ARRIVAL", "SEATED", "LEFT"]);
    assert_eq!(m.events[1].time, 0);
    assert_eq!(m.events[2].time, 30);
    assert!(m.seats.iter().all(|s| s.occupied_by.is_none()));
}

#[test]
fn second_party_waits_and_seats_at_the_first_leave_time() {
    // one 4-capacity table; parties of four arrive at 0 and at 5
    let seats = vec![seat("T01", SeatType::Table4, false)];
    let mut m = MonitorState::new(seats, 4, 2);
    let a = customer(1, 0, 4, 0, 0, 10);
    let b = customer(2, 5, 4, 0, 0, 10);
    m.record_arrival(&a);
    let (seats_a, sit_a) = m.seat_party(&a).unwrap();
    assert_eq!(sit_a, 0);
    m.record_arrival(&b);
    assert!(m.seat_party(&b).is_none());
    m.append_waiting(&b);
    m.release_party(&a, &seats_a, sit_a);
    assert_eq!(m.events.last().unwrap().time, 10);
    // woken up after the release, the second party retries and seats at the
    // first party's leave timestamp, never earlier than its own arrival
    let (seats_b, sit_b) = m.seat_party(&b).unwrap();
    assert_eq!(seats_b, vec![0usize]);
    assert_eq!(sit_b, 10);
    m.release_party(&b, &seats_b, sit_b);
    assert_eq!(m.events.last().unwrap().time, 20);
}

#[test]
fn accessibility_party_waits_for_the_occupied_accessible_table() {
    // the only accessibility-capable table is held by a non-accessibility
    // party of two; two single seats are free, but they are never eligible
    let seats = vec![
        seat("S01", SeatType::Single, false),
        seat("S02", SeatType::Single, false),
        seat("T01", SeatType::Table4, true),
    ];
    let mut m = MonitorState::new(seats, 4, 2);
    let owner = customer(1, 0, 2, 0, 0, 8);
    m.record_arrival(&owner);
    let (seats_owner, sit_owner) = m.seat_party(&owner).unwrap();
    assert_eq!(seats_owner, vec![2usize]);
    let acc = customer(2, 1, 2, 0, 1, 5);
    m.record_arrival(&acc);
    assert!(m.seat_party(&acc).is_none());
    m.append_waiting(&acc);
    m.release_party(&owner, &seats_owner, sit_owner);
    let (seats_acc, sit_acc) = m.seat_party(&acc).unwrap();
    assert_eq!(seats_acc, vec![2usize]);
    assert_eq!(sit_acc, 8);
}

#[test]
fn party_needing_unavailable_attachment_times_out_without_seating() {
    // the pool has no infant-seat attachments and is never replenished
    let seats = vec![
        seat("S01", SeatType::Single, false),
        seat("T01", SeatType::Table4, false),
    ];
    let mut m = MonitorState::new(seats, 0, 0);
    let c = customer(9, 2, 1, 1, 0, 10);
    m.record_arrival(&c);
    assert!(m.seat_party(&c).is_none());
    m.append_waiting(&c);
    // the bounded wait fires; the party is marked failed
    m.record_timeout(&c);
    let kinds: Vec<&str> = m.events.iter().map(|e| kind(&e.action)).collect();
    assert_eq!(kinds, vec!["ARRIVAL", "WAITING", "ERROR"]);
    assert_eq!(m.events[2].time, 2 + 999);
    match &m.events[2].action {
        Action::Error(tag) => assert_eq!(tag, "TIMEOUT"),
        _ => panic!("expected the timeout record"),
    }
    assert_eq!(m.events[2].log_message, "[TIMEOUT] Customer 9 gave up.");
    // no SEATED event ever appears for that party
    assert!(m.events.iter().all(|e| !matches!(e.action, Action::Sit(_))));
    assert!(m.seats.iter().all(|s| s.occupied_by.is_none()));
}

#[test]
fn no_seat_is_granted_twice_while_occupied() {
    let seats = vec![
        seat("S01", SeatType::Single, false),
        seat("S02", SeatType::Single, false),
    ];
    let mut m = MonitorState::new(seats, 0, 0);
    let a = customer(1, 0, 1, 0, 0, 10);
    let b = customer(2, 0, 1, 0, 0, 10);
    m.record_arrival(&a);
    m.record_arrival(&b);
    let (sa, _) = m.seat_party(&a).unwrap();
    let (sb, _) = m.seat_party(&b).unwrap();
    assert_eq!(sa, vec![0usize]);
    assert_eq!(sb, vec![1usize]);
    // with both seats held, a third party is refused outright
    let c = customer(3, 0, 1, 0, 0, 10);
    m.record_arrival(&c);
    assert!(m.seat_party(&c).is_none());
}

#[test]
fn consumables_are_reserved_and_returned() {
    let seats = vec![seat("T01", SeatType::Table4, true)];
    let mut m = MonitorState::new(seats, 4, 2);
    let c = customer(1, 0, 3, 2, 1, 6);
    m.record_arrival(&c);
    let (got, sit) = m.seat_party(&c).unwrap();
    assert_eq!(m.baby_chairs_available, 2);
    assert_eq!(m.wheelchairs_available, 1);
    m.release_party(&c, &got, sit);
    assert_eq!(m.baby_chairs_available, 4);
    assert_eq!(m.wheelchairs_available, 2);
}

#[test]
fn sequence_numbers_are_append_positions() {
    let seats = vec![
        seat("S01", SeatType::Single, false),
        seat("S02", SeatType::Single, false),
    ];
    let mut m = MonitorState::new(seats, 0, 0);
    let a = customer(1, 3, 1, 0, 0, 4);
    let b = customer(2, 1, 1, 0, 0, 4);
    m.record_arrival(&a);
    m.record_arrival(&b);
    let (sa, ta) = m.seat_party(&a).unwrap();
    let (sb, tb) = m.seat_party(&b).unwrap();
    m.release_party(&a, &sa, ta);
    m.release_party(&b, &sb, tb);
    for (k, e) in m.events.iter().enumerate() {
        assert_eq!(e.sequence, k);
    }
}

#[test]
fn waiting_is_logged_at_arrival_time_once() {
    let seats = vec![seat("T01", SeatType::Table4, false)];
    let mut m = MonitorState::new(seats, 0, 0);
    let a = customer(1, 0, 4, 0, 0, 50);
    m.record_arrival(&a);
    let (sa, ta) = m.seat_party(&a).unwrap();
    let b = customer(2, 7, 4, 0, 0, 50);
    m.record_arrival(&b);
    assert!(m.seat_party(&b).is_none());
    m.append_waiting(&b);
    let w = m.events.last().unwrap();
    assert_eq!(kind(&w.action), "WAITING");
    assert_eq!(w.time, 7);
    assert_eq!(w.family_id, 2);
    m.release_party(&a, &sa, ta);
}

#[test]
fn log_lines_report_time_event_and_remaining_resources() {
    let seats = vec![
        seat("S01", SeatType::Single, false),
        seat("S02", SeatType::Single, false),
    ];
    let mut m = MonitorState::new(seats, 4, 2);
    let c = customer(1, 0, 1, 0, 0, 30);
    m.record_arrival(&c);
    assert_eq!(
        m.events[0].log_message,
        "[0] [ARRIVAL] ID: 1 | Requirements: 1 seats | arrived | Remaining: S=2, 4P=0, 6P=0, B=4, W=2"
    );
}

#[test]
fn validate_config_refuses_bad_configurations() {
    let good_seats = vec![seat("S01", SeatType::Single, false)];
    let cs = vec![customer(1, 0, 1, 0, 0, 5), customer(2, 0, 1, 0, 0, 5)];
    assert!(validate_config(&cs, &good_seats, 0, 0).is_ok());
    // zero seats
    let r = validate_config(&cs, &vec![], 0, 0);
    assert!(matches!(r, Err(AppError::SimulationError(_))));
    // negative pool totals
    let r2 = validate_config(&cs, &good_seats, -1, 0);
    assert!(matches!(r2, Err(AppError::SimulationError(_))));
    let r3 = validate_config(&cs, &good_seats, 0, -2);
    assert!(matches!(r3, Err(AppError::SimulationError(_))));
    // duplicate identities
    let dup = vec![customer(1, 0, 1, 0, 0, 5), customer(1, 3, 2, 0, 0, 5)];
    let r4 = validate_config(&dup, &good_seats, 0, 0);
    assert!(matches!(r4, Err(AppError::SimulationError(_))));
}
