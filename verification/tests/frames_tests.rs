use seatsim::events::sort_events;
use seatsim::frames::generate_frames;
use seatsim::models::{Action, CustomerConfig, SeatConfig, SeatType, SimEvent};
use seatsim::monitor::MonitorState;

fn seat(id: &str, t: SeatType, accessible: bool) -> SeatConfig {
    SeatConfig { id: id.to_string(), type_: t, is_wheelchair_accessible: accessible, label: None }
}

fn customer(id: u32, arrival: u64, size: u32, baby: u32, wheel: u32, dur: u64) -> CustomerConfig {
    CustomerConfig {
        id,
        family_id: id,
        arrival_time: arrival,
        type_: String::from("FAMILY"),
        party_size: size,
        baby_chair_count: baby,
        wheelchair_count: wheel,
        est_dining_time: dur,
    }
}

fn ev(time: u64, sequence: usize, family_id: u32, action: Action) -> SimEvent {
    SimEvent { time, sequence, family_id, action, log_message: format!("e{}", sequence) }
}

#[test]
fn sort_orders_by_time_then_sequence() {
    let events = vec![
        ev(5, 0, 1, Action::Arrive),
        ev(0, 1, 2, Action::Arrive),
        ev(5, 2, 3, Action::Arrive),
        ev(2, 3, 4, Action::Arrive),
    ];
    let sorted = sort_events(events);
    let order: Vec<(u64, usize)> = sorted.iter().map(|e| (e.time, e.sequence)).collect();
    assert_eq!(order, vec![(0, 1), (2, 3), (5, 0), (5, 2)]);
}

#[test]
fn frames_cover_zero_to_last_time_plus_grace() {
    let seats = vec![
        seat("S01", SeatType::Single, false),
        seat("S02", SeatType::Single, false),
    ];
    let mut m = MonitorState::new(seats.clone(), 4, 2);
    let c = customer(1, 0, 1, 0, 0, 30);
    m.record_arrival(&c);
    let (got, sit) = m.seat_party(&c).unwrap();
    m.release_party(&c, &got, sit);
    let customers = vec![c];
    let frames = generate_frames(m.events, &seats, &customers);
    // ticks 0 ..= 30 + 5
    assert_eq!(frames.len(), 36);
    for (t, f) in frames.iter().enumerate() {
        assert_eq!(f.timestamp, t as u64);
    }
    // seated from tick 0 until the leave at tick 30
    assert_eq!(frames[0].seats[0].occupied_by, Some(1));
    assert_eq!(frames[29].seats[0].occupied_by, Some(1));
    assert_eq!(frames[30].seats[0].occupied_by, None);
    assert!(frames[0].waiting_queue.is_empty());
    // events of the tick itself: ARRIVAL and SEATED at tick 0, LEFT at 30
    assert_eq!(frames[0].events.len(), 2);
    assert_eq!(frames[0].events[0].type_, "ARRIVAL");
    assert_eq!(frames[0].events[1].type_, "SEATED");
    assert_eq!(frames[0].events[1].seat_id.as_deref(), Some("S01"));
    assert_eq!(frames[1].events.len(), 0);
    assert_eq!(frames[30].events.len(), 1);
    assert_eq!(frames[30].events[0].type_, "LEFT");
    // the cumulative log grows with the applied events
    assert_eq!(frames[0].logs.len(), 2);
    assert_eq!(frames[29].logs.len(), 2);
    assert_eq!(frames[30].logs.len(), 3);
}

#[test]
fn waiting_queue_shows_parties_between_arrival_and_seating() {
    let seats = vec![seat("T01", SeatType::Table4, false)];
    let mut m = MonitorState::new(seats.clone(), 4, 2);
    let a = customer(1, 0, 4, 0, 0, 10);
    let b = customer(2, 5, 4, 0, 0, 10);
    m.record_arrival(&a);
    let (sa, ta) = m.seat_party(&a).unwrap();
    m.record_arrival(&b);
    assert!(m.seat_party(&b).is_none());
    m.append_waiting(&b);
    m.release_party(&a, &sa, ta);
    let (sb, tb) = m.seat_party(&b).unwrap();
    m.release_party(&b, &sb, tb);
    let customers = vec![a, b];
    let frames = generate_frames(m.events, &seats, &customers);
    // last event at 20, so 26 frames
    assert_eq!(frames.len(), 26);
    // before the second arrival nobody waits
    assert!(frames[4].waiting_queue.is_empty());
    // from 5 until the first leave at 10 the second party waits
    assert_eq!(frames[5].waiting_queue.len(), 1);
    assert_eq!(frames[5].waiting_queue[0].id, 2);
    assert_eq!(frames[9].waiting_queue.len(), 1);
    assert_eq!(frames[10].waiting_queue.len(), 0);
    assert_eq!(frames[10].seats[0].occupied_by, Some(2));
    assert_eq!(frames[20].seats[0].occupied_by, None);
}

#[test]
fn infant_attachments_distribute_evenly_with_remainder_first() {
    // a party of four with three attachments across four counter seats
    let seats = vec![
        seat("S01", SeatType::Single, false),
        seat("S02", SeatType::Single, false),
        seat("S03", SeatType::Single, false),
        seat("S04", SeatType::Single, false),
    ];
    let mut m = MonitorState::new(seats.clone(), 3, 0);
    let c = customer(1, 0, 4, 3, 0, 10);
    m.record_arrival(&c);
    let (got, sit) = m.seat_party(&c).unwrap();
    assert_eq!(got, vec![0usize, 1, 2, 3]);
    m.release_party(&c, &got, sit);
    let customers = vec![c];
    let frames = generate_frames(m.events, &seats, &customers);
    let shares: Vec<u32> = frames[0].seats.iter().map(|s| s.baby_chair_count).collect();
    assert_eq!(shares, vec![1, 1, 1, 0]);
    // the SEATED event names all four seats
    assert_eq!(frames[0].events[1].seat_id.as_deref(), Some("S01,S02,S03,S04"));
    // cleared after the leave
    let after: Vec<u32> = frames[10].seats.iter().map(|s| s.baby_chair_count).collect();
    assert_eq!(after, vec![0, 0, 0, 0]);
}

#[test]
fn timed_out_party_leaves_the_waiting_queue() {
    let seats = vec![seat("S01", SeatType::Single, false)];
    let mut m = MonitorState::new(seats.clone(), 0, 0);
    let c = customer(9, 0, 1, 1, 0, 10);
    m.record_arrival(&c);
    assert!(m.seat_party(&c).is_none());
    m.append_waiting(&c);
    m.record_timeout(&c);
    let customers = vec![c];
    let frames = generate_frames(m.events, &seats, &customers);
    // waits from its arrival...
    assert_eq!(frames[0].waiting_queue.len(), 1);
    // ...until the timeout record at arrival + 999
    assert_eq!(frames[998].waiting_queue.len(), 1);
    assert_eq!(frames[999].waiting_queue.len(), 0);
    let last = frames.last().unwrap();
    assert!(last.seats.iter().all(|s| s.occupied_by.is_none()));
    assert_eq!(frames[999].events.len(), 1);
    assert_eq!(frames[999].events[0].type_, "ERROR");
}

#[test]
fn empty_log_still_yields_the_grace_frames() {
    let seats = vec![seat("S01", SeatType::Single, false)];
    let frames = generate_frames(Vec::new(), &seats, &Vec::new());
    assert_eq!(frames.len(), 6);
    assert_eq!(frames[0].seats.len(), 1);
    assert_eq!(frames[0].seats[0].id, "S01");
    assert!(frames[0].events.is_empty());
    assert!(frames[0].logs.is_empty());
}
