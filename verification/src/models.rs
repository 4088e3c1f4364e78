//! Data model: parties, seats, events and frames.

use vstd::prelude::*;

verus! {

/// One arriving group of one or more individuals sharing a seating need.
/// Immutable once created.
pub struct CustomerConfig {
    pub id: u32,
    pub family_id: u32,
    pub arrival_time: u64,
    pub type_: String,
    pub party_size: u32,
    pub baby_chair_count: u32,
    pub wheelchair_count: u32,
    pub est_dining_time: u64,
}

impl Clone for CustomerConfig {
    fn clone(&self) -> (r: Self)
        ensures
            r == *self,
    {
        CustomerConfig {
            id: self.id,
            family_id: self.family_id,
            arrival_time: self.arrival_time,
            type_: self.type_.clone(),
            party_size: self.party_size,
            baby_chair_count: self.baby_chair_count,
            wheelchair_count: self.wheelchair_count,
            est_dining_time: self.est_dining_time,
        }
    }
}

/// Class of one physical seating unit: a single-occupant counter seat, or a
/// multi-occupant table of fixed capacity four or six.
#[derive(Clone, Copy, Debug, PartialEq, Eq, Structural)]
pub enum SeatType {
    Single,
    Table4,
    Table6,
}

/// Number of individual places a seat of the given class offers.
pub open spec fn spec_seat_capacity(t: SeatType) -> int {
    match t {
        SeatType::Single => 1,
        SeatType::Table4 => 4,
        SeatType::Table6 => 6,
    }
}

pub fn seat_capacity(t: SeatType) -> (c: u32)
    ensures
        c == spec_seat_capacity(t),
{
    match t {
        SeatType::Single => 1,
        SeatType::Table4 => 4,
        SeatType::Table6 => 6,
    }
}

/// The layout vocabulary for seat classes.
pub fn seat_type_from_str(s: &str) -> (r: Option<SeatType>)
    ensures
        r == Some(SeatType::Single) <==> s@ == "SINGLE"@,
        r == Some(SeatType::Table4) <==> s@ == "4P"@,
        r == Some(SeatType::Table6) <==> s@ == "6P"@,
        r is None <==> s@ != "SINGLE"@ && s@ != "4P"@ && s@ != "6P"@,
{
    proof {
        reveal_strlit("SINGLE");
        reveal_strlit("4P");
        reveal_strlit("6P");
        assert("SINGLE"@.len() == 6 && "4P"@.len() == 2 && "6P"@.len() == 2);
        assert("4P"@[0] == '4' && "6P"@[0] == '6');
        assert("SINGLE"@ != "4P"@ && "SINGLE"@ != "6P"@);
        assert("4P"@ != "6P"@) by {
            if "4P"@ == "6P"@ {
                assert("4P"@[0] == "6P"@[0]);
            }
        }
    }
    let v = String::from_str(s);
    if v.eq(&String::from_str("SINGLE")) {
        Some(SeatType::Single)
    } else if v.eq(&String::from_str("4P")) {
        Some(SeatType::Table4)
    } else if v.eq(&String::from_str("6P")) {
        Some(SeatType::Table6)
    } else {
        None
    }
}

/// The label of a seat class, as the layout vocabulary writes it.
pub fn seat_type_label(t: SeatType) -> (r: String)
    ensures
        t == SeatType::Single ==> r@ == "SINGLE"@,
        t == SeatType::Table4 ==> r@ == "4P"@,
        t == SeatType::Table6 ==> r@ == "6P"@,
{
    match t {
        SeatType::Single => String::from_str("SINGLE"),
        SeatType::Table4 => String::from_str("4P"),
        SeatType::Table6 => String::from_str("6P"),
    }
}

/// Static description of one seat, as the layout configuration gives it.
pub struct SeatConfig {
    pub id: String,
    pub type_: SeatType,
    pub is_wheelchair_accessible: bool,
    pub label: Option<String>,
}

impl Clone for SeatConfig {
    fn clone(&self) -> (r: Self)
        ensures
            r == *self,
    {
        SeatConfig {
            id: self.id.clone(),
            type_: self.type_,
            is_wheelchair_accessible: self.is_wheelchair_accessible,
            label: match &self.label {
                Some(l) => Some(l.clone()),
                None => None,
            },
        }
    }
}

/// One seat as a frame displays it: static description plus occupancy and the
/// infant attachments attributed to it.
pub struct Seat {
    pub id: String,
    pub type_: SeatType,
    pub occupied_by: Option<u32>,
    pub baby_chair_count: u32,
    pub is_wheelchair_accessible: bool,
}

impl Clone for Seat {
    fn clone(&self) -> (r: Self)
        ensures
            r == *self,
    {
        Seat {
            id: self.id.clone(),
            type_: self.type_,
            occupied_by: self.occupied_by,
            baby_chair_count: self.baby_chair_count,
            is_wheelchair_accessible: self.is_wheelchair_accessible,
        }
    }
}

/// One seat inside the monitor: its description and its current occupant.
pub struct SeatState {
    pub config: SeatConfig,
    pub occupied_by: Option<u32>,
}

impl Clone for SeatState {
    fn clone(&self) -> (r: Self)
        ensures
            r == *self,
    {
        SeatState { config: self.config.clone(), occupied_by: self.occupied_by }
    }
}

/// What one event did, with the seat indices it touched.
pub enum Action {
    Arrive,
    Wait,
    Sit(Vec<usize>),
    Leave(Vec<usize>),
    Error(String),
}

/// One record of one state transition, appended under the monitor lock.
pub struct SimEvent {
    pub time: u64,
    pub sequence: usize,
    pub family_id: u32,
    pub action: Action,
    pub log_message: String,
}

/// One event as a frame reports it to the presentation layer.
pub struct SimulationEvent {
    pub timestamp: u64,
    pub type_: String,
    pub customer_id: u32,
    pub family_id: u32,
    pub seat_id: Option<String>,
    pub message: String,
}

impl Clone for SimulationEvent {
    fn clone(&self) -> (r: Self)
        ensures
            r == *self,
    {
        SimulationEvent {
            timestamp: self.timestamp,
            type_: self.type_.clone(),
            customer_id: self.customer_id,
            family_id: self.family_id,
            seat_id: match &self.seat_id {
                Some(s) => Some(s.clone()),
                None => None,
            },
            message: self.message.clone(),
        }
    }
}

/// One discrete-time snapshot of the whole system state.
pub struct SimulationFrame {
    pub timestamp: u64,
    pub seats: Vec<Seat>,
    pub waiting_queue: Vec<CustomerConfig>,
    pub events: Vec<SimulationEvent>,
    pub logs: Vec<String>,
}

} // verus!
