//! The resource monitor's protected state: seat registry, consumable pool and
//! event log, together with the only operations that mutate them.  The caller
//! is expected to hold one exclusive lock around every operation; the
//! operations themselves are sequential and fully specified, so the
//! check-and-reserve step of `seat_party` is atomic whenever the lock is.

use vstd::prelude::*;

use crate::models::{Action, CustomerConfig, SeatConfig, SeatState, SimEvent};
use crate::policy;
use crate::policy::{idxs_match, spec_try_allocate};
use crate::text;

verus! {

/// Ghost record of one currently seated party: what it holds of the pool and
/// which seats it occupies.  Used only to state the monitor's invariant.
pub struct ActiveParty {
    pub family_id: u32,
    pub baby: u32,
    pub wheel: u32,
    pub seats: Set<int>,
}

/// Seat registry + resource pool + event log, the state behind the monitor
/// lock.  `active` is ghost bookkeeping of the currently seated parties.
pub struct MonitorState {
    pub baby_chairs_available: i32,
    pub wheelchairs_available: i32,
    pub baby_chairs_total: i32,
    pub wheelchairs_total: i32,
    pub seats: Vec<SeatState>,
    pub events: Vec<SimEvent>,
    pub active: Ghost<Seq<ActiveParty>>,
}

/// Infant-seat attachments held by the currently seated parties, in total.
pub open spec fn sum_baby(s: Seq<ActiveParty>) -> int
    decreases s.len(),
{
    if s.len() == 0 {
        0
    } else {
        sum_baby(s.drop_last()) + s.last().baby
    }
}

/// Accessibility spots held by the currently seated parties, in total.
pub open spec fn sum_wheel(s: Seq<ActiveParty>) -> int
    decreases s.len(),
{
    if s.len() == 0 {
        0
    } else {
        sum_wheel(s.drop_last()) + s.last().wheel
    }
}

/// Some currently seated party has this identity.
pub open spec fn active_has(s: Seq<ActiveParty>, fid: u32) -> bool {
    exists|k: int| 0 <= k < s.len() && (#[trigger] s[k]).family_id == fid
}

/// The set of registry indices named by `v`.
pub open spec fn idx_set(v: Seq<usize>) -> Set<int> {
    Set::new(|i: int| exists|m: int| 0 <= m < v.len() && (#[trigger] v[m]) as int == i)
}

/// Pushing one record adds its holdings to the sums.
pub proof fn lemma_sum_push(s: Seq<ActiveParty>, x: ActiveParty)
    ensures
        sum_baby(s.push(x)) == sum_baby(s) + x.baby,
        sum_wheel(s.push(x)) == sum_wheel(s) + x.wheel,
{
    assert(s.push(x).drop_last() =~= s);
    assert(s.push(x).last() == x);
}

/// Removing one record subtracts its holdings from the sums.
pub proof fn lemma_sum_remove(s: Seq<ActiveParty>, k: int)
    requires
        0 <= k < s.len(),
    ensures
        sum_baby(s.remove(k)) == sum_baby(s) - s[k].baby,
        sum_wheel(s.remove(k)) == sum_wheel(s) - s[k].wheel,
    decreases s.len(),
{
    if k == s.len() - 1 {
        assert(s.remove(k) =~= s.drop_last());
    } else {
        lemma_sum_remove(s.drop_last(), k);
        assert(s.remove(k).drop_last() =~= s.drop_last().remove(k));
        assert(s.remove(k).last() == s.last());
    }
}

/// Every held count is nonnegative, so the sums are.
pub proof fn lemma_sum_nonneg(s: Seq<ActiveParty>)
    ensures
        sum_baby(s) >= 0,
        sum_wheel(s) >= 0,
    decreases s.len(),
{
    if s.len() > 0 {
        lemma_sum_nonneg(s.drop_last());
    }
}

/// The log holds an ARRIVED record of this party no later than `t`.
pub open spec fn has_arrive(log: Seq<SimEvent>, fid: u32, t: u64) -> bool {
    exists|j: int| 0 <= j < log.len() && is_arrive_of(#[trigger] log[j], fid) && log[j].time <= t
}

/// The log holds a SEATED record of this party no later than `t`.
pub open spec fn has_sit(log: Seq<SimEvent>, fid: u32, t: u64) -> bool {
    exists|j: int| 0 <= j < log.len() && is_sit_of(#[trigger] log[j], fid) && log[j].time <= t
}

/// Index `i` is named by one of the first `n` entries of `v`.
pub open spec fn idx_in_prefix(v: Seq<usize>, n: int, i: int) -> bool {
    exists|m: int| 0 <= m < n && (#[trigger] v[m]) as int == i
}

/// The larger of two timestamps.
pub open spec fn max_time(a: u64, b: u64) -> u64 {
    if a >= b {
        a
    } else {
        b
    }
}

/// The event is an ARRIVED record of this party.
pub open spec fn is_arrive_of(e: SimEvent, fid: u32) -> bool {
    e.family_id == fid && e.action matches Action::Arrive
}

/// The event is a SEATED record of this party.
pub open spec fn is_sit_of(e: SimEvent, fid: u32) -> bool {
    e.family_id == fid && e.action matches Action::Sit(_)
}

/// Causality at one log position: a SEATED record is preceded by an ARRIVED
/// record of the same party with a timestamp no later than it, and a LEFT
/// record by such a SEATED record.
pub open spec fn causal_at(log: Seq<SimEvent>, k: int) -> bool {
    match log[k].action {
        Action::Sit(_) => exists|j: int|
            0 <= j < k && is_arrive_of(#[trigger] log[j], log[k].family_id) && log[j].time
                <= log[k].time,
        Action::Leave(_) => exists|j: int|
            0 <= j < k && is_sit_of(#[trigger] log[j], log[k].family_id) && log[j].time
                <= log[k].time,
        _ => true,
    }
}

/// Well-formedness of the event log: sequence numbers are exactly the append
/// positions, and every record respects causality.
pub open spec fn log_wf(log: Seq<SimEvent>) -> bool {
    &&& forall|k: int| 0 <= k < log.len() ==> (#[trigger] log[k]).sequence == k
    &&& forall|k: int| 0 <= k < log.len() ==> #[trigger] causal_at(log, k)
}

/// One ghost allocation record agrees with the seat registry: every seat it
/// names is a valid registry index occupied by its party.
pub open spec fn entry_ok(seats: Seq<SeatState>, a: ActiveParty) -> bool {
    forall|i: int|
        #[trigger] a.seats.contains(i) ==> 0 <= i < seats.len() && seats[i].occupied_by == Some(
            a.family_id,
        )
}

impl MonitorState {
    /// The monitor invariant, the correctness anchor of the whole system:
    /// consumable conservation (never negative, never above the configured
    /// totals), agreement between the seat registry and the ghost allocation
    /// records (hence no double-booking), one allocation per party, and a
    /// well-formed event log.
    pub open spec fn wf(self) -> bool {
        &&& self.baby_chairs_total >= 0
        &&& self.wheelchairs_total >= 0
        &&& self.baby_chairs_available >= 0
        &&& self.wheelchairs_available >= 0
        &&& self.baby_chairs_available + sum_baby(self.active@) == self.baby_chairs_total
        &&& self.wheelchairs_available + sum_wheel(self.active@) == self.wheelchairs_total
        &&& forall|k: int|
            0 <= k < self.active@.len() ==> entry_ok(self.seats@, #[trigger] self.active@[k])
        &&& forall|i: int|
            0 <= i < self.seats@.len() && (#[trigger] self.seats@[i]).occupied_by is Some
                ==> exists|k: int|
                0 <= k < self.active@.len() && (#[trigger] self.active@[k]).family_id
                    == self.seats@[i].occupied_by->0 && self.active@[k].seats.contains(i)
        &&& forall|k1: int, k2: int|
            0 <= k1 < self.active@.len() && 0 <= k2 < self.active@.len() && k1 != k2
                ==> (#[trigger] self.active@[k1]).family_id != (#[trigger] self.active@[
                k2]).family_id
        &&& log_wf(self.events@)
    }

    /// Timestamp of the most recently appended event, zero on an empty log.
    pub open spec fn spec_last_event_time(self) -> u64 {
        if self.events@.len() == 0 {
            0
        } else {
            self.events@.last().time
        }
    }

    /// Create the monitor state at simulation start: every seat free, the
    /// pool at its configured totals, an empty log.
    pub fn new(seat_configs: Vec<SeatConfig>, baby_chairs: i32, wheelchairs: i32) -> (r: Self)
        requires
            baby_chairs >= 0,
            wheelchairs >= 0,
        ensures
            r.wf(),
            r.baby_chairs_available == baby_chairs,
            r.wheelchairs_available == wheelchairs,
            r.baby_chairs_total == baby_chairs,
            r.wheelchairs_total == wheelchairs,
            r.events@.len() == 0,
            r.active@.len() == 0,
            r.seats@.len() == seat_configs@.len(),
            forall|i: int|
                0 <= i < seat_configs@.len() ==> (#[trigger] r.seats@[i]).config == seat_configs@[i]
                    && r.seats@[i].occupied_by is None,
    {
        let mut seats: Vec<SeatState> = Vec::new();
        let mut i: usize = 0;
        while i < seat_configs.len()
            invariant
                0 <= i <= seat_configs@.len(),
                seats@.len() == i,
                forall|j: int|
                    0 <= j < i ==> (#[trigger] seats@[j]).config == seat_configs@[j]
                        && seats@[j].occupied_by is None,
            decreases seat_configs@.len() - i,
        {
            seats.push(SeatState { config: seat_configs[i].clone(), occupied_by: None });
            i = i + 1;
        }
        MonitorState {
            baby_chairs_available: baby_chairs,
            wheelchairs_available: wheelchairs,
            baby_chairs_total: baby_chairs,
            wheelchairs_total: wheelchairs,
            seats,
            events: Vec::new(),
            active: Ghost(Seq::empty()),
        }
    }
}

impl MonitorState {
    fn count_free(&self, t: crate::models::SeatType) -> usize {
        let mut count: usize = 0;
        let mut i: usize = 0;
        while i < self.seats.len()
            invariant
                count <= i,
            decreases self.seats@.len() - i,
        {
            let s = &self.seats[i];
            if s.occupied_by.is_none() && s.config.type_ == t {
                count = count + 1;
            }
            i = i + 1;
        }
        count
    }

    /// One log line in the shape
    /// `[time] [event] ID: .. | Requirements: .. | result | Remaining: ..`.
    /// Display only; no contract is stated about its content.
    fn generate_log(
        &self,
        time: u64,
        customer: &CustomerConfig,
        event_type: &str,
        result_str: &str,
    ) -> String {
        let s_cnt = self.count_free(crate::models::SeatType::Single);
        let p4_cnt = self.count_free(crate::models::SeatType::Table4);
        let p6_cnt = self.count_free(crate::models::SeatType::Table6);
        let mut req = text::u32_to_string(customer.party_size);
        text::s_append_str(&mut req, " seats");
        if customer.baby_chair_count > 0 {
            text::s_append_str(&mut req, ", ");
            let n = text::u32_to_string(customer.baby_chair_count);
            text::s_append(&mut req, &n);
            text::s_append_str(&mut req, " baby_chair");
        }
        if customer.wheelchair_count > 0 {
            text::s_append_str(&mut req, ", ");
            let n = text::u32_to_string(customer.wheelchair_count);
            text::s_append(&mut req, &n);
            text::s_append_str(&mut req, " wheelchair");
        }
        let mut line = String::from_str("[");
        let t = text::u64_to_string(time);
        text::s_append(&mut line, &t);
        text::s_append_str(&mut line, "] [");
        text::s_append_str(&mut line, event_type);
        text::s_append_str(&mut line, "] ID: ");
        let id = text::u32_to_string(customer.id);
        text::s_append(&mut line, &id);
        text::s_append_str(&mut line, " | Requirements: ");
        text::s_append(&mut line, &req);
        text::s_append_str(&mut line, " | ");
        text::s_append_str(&mut line, result_str);
        text::s_append_str(&mut line, " | Remaining: S=");
        let c1 = text::usize_to_string(s_cnt);
        text::s_append(&mut line, &c1);
        text::s_append_str(&mut line, ", 4P=");
        let c2 = text::usize_to_string(p4_cnt);
        text::s_append(&mut line, &c2);
        text::s_append_str(&mut line, ", 6P=");
        let c3 = text::usize_to_string(p6_cnt);
        text::s_append(&mut line, &c3);
        text::s_append_str(&mut line, ", B=");
        let b = text::i32_to_string(self.baby_chairs_available);
        text::s_append(&mut line, &b);
        text::s_append_str(&mut line, ", W=");
        let w = text::i32_to_string(self.wheelchairs_available);
        text::s_append(&mut line, &w);
        line
    }

    /// Append the ARRIVED event of a party, at its arrival time.  No
    /// resource effect.
    pub fn record_arrival(&mut self, customer: &CustomerConfig)
        requires
            old(self).wf(),
        ensures
            final(self).wf(),
            final(self).seats == old(self).seats,
            final(self).baby_chairs_available == old(self).baby_chairs_available,
            final(self).wheelchairs_available == old(self).wheelchairs_available,
            final(self).baby_chairs_total == old(self).baby_chairs_total,
            final(self).wheelchairs_total == old(self).wheelchairs_total,
            final(self).active == old(self).active,
            final(self).events@.len() == old(self).events@.len() + 1,
            final(self).events@.drop_last() == old(self).events@,
            ({
                let e = final(self).events@.last();
                &&& e.time == customer.arrival_time
                &&& e.sequence == old(self).events@.len()
                &&& e.family_id == customer.family_id
                &&& e.action matches Action::Arrive
            }),
    {
        let log = self.generate_log(customer.arrival_time, customer, "ARRIVAL", "arrived");
        let seq_no = self.events.len();
        let e = SimEvent {
            time: customer.arrival_time,
            sequence: seq_no,
            family_id: customer.family_id,
            action: Action::Arrive,
            log_message: log,
        };
        proof {
            lemma_log_wf_push(self.events@, e);
        }
        self.events.push(e);
        proof {
            assert(self.events@.drop_last() =~= old(self).events@);
        }
    }

    /// Append the single WAITING event of a party, at its arrival time.
    /// Called the first time (and only the first time) an allocation attempt
    /// fails.  No resource effect.
    pub fn append_waiting(&mut self, customer: &CustomerConfig)
        requires
            old(self).wf(),
        ensures
            final(self).wf(),
            final(self).seats == old(self).seats,
            final(self).baby_chairs_available == old(self).baby_chairs_available,
            final(self).wheelchairs_available == old(self).wheelchairs_available,
            final(self).baby_chairs_total == old(self).baby_chairs_total,
            final(self).wheelchairs_total == old(self).wheelchairs_total,
            final(self).active == old(self).active,
            final(self).events@.len() == old(self).events@.len() + 1,
            final(self).events@.drop_last() == old(self).events@,
            ({
                let e = final(self).events@.last();
                &&& e.time == customer.arrival_time
                &&& e.sequence == old(self).events@.len()
                &&& e.family_id == customer.family_id
                &&& e.action matches Action::Wait
            }),
    {
        let log = self.generate_log(customer.arrival_time, customer, "WAITING", "waited");
        let seq_no = self.events.len();
        let e = SimEvent {
            time: customer.arrival_time,
            sequence: seq_no,
            family_id: customer.family_id,
            action: Action::Wait,
            log_message: log,
        };
        proof {
            lemma_log_wf_push(self.events@, e);
        }
        self.events.push(e);
        proof {
            assert(self.events@.drop_last() =~= old(self).events@);
        }
    }

    /// Append the terminal TIMED_OUT event of a party whose bounded wait
    /// elapsed.  The party never held seats; no resource effect.
    pub fn record_timeout(&mut self, customer: &CustomerConfig)
        requires
            old(self).wf(),
            customer.arrival_time + 999 <= u64::MAX,
        ensures
            final(self).wf(),
            final(self).seats == old(self).seats,
            final(self).baby_chairs_available == old(self).baby_chairs_available,
            final(self).wheelchairs_available == old(self).wheelchairs_available,
            final(self).baby_chairs_total == old(self).baby_chairs_total,
            final(self).wheelchairs_total == old(self).wheelchairs_total,
            final(self).active == old(self).active,
            final(self).events@.len() == old(self).events@.len() + 1,
            final(self).events@.drop_last() == old(self).events@,
            ({
                let e = final(self).events@.last();
                &&& e.time == customer.arrival_time + 999
                &&& e.sequence == old(self).events@.len()
                &&& e.family_id == customer.family_id
                &&& e.action matches Action::Error(m) && m@ == "TIMEOUT"@
            }),
    {
        let mut log = String::from_str("[TIMEOUT] Customer ");
        let id = text::u32_to_string(customer.id);
        text::s_append(&mut log, &id);
        text::s_append_str(&mut log, " gave up.");
        let seq_no = self.events.len();
        let e = SimEvent {
            time: customer.arrival_time + 999,
            sequence: seq_no,
            family_id: customer.family_id,
            action: Action::Error(String::from_str("TIMEOUT")),
            log_message: log,
        };
        proof {
            lemma_log_wf_push(self.events@, e);
        }
        self.events.push(e);
        proof {
            assert(self.events@.drop_last() =~= old(self).events@);
        }
    }

    /// Evaluate the allocation policy against the current state and, on
    /// success, reserve the consumables, mark the chosen seats occupied and
    /// append the SEATED event — one atomic check-and-reserve step under the
    /// caller's lock.  On refusal, return `None` and mutate nothing.  The
    /// effective sit time is `max(arrival time, time of the last event)`,
    /// never earlier than the arrival.
    pub fn seat_party(&mut self, customer: &CustomerConfig) -> (r: Option<(Vec<usize>, u64)>)
        requires
            old(self).wf(),
            !active_has(old(self).active@, customer.family_id),
            has_arrive(old(self).events@, customer.family_id, customer.arrival_time),
        ensures
            final(self).wf(),
            final(self).baby_chairs_total == old(self).baby_chairs_total,
            final(self).wheelchairs_total == old(self).wheelchairs_total,
            match r {
                None => {
                    &&& *final(self) == *old(self)
                    &&& spec_try_allocate(
                        old(self).baby_chairs_available,
                        old(self).wheelchairs_available,
                        old(self).seats@,
                        *customer,
                    ) is None
                },
                Some((v, sit_time)) => {
                    &&& spec_try_allocate(
                        old(self).baby_chairs_available,
                        old(self).wheelchairs_available,
                        old(self).seats@,
                        *customer,
                    ) matches Some(s) && idxs_match(v@, s)
                    &&& sit_time == max_time(
                        old(self).spec_last_event_time(),
                        customer.arrival_time,
                    )
                    &&& sit_time >= customer.arrival_time
                    &&& final(self).baby_chairs_available as int
                        == old(self).baby_chairs_available as int
                        - customer.baby_chair_count as int
                    &&& final(self).wheelchairs_available as int
                        == old(self).wheelchairs_available as int
                        - customer.wheelchair_count as int
                    &&& final(self).seats@.len() == old(self).seats@.len()
                    &&& forall|i: int|
                        0 <= i < old(self).seats@.len() && !idx_set(v@).contains(i)
                            ==> final(self).seats@[i] == old(self).seats@[i]
                    &&& forall|m: int|
                        0 <= m < v@.len() ==> (#[trigger] final(self).seats@[v@[m] as int]).occupied_by
                            == Some(customer.family_id) && final(self).seats@[v@[m] as int].config
                            == old(self).seats@[v@[m] as int].config
                    &&& final(self).events@.len() == old(self).events@.len() + 1
                    &&& final(self).events@.drop_last() == old(self).events@
                    &&& ({
                        let e = final(self).events@.last();
                        &&& e.time == sit_time
                        &&& e.sequence == old(self).events@.len()
                        &&& e.family_id == customer.family_id
                        &&& e.action matches Action::Sit(ids) && ids@ == v@
                    })
                    &&& final(self).active@ == old(self).active@.push(
                        ActiveParty {
                            family_id: customer.family_id,
                            baby: customer.baby_chair_count,
                            wheel: customer.wheelchair_count,
                            seats: idx_set(v@),
                        },
                    )
                },
            },
    {
        let alloc = policy::try_allocate(self, customer);
        match alloc {
            None => None,
            Some(v) => {
                let ghost st0 = *old(self);
                let ghost chosen = spec_try_allocate(
                    st0.baby_chairs_available,
                    st0.wheelchairs_available,
                    st0.seats@,
                    *customer,
                )->Some_0;
                proof {
                    policy::lemma_chosen_seats_ok(
                        st0.baby_chairs_available,
                        st0.wheelchairs_available,
                        st0.seats@,
                        *customer,
                    );
                }
                let fid = customer.family_id;
                self.baby_chairs_available = self.baby_chairs_available - (
                customer.baby_chair_count as i32);
                self.wheelchairs_available = self.wheelchairs_available - (
                customer.wheelchair_count as i32);
                let mut n: usize = 0;
                while n < v.len()
                    invariant
                        n <= v@.len(),
                        idxs_match(v@, chosen),
                        forall|k: int| 0 <= k < chosen.len() ==> 0 <= #[trigger] chosen[k] < st0.seats@.len(),
                        self.seats@.len() == st0.seats@.len(),
                        forall|i: int|
                            0 <= i < st0.seats@.len() && !idx_in_prefix(v@, n as int, i)
                                ==> self.seats@[i] == st0.seats@[i],
                        forall|m: int|
                            0 <= m < n ==> (#[trigger] self.seats@[v@[m] as int]).occupied_by
                                == Some(fid) && self.seats@[v@[m] as int].config == st0.seats@[v@[
                                m] as int].config,
                        self.events@ == st0.events@,
                        self.active@ == st0.active@,
                        self.baby_chairs_available as int == st0.baby_chairs_available as int
                            - customer.baby_chair_count as int,
                        self.wheelchairs_available as int == st0.wheelchairs_available as int
                            - customer.wheelchair_count as int,
                        self.baby_chairs_total == st0.baby_chairs_total,
                        self.wheelchairs_total == st0.wheelchairs_total,
                        fid == customer.family_id,
                    decreases v@.len() - n,
                {
                    let idx = v[n];
                    let cfg = self.seats[idx].config.clone();
                    self.seats.set(idx, SeatState { config: cfg, occupied_by: Some(fid) });
                    n = n + 1;
                    proof {
                        assert forall|i: int|
                            0 <= i < st0.seats@.len() && !idx_in_prefix(
                                v@,
                                n as int,
                                i,
                            ) implies self.seats@[i] == st0.seats@[i] by {
                            assert(!idx_in_prefix(v@, n as int - 1, i));
                            assert(v@[n as int - 1] as int != i);
                        }
                    }
                }
                let last_time: u64 = if self.events.len() == 0 {
                    0
                } else {
                    self.events[self.events.len() - 1].time
                };
                let sit_time: u64 = if last_time >= customer.arrival_time {
                    last_time
                } else {
                    customer.arrival_time
                };
                let mut id_parts: Vec<String> = Vec::new();
                let mut m: usize = 0;
                while m < v.len()
                    invariant
                        forall|k: int|
                            0 <= k < v@.len() ==> ((#[trigger] v@[k]) as int) < self.seats@.len(),
                    decreases v@.len() - m,
                {
                    id_parts.push(self.seats[v[m]].config.id.clone());
                    m = m + 1;
                }
                let joined = text::join_comma(&id_parts);
                let mut result_str = String::from_str("seated, id:[");
                text::s_append(&mut result_str, &joined);
                text::s_append_str(&mut result_str, "]");
                let log = self.generate_log(sit_time, customer, "SEATED", result_str.as_str());
                let ids_copy = v.clone();
                let seq_no = self.events.len();
                let e = SimEvent {
                    time: sit_time,
                    sequence: seq_no,
                    family_id: fid,
                    action: Action::Sit(ids_copy),
                    log_message: log,
                };
                proof {
                    let j = choose|j: int|
                        0 <= j < st0.events@.len() && is_arrive_of(#[trigger] st0.events@[j], fid)
                            && st0.events@[j].time <= customer.arrival_time;
                    let log2 = self.events@.push(e);
                    assert(log2[j] == st0.events@[j]);
                    assert(is_arrive_of(log2[j], fid) && log2[j].time <= sit_time);
                    assert(causal_at(log2, self.events@.len() as int));
                    lemma_log_wf_push(self.events@, e);
                }
                self.events.push(e);
                let ghost entry = ActiveParty {
                    family_id: fid,
                    baby: customer.baby_chair_count,
                    wheel: customer.wheelchair_count,
                    seats: idx_set(v@),
                };
                proof {
                    lemma_sum_push(st0.active@, entry);
                }
                self.active = Ghost(self.active@.push(entry));
                proof {
                    let fin = *self;
                    let va = v@;
                    assert(fin.events@.drop_last() =~= st0.events@);
                    // every ghost record still agrees with the registry
                    assert forall|k: int|
                        0 <= k < fin.active@.len() implies entry_ok(
                        fin.seats@,
                        #[trigger] fin.active@[k],
                    ) by {
                        if k < st0.active@.len() {
                            assert(fin.active@[k] == st0.active@[k]);
                            assert(entry_ok(st0.seats@, st0.active@[k]));
                            assert forall|i: int|
                                fin.active@[k].seats.contains(i) implies 0 <= i < fin.seats@.len()
                                && (#[trigger] fin.seats@[i]).occupied_by == Some(
                                fin.active@[k].family_id,
                            ) by {
                                assert(st0.seats@[i].occupied_by == Some(
                                    st0.active@[k].family_id,
                                ));
                                if idx_in_prefix(va, va.len() as int, i) {
                                    let mm = choose|mm: int|
                                        0 <= mm < va.len() && (#[trigger] va[mm]) as int == i;
                                    assert(chosen[mm] == i);
                                    assert(policy::seat_free(st0.seats@[i]));
                                    assert(false);
                                }
                                assert(fin.seats@[i] == st0.seats@[i]);
                            }
                        } else {
                            assert(fin.active@[k] == entry);
                            assert forall|i: int|
                                entry.seats.contains(i) implies 0 <= i < fin.seats@.len()
                                && (#[trigger] fin.seats@[i]).occupied_by == Some(
                                entry.family_id,
                            ) by {
                                let mm = choose|mm: int|
                                    0 <= mm < va.len() && (#[trigger] va[mm]) as int == i;
                                assert(fin.seats@[va[mm] as int].occupied_by == Some(fid));
                            }
                        }
                    }
                    // every occupied seat is accounted for by some record
                    assert forall|i: int|
                        0 <= i < fin.seats@.len() && (#[trigger] fin.seats@[i]).occupied_by
                            is Some implies exists|k: int|
                        0 <= k < fin.active@.len() && (#[trigger] fin.active@[k]).family_id
                            == fin.seats@[i].occupied_by->0 && fin.active@[k].seats.contains(
                            i,
                        ) by {
                        if idx_in_prefix(va, va.len() as int, i) {
                            let kk = st0.active@.len() as int;
                            let mm = choose|mm: int|
                                0 <= mm < va.len() && (#[trigger] va[mm]) as int == i;
                            assert(fin.seats@[va[mm] as int].occupied_by == Some(fid));
                            assert(fin.active@[kk] == entry);
                            assert(entry.seats.contains(i));
                            assert(0 <= kk < fin.active@.len() && fin.active@[kk].family_id
                                == fin.seats@[i].occupied_by->0 && fin.active@[kk].seats.contains(
                                i,
                            ));
                        } else {
                            assert(fin.seats@[i] == st0.seats@[i]);
                            let kk = choose|kk: int|
                                0 <= kk < st0.active@.len() && (#[trigger] st0.active@[
                                kk]).family_id == st0.seats@[i].occupied_by->0 && st0.active@[
                                kk].seats.contains(i);
                            assert(fin.active@[kk] == st0.active@[kk]);
                            assert(0 <= kk < fin.active@.len() && fin.active@[kk].family_id
                                == fin.seats@[i].occupied_by->0 && fin.active@[kk].seats.contains(
                                i,
                            ));
                        }
                    }
                    // identities stay distinct: the new party was not seated
                    assert forall|k1: int, k2: int|
                        0 <= k1 < fin.active@.len() && 0 <= k2 < fin.active@.len() && k1
                            != k2 implies (#[trigger] fin.active@[k1]).family_id
                        != (#[trigger] fin.active@[k2]).family_id by {
                        if k1 < st0.active@.len() && k2 < st0.active@.len() {
                            assert(st0.active@[k1].family_id != st0.active@[k2].family_id);
                        } else if k1 < st0.active@.len() {
                            assert(st0.active@[k1].family_id != fid);
                        } else {
                            assert(st0.active@[k2].family_id != fid);
                        }
                    }
                    assert(fin.wf());
                }
                Some((v, sit_time))
            },
        }
    }

    /// Free the party's seats, return its consumables to the pool and append
    /// the LEFT event, timestamped exactly `sit_time + est_dining_time`.
    /// The caller passes back what `seat_party` granted; afterwards it wakes
    /// every waiting actor.
    pub fn release_party(&mut self, customer: &CustomerConfig, seat_idxs: &Vec<usize>, sit_time: u64)
        requires
            old(self).wf(),
            exists|k: int|
                0 <= k < old(self).active@.len() && old(self).active@[k] == (ActiveParty {
                    family_id: customer.family_id,
                    baby: customer.baby_chair_count,
                    wheel: customer.wheelchair_count,
                    seats: idx_set(seat_idxs@),
                }),
            has_sit(old(self).events@, customer.family_id, sit_time),
            sit_time + customer.est_dining_time <= u64::MAX,
        ensures
            final(self).wf(),
            final(self).baby_chairs_total == old(self).baby_chairs_total,
            final(self).wheelchairs_total == old(self).wheelchairs_total,
            final(self).baby_chairs_available as int == old(self).baby_chairs_available as int
                + customer.baby_chair_count as int,
            final(self).wheelchairs_available as int == old(self).wheelchairs_available as int
                + customer.wheelchair_count as int,
            final(self).seats@.len() == old(self).seats@.len(),
            forall|i: int|
                0 <= i < old(self).seats@.len() && !idx_set(seat_idxs@).contains(i)
                    ==> final(self).seats@[i] == old(self).seats@[i],
            forall|m: int|
                0 <= m < seat_idxs@.len()
                    ==> (#[trigger] final(self).seats@[seat_idxs@[m] as int]).occupied_by is None
                    && final(self).seats@[seat_idxs@[m] as int].config == old(self).seats@[seat_idxs@[
                    m] as int].config,
            !active_has(final(self).active@, customer.family_id),
            final(self).events@.len() == old(self).events@.len() + 1,
            final(self).events@.drop_last() == old(self).events@,
            ({
                let e = final(self).events@.last();
                &&& e.time == sit_time + customer.est_dining_time
                &&& e.sequence == old(self).events@.len()
                &&& e.family_id == customer.family_id
                &&& e.action matches Action::Leave(ids) && ids@ == seat_idxs@
            }),
    {
        let ghost st0 = *old(self);
        let ghost entry = ActiveParty {
            family_id: customer.family_id,
            baby: customer.baby_chair_count,
            wheel: customer.wheelchair_count,
            seats: idx_set(seat_idxs@),
        };
        let ghost kk = choose|k: int| 0 <= k < st0.active@.len() && st0.active@[k] == entry;
        proof {
            lemma_sum_remove(st0.active@, kk);
            lemma_sum_nonneg(st0.active@.remove(kk));
            assert(customer.baby_chair_count as int <= st0.baby_chairs_total as int);
            assert(customer.wheelchair_count as int <= st0.wheelchairs_total as int);
        }
        let fid = customer.family_id;
        self.baby_chairs_available = self.baby_chairs_available + (
        customer.baby_chair_count as i32);
        self.wheelchairs_available = self.wheelchairs_available + (
        customer.wheelchair_count as i32);
        // every index the entry names is a valid registry position
        proof {
            assert(st0.active@[kk] == entry);
            assert(entry_ok(st0.seats@, st0.active@[kk]));
            assert forall|k: int|
                0 <= k < seat_idxs@.len() implies ((#[trigger] seat_idxs@[k]) as int)
                < st0.seats@.len() by {
                let i = seat_idxs@[k] as int;
                assert(exists|m: int|
                    0 <= m < seat_idxs@.len() && (#[trigger] seat_idxs@[m]) as int == i) by {
                    assert(0 <= k < seat_idxs@.len() && (#[trigger] seat_idxs@[k]) as int == i);
                }
                assert(idx_set(seat_idxs@).contains(i));
                assert(entry.seats.contains(i));
            }
        }
        let mut n: usize = 0;
        while n < seat_idxs.len()
            invariant
                n <= seat_idxs@.len(),
                forall|k: int|
                    0 <= k < seat_idxs@.len() ==> ((#[trigger] seat_idxs@[k]) as int)
                        < st0.seats@.len(),
                self.seats@.len() == st0.seats@.len(),
                forall|i: int|
                    0 <= i < st0.seats@.len() && !idx_in_prefix(seat_idxs@, n as int, i)
                        ==> self.seats@[i] == st0.seats@[i],
                forall|m: int|
                    0 <= m < n ==> (#[trigger] self.seats@[seat_idxs@[m] as int]).occupied_by
                        is None && self.seats@[seat_idxs@[m] as int].config == st0.seats@[seat_idxs@[
                        m] as int].config,
                self.events@ == st0.events@,
                self.active@ == st0.active@,
                self.baby_chairs_available as int == st0.baby_chairs_available as int
                    + customer.baby_chair_count as int,
                self.wheelchairs_available as int == st0.wheelchairs_available as int
                    + customer.wheelchair_count as int,
                self.baby_chairs_total == st0.baby_chairs_total,
                self.wheelchairs_total == st0.wheelchairs_total,
            decreases seat_idxs@.len() - n,
        {
            let idx = seat_idxs[n];
            let cfg = self.seats[idx].config.clone();
            self.seats.set(idx, SeatState { config: cfg, occupied_by: None });
            n = n + 1;
            proof {
                assert forall|i: int|
                    0 <= i < st0.seats@.len() && !idx_in_prefix(
                        seat_idxs@,
                        n as int,
                        i,
                    ) implies self.seats@[i] == st0.seats@[i] by {
                    assert(!idx_in_prefix(seat_idxs@, n as int - 1, i));
                    assert(seat_idxs@[n as int - 1] as int != i);
                }
            }
        }
        let leave_time = sit_time + customer.est_dining_time;
        let mut id_parts: Vec<String> = Vec::new();
        let mut m: usize = 0;
        while m < seat_idxs.len()
            invariant
                forall|k: int|
                    0 <= k < seat_idxs@.len() ==> ((#[trigger] seat_idxs@[k]) as int)
                        < self.seats@.len(),
            decreases seat_idxs@.len() - m,
        {
            id_parts.push(self.seats[seat_idxs[m]].config.id.clone());
            m = m + 1;
        }
        let joined = text::join_comma(&id_parts);
        let mut result_str = String::from_str("release, id:[");
        text::s_append(&mut result_str, &joined);
        text::s_append_str(&mut result_str, "]");
        let log = self.generate_log(leave_time, customer, "LEFT", result_str.as_str());
        let ids_copy = seat_idxs.clone();
        let seq_no = self.events.len();
        let e = SimEvent {
            time: leave_time,
            sequence: seq_no,
            family_id: fid,
            action: Action::Leave(ids_copy),
            log_message: log,
        };
        proof {
            let j = choose|j: int|
                0 <= j < st0.events@.len() && is_sit_of(#[trigger] st0.events@[j], fid)
                    && st0.events@[j].time <= sit_time;
            let log2 = self.events@.push(e);
            assert(log2[j] == st0.events@[j]);
            assert(is_sit_of(log2[j], fid) && log2[j].time <= leave_time);
            assert(causal_at(log2, self.events@.len() as int));
            lemma_log_wf_push(self.events@, e);
        }
        self.events.push(e);
        self.active = Ghost(self.active@.remove(kk));
        proof {
            let fin = *self;
            let va = seat_idxs@;
            assert(fin.events@.drop_last() =~= st0.events@);
            // a surviving record at position k was at old_pos(k) before
            assert forall|k: int|
                0 <= k < fin.active@.len() implies entry_ok(
                fin.seats@,
                #[trigger] fin.active@[k],
            ) by {
                let k0: int = if k < kk {
                    k
                } else {
                    k + 1
                };
                assert(fin.active@[k] == st0.active@[k0]);
                assert(entry_ok(st0.seats@, st0.active@[k0]));
                assert forall|i: int|
                    fin.active@[k].seats.contains(i) implies 0 <= i < fin.seats@.len()
                    && (#[trigger] fin.seats@[i]).occupied_by == Some(
                    fin.active@[k].family_id,
                ) by {
                    assert(st0.seats@[i].occupied_by == Some(st0.active@[k0].family_id));
                    if idx_in_prefix(va, va.len() as int, i) {
                        // that seat belonged to the released party, so the
                        // two records would share one identity
                        assert(entry.seats.contains(i));
                        assert(entry_ok(st0.seats@, st0.active@[kk]));
                        assert(st0.seats@[i].occupied_by == Some(entry.family_id));
                        assert(st0.active@[k0].family_id == entry.family_id);
                        assert(k0 != kk);
                        assert(false);
                    }
                    assert(fin.seats@[i] == st0.seats@[i]);
                }
            }
            // every seat still occupied is accounted for by a surviving record
            assert forall|i: int|
                0 <= i < fin.seats@.len() && (#[trigger] fin.seats@[i]).occupied_by
                    is Some implies exists|k: int|
                0 <= k < fin.active@.len() && (#[trigger] fin.active@[k]).family_id
                    == fin.seats@[i].occupied_by->0 && fin.active@[k].seats.contains(i) by {
                if idx_in_prefix(va, va.len() as int, i) {
                    let mm = choose|mm: int| 0 <= mm < va.len() && (#[trigger] va[mm]) as int == i;
                    assert(fin.seats@[va[mm] as int].occupied_by is None);
                    assert(false);
                } else {
                    assert(fin.seats@[i] == st0.seats@[i]);
                    let k0 = choose|k0: int|
                        0 <= k0 < st0.active@.len() && (#[trigger] st0.active@[k0]).family_id
                            == st0.seats@[i].occupied_by->0 && st0.active@[k0].seats.contains(i);
                    if k0 == kk {
                        assert(entry.seats.contains(i));
                        assert(idx_in_prefix(va, va.len() as int, i));
                        assert(false);
                    }
                    let k: int = if k0 < kk {
                        k0
                    } else {
                        k0 - 1
                    };
                    assert(fin.active@[k] == st0.active@[k0]);
                    assert(0 <= k < fin.active@.len() && fin.active@[k].family_id == fin.seats@[
                        i].occupied_by->0 && fin.active@[k].seats.contains(i));
                }
            }
            // identities stay distinct
            assert forall|k1: int, k2: int|
                0 <= k1 < fin.active@.len() && 0 <= k2 < fin.active@.len() && k1
                    != k2 implies (#[trigger] fin.active@[k1]).family_id != (#[trigger] fin.active@[
                k2]).family_id by {
                let a1: int = if k1 < kk {
                    k1
                } else {
                    k1 + 1
                };
                let a2: int = if k2 < kk {
                    k2
                } else {
                    k2 + 1
                };
                assert(fin.active@[k1] == st0.active@[a1]);
                assert(fin.active@[k2] == st0.active@[a2]);
                assert(st0.active@[a1].family_id != st0.active@[a2].family_id);
            }
            // the released identity is gone
            assert forall|k: int| 0 <= k < fin.active@.len() implies (#[trigger] fin.active@[
                k]).family_id != fid by {
                let k0: int = if k < kk {
                    k
                } else {
                    k + 1
                };
                assert(fin.active@[k] == st0.active@[k0]);
                if k0 != kk {
                    assert(st0.active@[k0].family_id != st0.active@[kk].family_id);
                }
            }
            assert(fin.wf());
        }
    }
}

/// Every party carries its own identity.
pub open spec fn distinct_family_ids(cs: Seq<CustomerConfig>) -> bool {
    forall|i: int, j: int|
        0 <= i < j < cs.len() ==> (#[trigger] cs[i]).family_id != (#[trigger] cs[j]).family_id
}

/// Check a configuration before any actor starts: a run needs at least one
/// seat, nonnegative pool totals and distinct party identities; anything
/// else is refused rather than simulated.  Returns `Ok` exactly on valid
/// configurations.
pub fn validate_config(
    customers: &Vec<CustomerConfig>,
    seat_configs: &Vec<SeatConfig>,
    baby_chairs: i32,
    wheelchairs: i32,
) -> (r: Result<(), crate::errors::AppError>)
    ensures
        r is Ok <==> seat_configs@.len() > 0 && baby_chairs >= 0 && wheelchairs >= 0
            && distinct_family_ids(customers@),
        r is Err ==> r->Err_0 matches crate::errors::AppError::SimulationError(_),
{
    if seat_configs.len() == 0 {
        return Err(
            crate::errors::AppError::SimulationError(String::from_str("no seats configured")),
        );
    }
    if baby_chairs < 0 || wheelchairs < 0 {
        return Err(
            crate::errors::AppError::SimulationError(
                String::from_str("negative resource pool total"),
            ),
        );
    }
    let mut i: usize = 0;
    while i < customers.len()
        invariant
            i <= customers@.len(),
            forall|a: int, b: int|
                0 <= a < b < customers@.len() && a < i ==> (#[trigger] customers@[a]).family_id != (
                #[trigger] customers@[b]).family_id,
        decreases customers@.len() - i,
    {
        let mut j: usize = i + 1;
        while j < customers.len()
            invariant
                i < j <= customers@.len() || (i as int) + 1 == j as int,
                i < customers@.len(),
                j >= i + 1,
                j <= customers@.len() || j == i + 1,
                forall|b: int|
                    i < b < j ==> (#[trigger] customers@[b]).family_id != customers@[
                    i as int].family_id,
            decreases customers@.len() - j,
        {
            if customers[j].family_id == customers[i].family_id {
                return Err(
                    crate::errors::AppError::SimulationError(
                        String::from_str("duplicate party identity"),
                    ),
                );
            }
            j = j + 1;
        }
        i = i + 1;
    }
    Ok(())
}

/// Conservation law: in every well-formed monitor state, what is available
/// of each consumable plus what the seated parties hold equals the
/// configured total, and the available count is never negative and never
/// above the total.
pub proof fn lemma_conservation(m: MonitorState)
    requires
        m.wf(),
    ensures
        m.baby_chairs_available >= 0,
        m.wheelchairs_available >= 0,
        m.baby_chairs_available + sum_baby(m.active@) == m.baby_chairs_total,
        m.wheelchairs_available + sum_wheel(m.active@) == m.wheelchairs_total,
        m.baby_chairs_available <= m.baby_chairs_total,
        m.wheelchairs_available <= m.wheelchairs_total,
{
    lemma_sum_nonneg(m.active@);
}

/// No-double-booking law: in every well-formed monitor state, no seat is
/// held by two seated parties — the seat sets of distinct allocation
/// records are disjoint (and each seat names at most one occupant by
/// construction).
pub proof fn lemma_no_double_booking(m: MonitorState)
    requires
        m.wf(),
    ensures
        forall|k1: int, k2: int, i: int|
            0 <= k1 < m.active@.len() && 0 <= k2 < m.active@.len() && k1 != k2
                && #[trigger] m.active@[k1].seats.contains(i) ==> !(#[trigger] m.active@[
            k2].seats.contains(i)),
{
    assert forall|k1: int, k2: int, i: int|
        0 <= k1 < m.active@.len() && 0 <= k2 < m.active@.len() && k1 != k2
            && #[trigger] m.active@[k1].seats.contains(i) implies !(#[trigger] m.active@[
    k2].seats.contains(i)) by {
        if m.active@[k2].seats.contains(i) {
            assert(m.seats@[i].occupied_by == Some(m.active@[k1].family_id));
            assert(m.seats@[i].occupied_by == Some(m.active@[k2].family_id));
            assert(m.active@[k1].family_id != m.active@[k2].family_id);
            assert(false);
        }
    }
}

/// Causality law: in every well-formed monitor state, each SEATED record is
/// preceded in append order by an ARRIVED record of the same party with a
/// timestamp no later than it, and each LEFT record by such a SEATED
/// record.  That a LEFT record's timestamp is exactly the SEATED timestamp
/// plus the party's dining duration is stated by `release_party`'s
/// contract.
pub proof fn lemma_causality(m: MonitorState)
    requires
        m.wf(),
    ensures
        forall|k: int| 0 <= k < m.events@.len() ==> #[trigger] causal_at(m.events@, k),
{
}

/// In every well-formed monitor state the sequence numbers are exactly the
/// append positions, so they are unique and strictly increasing in append
/// order.
pub proof fn lemma_sequences_strictly_increase(m: MonitorState)
    requires
        m.wf(),
    ensures
        forall|k: int| 0 <= k < m.events@.len() ==> (#[trigger] m.events@[k]).sequence == k,
        crate::events::distinct_sequences(m.events@),
{
}

/// Appending an event whose own causality holds preserves the causality of
/// the whole log.
proof fn lemma_log_wf_push(log: Seq<SimEvent>, e: SimEvent)
    requires
        log_wf(log),
        e.sequence == log.len(),
        causal_at(log.push(e), log.len() as int),
    ensures
        log_wf(log.push(e)),
{
    let log2 = log.push(e);
    assert forall|k: int| 0 <= k < log2.len() implies #[trigger] causal_at(log2, k) by {
        if k < log.len() {
            assert(causal_at(log, k));
            assert(log2[k] == log[k]);
            match log[k].action {
                Action::Sit(_) => {
                    let j = choose|j: int|
                        0 <= j < k && is_arrive_of(#[trigger] log[j], log[k].family_id) && log[
                            j].time <= log[k].time;
                    assert(log2[j] == log[j]);
                    assert(is_arrive_of(log2[j], log2[k].family_id));
                },
                Action::Leave(_) => {
                    let j = choose|j: int|
                        0 <= j < k && is_sit_of(#[trigger] log[j], log[k].family_id) && log[j].time
                            <= log[k].time;
                    assert(log2[j] == log[j]);
                    assert(is_sit_of(log2[j], log2[k].family_id));
                },
                _ => {},
            }
        }
    }
}

} // verus!
