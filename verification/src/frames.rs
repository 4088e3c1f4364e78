//! The frame replay generator: a pure, deterministic fold over the sorted
//! event log that produces one snapshot per discrete logical tick, from 0 to
//! the last event's timestamp plus a five-tick grace period.

use vstd::prelude::*;

use crate::events::{sort_events, sorted_lex};
use crate::models::{
    Action, CustomerConfig, Seat, SeatConfig, SimEvent, SimulationEvent, SimulationFrame,
};
use crate::text;

verus! {

/// The display seats at simulation start: every seat free, no attachments.
pub open spec fn spec_init_seats(cfg: Seq<SeatConfig>) -> Seq<Seat> {
    Seq::new(
        cfg.len(),
        |i: int|
            Seat {
                id: cfg[i].id,
                type_: cfg[i].type_,
                occupied_by: None,
                baby_chair_count: 0,
                is_wheelchair_accessible: cfg[i].is_wheelchair_accessible,
            },
    )
}

/// The first party record with this identity, scanning in list order.
pub open spec fn spec_find_customer(cs: Seq<CustomerConfig>, fid: u32) -> Option<CustomerConfig>
    decreases cs.len(),
{
    if cs.len() == 0 {
        None
    } else if cs.first().family_id == fid {
        Some(cs.first())
    } else {
        spec_find_customer(cs.drop_first(), fid)
    }
}

/// Infant attachments attributed to the seat at position `m` of an
/// allocation of `n` seats: distributed as evenly as possible, remainder to
/// the earliest seats.
pub open spec fn spec_baby_share(baby: u32, n: int, m: int) -> u32 {
    ((baby as int) / n + if m < (baby as int) % n {
        1int
    } else {
        0int
    }) as u32
}

/// The display seats after the first `upto` seats of a SEATED record are
/// applied: each named seat becomes occupied by the party and carries its
/// share of the infant attachments.  Indices outside the table are ignored.
pub open spec fn spec_sit_apply(
    seats: Seq<Seat>,
    ids: Seq<usize>,
    fid: u32,
    c: CustomerConfig,
    upto: int,
) -> Seq<Seat>
    decreases upto,
{
    if upto <= 0 {
        seats
    } else {
        let prev = spec_sit_apply(seats, ids, fid, c, upto - 1);
        let idx = ids[upto - 1] as int;
        if 0 <= idx < prev.len() {
            prev.update(
                idx,
                Seat {
                    id: prev[idx].id,
                    type_: prev[idx].type_,
                    occupied_by: Some(fid),
                    baby_chair_count: spec_baby_share(c.baby_chair_count, ids.len() as int, upto - 1),
                    is_wheelchair_accessible: prev[idx].is_wheelchair_accessible,
                },
            )
        } else {
            prev
        }
    }
}

/// The display seats after the first `upto` seats of a LEFT record are
/// cleared.
pub open spec fn spec_leave_apply(seats: Seq<Seat>, ids: Seq<usize>, upto: int) -> Seq<Seat>
    decreases upto,
{
    if upto <= 0 {
        seats
    } else {
        let prev = spec_leave_apply(seats, ids, upto - 1);
        let idx = ids[upto - 1] as int;
        if 0 <= idx < prev.len() {
            prev.update(
                idx,
                Seat {
                    id: prev[idx].id,
                    type_: prev[idx].type_,
                    occupied_by: None,
                    baby_chair_count: 0,
                    is_wheelchair_accessible: prev[idx].is_wheelchair_accessible,
                },
            )
        } else {
            prev
        }
    }
}

/// One step of the replay fold: ARRIVED and WAITING add the party to the
/// waiting set, SEATED removes it and occupies its seats, LEFT clears the
/// seats, TIMED_OUT removes the party from the waiting set.
pub open spec fn spec_apply_event(
    seats: Seq<Seat>,
    waiting: Set<u32>,
    e: SimEvent,
    customers: Seq<CustomerConfig>,
) -> (Seq<Seat>, Set<u32>) {
    match e.action {
        Action::Arrive => (seats, waiting.insert(e.family_id)),
        Action::Wait => (seats, waiting.insert(e.family_id)),
        Action::Sit(ids) => {
            let w2 = waiting.remove(e.family_id);
            match spec_find_customer(customers, e.family_id) {
                Some(c) => (spec_sit_apply(seats, ids@, e.family_id, c, ids@.len() as int), w2),
                None => (seats, w2),
            }
        },
        Action::Leave(ids) => (spec_leave_apply(seats, ids@, ids@.len() as int), waiting),
        Action::Error(_) => (seats, waiting.remove(e.family_id)),
    }
}

/// The replay fold over a whole event prefix, in order.
pub open spec fn spec_replay(
    seats: Seq<Seat>,
    waiting: Set<u32>,
    events: Seq<SimEvent>,
    customers: Seq<CustomerConfig>,
) -> (Seq<Seat>, Set<u32>)
    decreases events.len(),
{
    if events.len() == 0 {
        (seats, waiting)
    } else {
        let p = spec_replay(seats, waiting, events.drop_last(), customers);
        spec_apply_event(p.0, p.1, events.last(), customers)
    }
}

/// How many leading records of a sorted log carry a timestamp at most `t`.
pub open spec fn spec_cut(events: Seq<SimEvent>, t: u64) -> int
    decreases events.len(),
{
    if events.len() == 0 {
        0
    } else if events.last().time <= t {
        events.len() as int
    } else {
        spec_cut(events.drop_last(), t)
    }
}

/// The records of the log whose timestamp is exactly `t`, in log order.
pub open spec fn spec_filter_time(events: Seq<SimEvent>, t: u64) -> Seq<SimEvent>
    decreases events.len(),
{
    if events.len() == 0 {
        Seq::empty()
    } else {
        let prev = spec_filter_time(events.drop_last(), t);
        if events.last().time == t {
            prev.push(events.last())
        } else {
            prev
        }
    }
}

/// The log messages of an event prefix, in order.
pub open spec fn spec_logs(events: Seq<SimEvent>) -> Seq<String> {
    events.map_values(|e: SimEvent| e.log_message)
}

/// The parties of `customers`, in list order, whose identity is in the
/// waiting set.
pub open spec fn spec_waiting_queue(cs: Seq<CustomerConfig>, w: Set<u32>) -> Seq<CustomerConfig>
    decreases cs.len(),
{
    if cs.len() == 0 {
        Seq::empty()
    } else {
        let prev = spec_waiting_queue(cs.drop_last(), w);
        if w.contains(cs.last().family_id) {
            prev.push(cs.last())
        } else {
            prev
        }
    }
}

/// The event-kind label a frame reports for an action.
pub open spec fn spec_action_name(a: Action) -> Seq<char> {
    match a {
        Action::Arrive => "ARRIVAL"@,
        Action::Wait => "WAITING"@,
        Action::Sit(_) => "SEATED"@,
        Action::Leave(_) => "LEFT"@,
        Action::Error(_) => "ERROR"@,
    }
}

/// The seat identifiers of the named registry positions, an empty string
/// for a position outside the layout.
pub open spec fn spec_id_views(cfg: Seq<SeatConfig>, ids: Seq<usize>) -> Seq<Seq<char>> {
    Seq::new(
        ids.len(),
        |m: int|
            if ((ids[m] as int) < cfg.len()) {
                cfg[ids[m] as int].id@
            } else {
                Seq::empty()
            },
    )
}

/// The frame-level report of one event: same timestamps and identities, the
/// kind label, the joined seat identifiers for SEATED and LEFT, and the
/// record's log message unchanged.
pub open spec fn sim_event_matches(se: SimulationEvent, e: SimEvent, cfg: Seq<SeatConfig>) -> bool {
    &&& se.timestamp == e.time
    &&& se.customer_id == e.family_id
    &&& se.family_id == e.family_id
    &&& se.type_@ == spec_action_name(e.action)
    &&& match e.action {
        Action::Sit(ids) => se.seat_id matches Some(s) && s@ == text::spec_join_comma(
            spec_id_views(cfg, ids@),
        ),
        Action::Leave(ids) => se.seat_id matches Some(s) && s@ == text::spec_join_comma(
            spec_id_views(cfg, ids@),
        ),
        _ => se.seat_id is None,
    }
    &&& se.message == e.log_message
}

/// What one frame of the replay states, at tick `t` of a sorted log: the
/// tick itself, the seat table and waiting queue after every record with a
/// timestamp at most `t`, the records of exactly this tick, and the
/// cumulative log.
pub open spec fn frame_at_ok(
    f: SimulationFrame,
    sorted: Seq<SimEvent>,
    cfg: Seq<SeatConfig>,
    customers: Seq<CustomerConfig>,
    t: int,
) -> bool {
    let k = spec_cut(sorted, t as u64);
    let st = spec_replay(spec_init_seats(cfg), Set::empty(), sorted.take(k), customers);
    let tick = spec_filter_time(sorted, t as u64);
    &&& f.timestamp == t as u64
    &&& f.seats@ == st.0
    &&& f.waiting_queue@ == spec_waiting_queue(customers, st.1)
    &&& f.logs@ == spec_logs(sorted.take(k))
    &&& f.events@.len() == tick.len()
    &&& forall|x: int| 0 <= x < tick.len() ==> sim_event_matches(#[trigger] f.events@[x], tick[x], cfg)
}

/// The set of identities a waiting list holds.
pub open spec fn wset(v: Seq<u32>) -> Set<u32> {
    Set::new(|f: u32| v.contains(f))
}

/// The waiting list with every occurrence of one identity removed.
pub open spec fn spec_remove_all(v: Seq<u32>, f: u32) -> Seq<u32>
    decreases v.len(),
{
    if v.len() == 0 {
        Seq::empty()
    } else {
        let prev = spec_remove_all(v.drop_last(), f);
        if v.last() == f {
            prev
        } else {
            prev.push(v.last())
        }
    }
}

proof fn lemma_wset_push(v: Seq<u32>, f: u32)
    ensures
        wset(v.push(f)) == wset(v).insert(f),
{
    assert forall|x: u32| #[trigger] wset(v.push(f)).contains(x) implies wset(v).insert(f).contains(
        x,
    ) by {
        let i = choose|i: int| 0 <= i < v.push(f).len() && v.push(f)[i] == x;
        if i < v.len() {
            assert(v[i] == x);
        }
    }
    assert forall|x: u32| #[trigger] wset(v).insert(f).contains(x) implies wset(v.push(f)).contains(
        x,
    ) by {
        if x == f {
            assert(v.push(f)[v.len() as int] == x);
        } else {
            let i = choose|i: int| 0 <= i < v.len() && v[i] == x;
            assert(v.push(f)[i] == x);
        }
    }
    assert(wset(v.push(f)) =~= wset(v).insert(f));
}

proof fn lemma_remove_all_set(v: Seq<u32>, f: u32)
    ensures
        wset(spec_remove_all(v, f)) == wset(v).remove(f),
    decreases v.len(),
{
    if v.len() == 0 {
        assert forall|x: u32| !(#[trigger] wset(Seq::<u32>::empty()).contains(x)) by {}
        assert(wset(spec_remove_all(v, f)) =~= wset(v).remove(f));
    } else {
        let d = v.drop_last();
        lemma_remove_all_set(d, f);
        assert(v =~= d.push(v.last()));
        lemma_wset_push(d, v.last());
        if v.last() == f {
            assert(wset(spec_remove_all(v, f)) == wset(d).remove(f));
            assert(wset(v) == wset(d).insert(f));
            assert(wset(d).insert(f).remove(f) =~= wset(d).remove(f));
        } else {
            lemma_wset_push(spec_remove_all(d, f), v.last());
            assert(wset(spec_remove_all(v, f)) == wset(d).remove(f).insert(v.last()));
            assert(wset(v).remove(f) =~= wset(d).remove(f).insert(v.last()));
        }
    }
}

fn wvec_insert(v: &mut Vec<u32>, f: u32)
    ensures
        wset(final(v)@) == wset(old(v)@).insert(f),
{
    v.push(f);
    proof {
        lemma_wset_push(old(v)@, f);
    }
}

fn wvec_remove(v: &mut Vec<u32>, f: u32)
    ensures
        wset(final(v)@) == wset(old(v)@).remove(f),
{
    let ghost v0 = v@;
    let mut out: Vec<u32> = Vec::new();
    let mut i: usize = 0;
    while i < v.len()
        invariant
            i <= v0.len(),
            v@ == v0,
            out@ == spec_remove_all(v0.take(i as int), f),
        decreases v0.len() - i,
    {
        let x = v[i];
        proof {
            assert(v0.take(i as int + 1).drop_last() =~= v0.take(i as int));
            assert(v0.take(i as int + 1).last() == v0[i as int]);
        }
        if x != f {
            out.push(x);
        }
        i = i + 1;
    }
    proof {
        assert(v0.take(v0.len() as int) =~= v0);
        lemma_remove_all_set(v0, f);
    }
    *v = out;
}

fn find_customer(customers: &Vec<CustomerConfig>, fid: u32) -> (r: Option<CustomerConfig>)
    ensures
        match r {
            Some(c) => spec_find_customer(customers@, fid) == Some(c),
            None => spec_find_customer(customers@, fid) is None,
        },
{
    let mut i: usize = 0;
    proof {
        assert(customers@.skip(0) =~= customers@);
    }
    while i < customers.len()
        invariant
            i <= customers@.len(),
            spec_find_customer(customers@, fid) == spec_find_customer(
                customers@.skip(i as int),
                fid,
            ),
        decreases customers@.len() - i,
    {
        proof {
            assert(customers@.skip(i as int).first() == customers@[i as int]);
            assert(customers@.skip(i as int).drop_first() =~= customers@.skip(i as int + 1));
        }
        if customers[i].family_id == fid {
            return Some(customers[i].clone());
        }
        i = i + 1;
    }
    None
}

fn clone_seats(v: &Vec<Seat>) -> (r: Vec<Seat>)
    ensures
        r@ == v@,
{
    let mut r: Vec<Seat> = Vec::new();
    let mut i: usize = 0;
    while i < v.len()
        invariant
            i <= v@.len(),
            r@ == v@.take(i as int),
        decreases v@.len() - i,
    {
        r.push(v[i].clone());
        proof {
            assert(r@ =~= v@.take(i as int + 1));
        }
        i = i + 1;
    }
    proof {
        assert(v@.take(v@.len() as int) =~= v@);
    }
    r
}

fn clone_logs(v: &Vec<String>) -> (r: Vec<String>)
    ensures
        r@ == v@,
{
    let mut r: Vec<String> = Vec::new();
    let mut i: usize = 0;
    while i < v.len()
        invariant
            i <= v@.len(),
            r@ == v@.take(i as int),
        decreases v@.len() - i,
    {
        r.push(v[i].clone());
        proof {
            assert(r@ =~= v@.take(i as int + 1));
        }
        i = i + 1;
    }
    proof {
        assert(v@.take(v@.len() as int) =~= v@);
    }
    r
}

fn join_seat_ids(cfg: &Vec<SeatConfig>, ids: &Vec<usize>) -> (r: String)
    ensures
        r@ == text::spec_join_comma(spec_id_views(cfg@, ids@)),
{
    let mut parts: Vec<String> = Vec::new();
    let mut m: usize = 0;
    while m < ids.len()
        invariant
            m <= ids@.len(),
            parts@.len() == m,
            forall|x: int|
                0 <= x < m ==> (#[trigger] parts@[x])@ == spec_id_views(cfg@, ids@)[x],
        decreases ids@.len() - m,
    {
        let idx = ids[m];
        if idx < cfg.len() {
            parts.push(cfg[idx].id.clone());
        } else {
            parts.push(String::new());
        }
        m = m + 1;
    }
    let r = text::join_comma(&parts);
    proof {
        assert(parts@.map_values(|s: String| s@) =~= spec_id_views(cfg@, ids@));
    }
    r
}

fn to_sim_event(e: &SimEvent, cfg: &Vec<SeatConfig>) -> (se: SimulationEvent)
    ensures
        sim_event_matches(se, *e, cfg@),
{
    let (type_, seat_id): (String, Option<String>) = match &e.action {
        Action::Arrive => (String::from_str("ARRIVAL"), None),
        Action::Wait => (String::from_str("WAITING"), None),
        Action::Sit(ids) => (String::from_str("SEATED"), Some(join_seat_ids(cfg, ids))),
        Action::Leave(ids) => (String::from_str("LEFT"), Some(join_seat_ids(cfg, ids))),
        Action::Error(_) => (String::from_str("ERROR"), None),
    };
    SimulationEvent {
        timestamp: e.time,
        type_,
        customer_id: e.family_id,
        family_id: e.family_id,
        seat_id,
        message: e.log_message.clone(),
    }
}

fn build_tick_events(sorted: &Vec<SimEvent>, t: u64, cfg: &Vec<SeatConfig>) -> (out: Vec<
    SimulationEvent,
>)
    ensures
        out@.len() == spec_filter_time(sorted@, t).len(),
        forall|x: int|
            0 <= x < out@.len() ==> sim_event_matches(
                #[trigger] out@[x],
                spec_filter_time(sorted@, t)[x],
                cfg@,
            ),
{
    let mut out: Vec<SimulationEvent> = Vec::new();
    let mut j: usize = 0;
    while j < sorted.len()
        invariant
            j <= sorted@.len(),
            out@.len() == spec_filter_time(sorted@.take(j as int), t).len(),
            forall|x: int|
                0 <= x < out@.len() ==> sim_event_matches(
                    #[trigger] out@[x],
                    spec_filter_time(sorted@.take(j as int), t)[x],
                    cfg@,
                ),
        decreases sorted@.len() - j,
    {
        proof {
            assert(sorted@.take(j as int + 1).drop_last() =~= sorted@.take(j as int));
            assert(sorted@.take(j as int + 1).last() == sorted@[j as int]);
        }
        if sorted[j].time == t {
            let se = to_sim_event(&sorted[j], cfg);
            out.push(se);
        }
        j = j + 1;
    }
    proof {
        assert(sorted@.take(sorted@.len() as int) =~= sorted@);
    }
    out
}

fn build_waiting_queue(customers: &Vec<CustomerConfig>, waiting: &Vec<u32>) -> (out: Vec<
    CustomerConfig,
>)
    ensures
        out@ == spec_waiting_queue(customers@, wset(waiting@)),
{
    let mut out: Vec<CustomerConfig> = Vec::new();
    let mut i: usize = 0;
    while i < customers.len()
        invariant
            i <= customers@.len(),
            out@ == spec_waiting_queue(customers@.take(i as int), wset(waiting@)),
        decreases customers@.len() - i,
    {
        proof {
            assert(customers@.take(i as int + 1).drop_last() =~= customers@.take(i as int));
            assert(customers@.take(i as int + 1).last() == customers@[i as int]);
        }
        let fid = customers[i].family_id;
        let mut found = false;
        let mut q: usize = 0;
        while q < waiting.len()
            invariant
                q <= waiting@.len(),
                found == exists|p: int| 0 <= p < q && waiting@[p] == fid,
            decreases waiting@.len() - q,
        {
            if waiting[q] == fid {
                found = true;
            }
            q = q + 1;
        }
        proof {
            if found {
                let p = choose|p: int| 0 <= p < waiting@.len() && waiting@[p] == fid;
                assert(waiting@.contains(fid));
            } else {
                if waiting@.contains(fid) {
                    let p = choose|p: int| 0 <= p < waiting@.len() && waiting@[p] == fid;
                    assert(false);
                }
            }
            assert(found == wset(waiting@).contains(fid));
        }
        if found {
            out.push(customers[i].clone());
        }
        i = i + 1;
    }
    proof {
        assert(customers@.take(customers@.len() as int) =~= customers@);
    }
    out
}

/// Scanning a sorted log up to the first record after `t` lands exactly at
/// the cut.
proof fn lemma_cut_from_scan(sorted: Seq<SimEvent>, t: u64, k: int)
    requires
        sorted_lex(sorted),
        0 <= k <= sorted.len(),
        forall|j: int| 0 <= j < k ==> (#[trigger] sorted[j]).time <= t,
        k == sorted.len() || sorted[k].time > t,
    ensures
        spec_cut(sorted, t) == k,
    decreases sorted.len(),
{
    if sorted.len() == 0 {
    } else if sorted.last().time <= t {
        if k < sorted.len() {
            assert(crate::events::lex_le(sorted[k], sorted[sorted.len() - 1]));
            assert(false);
        }
    } else {
        assert(k < sorted.len());
        let d = sorted.drop_last();
        assert forall|i: int, j: int| 0 <= i < j < d.len() implies crate::events::lex_le(
            #[trigger] d[i],
            #[trigger] d[j],
        ) by {
            assert(d[i] == sorted[i] && d[j] == sorted[j]);
        }
        assert forall|j: int| 0 <= j < k implies (#[trigger] d[j]).time <= t by {
            assert(d[j] == sorted[j]);
        }
        if k < d.len() {
            assert(d[k] == sorted[k]);
        }
        lemma_cut_from_scan(d, t, k);
    }
}

/// What the whole replay states over a sorted log: one frame per tick from
/// 0 to the last timestamp plus the five-tick grace period, each as
/// `frame_at_ok` describes.
pub open spec fn frames_match(
    frames: Seq<SimulationFrame>,
    sorted: Seq<SimEvent>,
    cfg: Seq<SeatConfig>,
    customers: Seq<CustomerConfig>,
) -> bool {
    let maxt: int = if sorted.len() == 0 {
        0
    } else {
        sorted.last().time as int
    };
    &&& frames.len() == maxt + 6
    &&& forall|t: int| 0 <= t < frames.len() ==> frame_at_ok(#[trigger] frames[t], sorted, cfg, customers, t)
}

#[verifier::loop_isolation(false)]
fn apply_sit(cur: &mut Vec<Seat>, ids: &Vec<usize>, fid: u32, c: &CustomerConfig)
    ensures
        final(cur)@ == spec_sit_apply(old(cur)@, ids@, fid, *c, ids@.len() as int),
{
    let n = ids.len();
    let mut m: usize = 0;
    while m < n
        invariant
            m <= n,
            cur@ == spec_sit_apply(old(cur)@, ids@, fid, *c, m as int),
        decreases n - m,
    {
        let idx = ids[m];
        if idx < cur.len() {
            let nn = n as u64;
            let base = (c.baby_chair_count as u64) / nn;
            let rem = (c.baby_chair_count as u64) % nn;
            let extra: u64 = if (m as u64) < rem {
                1
            } else {
                0
            };
            let share = (base + extra) as u32;
            proof {
                assert((base + extra) as int == (c.baby_chair_count as int) / (ids@.len() as int)
                    + if (m as int) < (c.baby_chair_count as int) % (ids@.len() as int) {
                    1int
                } else {
                    0int
                });
            }
            let s = &cur[idx];
            let new_seat = Seat {
                id: s.id.clone(),
                type_: s.type_,
                occupied_by: Some(fid),
                baby_chair_count: share,
                is_wheelchair_accessible: s.is_wheelchair_accessible,
            };
            cur.set(idx, new_seat);
        }
        m = m + 1;
    }
}

#[verifier::loop_isolation(false)]
fn apply_leave(cur: &mut Vec<Seat>, ids: &Vec<usize>)
    ensures
        final(cur)@ == spec_leave_apply(old(cur)@, ids@, ids@.len() as int),
{
    let n = ids.len();
    let mut m: usize = 0;
    while m < n
        invariant
            m <= n,
            cur@ == spec_leave_apply(old(cur)@, ids@, m as int),
        decreases n - m,
    {
        let idx = ids[m];
        if idx < cur.len() {
            let s = &cur[idx];
            let new_seat = Seat {
                id: s.id.clone(),
                type_: s.type_,
                occupied_by: None,
                baby_chair_count: 0,
                is_wheelchair_accessible: s.is_wheelchair_accessible,
            };
            cur.set(idx, new_seat);
        }
        m = m + 1;
    }
}

#[verifier::loop_isolation(false)]
fn init_seats(cfg: &Vec<SeatConfig>) -> (r: Vec<Seat>)
    ensures
        r@ == spec_init_seats(cfg@),
{
    let mut r: Vec<Seat> = Vec::new();
    let mut i: usize = 0;
    while i < cfg.len()
        invariant
            i <= cfg@.len(),
            r@.len() == i,
            forall|j: int| 0 <= j < i ==> r@[j] == spec_init_seats(cfg@)[j],
        decreases cfg@.len() - i,
    {
        let c = &cfg[i];
        r.push(
            Seat {
                id: c.id.clone(),
                type_: c.type_,
                occupied_by: None,
                baby_chair_count: 0,
                is_wheelchair_accessible: c.is_wheelchair_accessible,
            },
        );
        i = i + 1;
    }
    proof {
        assert(r@ =~= spec_init_seats(cfg@));
    }
    r
}

/// The replay fold over an already sorted log: one frame per tick, applying
/// every record with a timestamp at most the tick before emitting the
/// tick's frame.  Pure and deterministic; consumes no locks.
#[verifier::loop_isolation(false)]
pub fn frames_from_sorted(
    sorted: &Vec<SimEvent>,
    seats_config: &Vec<SeatConfig>,
    customers: &Vec<CustomerConfig>,
) -> (frames: Vec<SimulationFrame>)
    requires
        sorted_lex(sorted@),
        sorted@.len() == 0 || sorted@.last().time + 6 <= u64::MAX,
    ensures
        frames_match(frames@, sorted@, seats_config@, customers@),
{
    let maxt: u64 = if sorted.len() == 0 {
        0
    } else {
        sorted[sorted.len() - 1].time
    };
    let ghost init = spec_init_seats(seats_config@);
    let mut cur_seats = init_seats(seats_config);
    let mut waiting: Vec<u32> = Vec::new();
    let mut cum_logs: Vec<String> = Vec::new();
    let mut frames: Vec<SimulationFrame> = Vec::new();
    let mut event_idx: usize = 0;
    let mut t: u64 = 0;
    proof {
        assert(sorted@.take(0) =~= Seq::<SimEvent>::empty());
        assert(wset(waiting@) =~= Set::<u32>::empty());
        assert(cum_logs@ =~= spec_logs(sorted@.take(0)));
    }
    while t <= maxt + 5
        invariant
            t <= maxt + 6,
            frames@.len() == t as int,
            event_idx <= sorted@.len(),
            forall|j: int| 0 <= j < event_idx ==> (#[trigger] sorted@[j]).time < t,
            event_idx == sorted@.len() || sorted@[event_idx as int].time >= t,
            cur_seats@ == spec_replay(
                init,
                Set::empty(),
                sorted@.take(event_idx as int),
                customers@,
            ).0,
            wset(waiting@) == spec_replay(
                init,
                Set::empty(),
                sorted@.take(event_idx as int),
                customers@,
            ).1,
            cum_logs@ == spec_logs(sorted@.take(event_idx as int)),
            forall|tt: int|
                0 <= tt < t as int ==> frame_at_ok(
                    #[trigger] frames@[tt],
                    sorted@,
                    seats_config@,
                    customers@,
                    tt,
                ),
        decreases maxt + 6 - t,
    {
        while event_idx < sorted.len() && sorted[event_idx].time <= t
            invariant
                event_idx <= sorted@.len(),
                forall|j: int| 0 <= j < event_idx ==> (#[trigger] sorted@[j]).time <= t,
                cur_seats@ == spec_replay(
                    init,
                    Set::empty(),
                    sorted@.take(event_idx as int),
                    customers@,
                ).0,
                wset(waiting@) == spec_replay(
                    init,
                    Set::empty(),
                    sorted@.take(event_idx as int),
                    customers@,
                ).1,
                cum_logs@ == spec_logs(sorted@.take(event_idx as int)),
            decreases sorted@.len() - event_idx,
        {
            let ghost pre = sorted@.take(event_idx as int);
            let ghost post = sorted@.take(event_idx as int + 1);
            let ghost st_pre = spec_replay(init, Set::empty(), pre, customers@);
            proof {
                assert(post.drop_last() =~= pre);
                assert(post.last() == sorted@[event_idx as int]);
            }
            let e_fid = sorted[event_idx].family_id;
            match &sorted[event_idx].action {
                Action::Arrive => {
                    wvec_insert(&mut waiting, e_fid);
                },
                Action::Wait => {
                    wvec_insert(&mut waiting, e_fid);
                },
                Action::Sit(ids) => {
                    wvec_remove(&mut waiting, e_fid);
                    match find_customer(customers, e_fid) {
                        Some(c) => {
                            apply_sit(&mut cur_seats, ids, e_fid, &c);
                        },
                        None => {},
                    }
                },
                Action::Leave(ids) => {
                    apply_leave(&mut cur_seats, ids);
                },
                Action::Error(_) => {
                    wvec_remove(&mut waiting, e_fid);
                },
            }
            cum_logs.push(sorted[event_idx].log_message.clone());
            event_idx = event_idx + 1;
            proof {
                assert(spec_replay(init, Set::empty(), post, customers@) == spec_apply_event(
                    st_pre.0,
                    st_pre.1,
                    sorted@[event_idx as int - 1],
                    customers@,
                ));
                assert(spec_logs(post) =~= spec_logs(pre).push(
                    sorted@[event_idx as int - 1].log_message,
                ));
            }
        }
        proof {
            lemma_cut_from_scan(sorted@, t, event_idx as int);
        }
        let f_seats = clone_seats(&cur_seats);
        let wq = build_waiting_queue(customers, &waiting);
        let f_events = build_tick_events(sorted, t, seats_config);
        let f_logs = clone_logs(&cum_logs);
        frames.push(
            SimulationFrame {
                timestamp: t,
                seats: f_seats,
                waiting_queue: wq,
                events: f_events,
                logs: f_logs,
            },
        );
        t = t + 1;
        proof {
            assert(frame_at_ok(
                frames@[t as int - 1],
                sorted@,
                seats_config@,
                customers@,
                t as int - 1,
            ));
        }
    }
    proof {
        assert(t as int == maxt + 6);
    }
    frames
}

/// Sort the finished event log and fold it into the replay frames: the
/// whole post-processing step, pure and deterministic.
pub fn generate_frames(
    events: Vec<SimEvent>,
    seats_config: &Vec<SeatConfig>,
    customers: &Vec<CustomerConfig>,
) -> (frames: Vec<SimulationFrame>)
    requires
        forall|k: int| 0 <= k < events@.len() ==> (#[trigger] events@[k]).time + 6 <= u64::MAX,
    ensures
        exists|sorted: Seq<SimEvent>|
            sorted_lex(sorted) && sorted.to_multiset() == events@.to_multiset()
                && #[trigger] frames_match(frames@, sorted, seats_config@, customers@),
{
    let ghost evs = events@;
    let sorted = sort_events(events);
    proof {
        broadcast use vstd::seq_lib::group_to_multiset_ensures;

        if sorted@.len() > 0 {
            assert(sorted@.contains(sorted@.last()));
            assert(sorted@.to_multiset().count(sorted@.last()) > 0);
            assert(evs.to_multiset().count(sorted@.last()) > 0);
            assert(evs.contains(sorted@.last()));
            let k = choose|k: int| 0 <= k < evs.len() && evs[k] == sorted@.last();
            assert(evs[k].time + 6 <= u64::MAX);
        }
    }
    let frames = frames_from_sorted(&sorted, seats_config, customers);
    proof {
        let s = sorted@;
        assert(sorted_lex(s) && s.to_multiset() == evs.to_multiset() && frames_match(
            frames@,
            s,
            seats_config@,
            customers@,
        ));
    }
    frames
}

} // verus!
