//! The allocation policy: a pure decision function from a party's needs and
//! the current seat registry / resource pool to a candidate set of seats, or
//! a refusal.  `spec_try_allocate` is the authoritative description; the
//! executable `try_allocate` is proved to compute exactly it.

use vstd::prelude::*;

use crate::models::{CustomerConfig, SeatState, SeatType};
use crate::monitor::MonitorState;

verus! {

/// A seat nobody occupies.
pub open spec fn seat_free(s: SeatState) -> bool {
    s.occupied_by is None
}

/// Eligible for a party with an accessibility need: a free, accessibility
/// capable multi-occupant table.  Single-occupant counter seats are never
/// eligible for accessibility requests.
pub open spec fn wheel_candidate(s: SeatState) -> bool {
    seat_free(s) && s.config.is_wheelchair_accessible && s.config.type_ != SeatType::Single
}

/// A free multi-occupant table whose capacity class admits the party size.
pub open spec fn table_candidate(s: SeatState, size: u32) -> bool {
    seat_free(s) && ((s.config.type_ == SeatType::Table4 && size <= 4) || (
    s.config.type_ == SeatType::Table6 && size <= 6))
}

/// A free single-occupant counter seat.
pub open spec fn single_candidate(s: SeatState) -> bool {
    seat_free(s) && s.config.type_ == SeatType::Single
}

/// A free multi-occupant table of any capacity.
pub open spec fn any_table_candidate(s: SeatState) -> bool {
    seat_free(s) && s.config.type_ != SeatType::Single
}

/// Index of the first accessibility candidate at or after `from`, scanning
/// the registry order ascending.
pub open spec fn spec_find_wheel(seats: Seq<SeatState>, from: int) -> Option<int>
    decreases seats.len() - from,
{
    if from < 0 || from >= seats.len() {
        None
    } else if wheel_candidate(seats[from]) {
        Some(from)
    } else {
        spec_find_wheel(seats, from + 1)
    }
}

/// Index of the first free table that fits `size`, at or after `from`.
pub open spec fn spec_find_table(seats: Seq<SeatState>, size: u32, from: int) -> Option<int>
    decreases seats.len() - from,
{
    if from < 0 || from >= seats.len() {
        None
    } else if table_candidate(seats[from], size) {
        Some(from)
    } else {
        spec_find_table(seats, size, from + 1)
    }
}

/// Index of the first free single-occupant seat at or after `from`.
pub open spec fn spec_find_single(seats: Seq<SeatState>, from: int) -> Option<int>
    decreases seats.len() - from,
{
    if from < 0 || from >= seats.len() {
        None
    } else if single_candidate(seats[from]) {
        Some(from)
    } else {
        spec_find_single(seats, from + 1)
    }
}

/// Index of the first free multi-occupant table of any capacity at or after
/// `from`.
pub open spec fn spec_find_any_table(seats: Seq<SeatState>, from: int) -> Option<int>
    decreases seats.len() - from,
{
    if from < 0 || from >= seats.len() {
        None
    } else if any_table_candidate(seats[from]) {
        Some(from)
    } else {
        spec_find_any_table(seats, from + 1)
    }
}

/// Registry positions of all single-occupant seats at or after `from`, in
/// registry order.  Contiguity of counter seats is defined over this list.
pub open spec fn spec_single_positions(seats: Seq<SeatState>, from: int) -> Seq<int>
    decreases seats.len() - from,
{
    if from < 0 || from >= seats.len() {
        Seq::empty()
    } else if seats[from].config.type_ == SeatType::Single {
        seq![from] + spec_single_positions(seats, from + 1)
    } else {
        spec_single_positions(seats, from + 1)
    }
}

/// The four single seats starting at position `w` of `singles` are all free.
pub open spec fn window_free(seats: Seq<SeatState>, singles: Seq<int>, w: int) -> bool {
    forall|k: int| w <= k < w + 4 ==> seat_free(seats[#[trigger] singles[k]])
}

/// First position `w` at or after `from` such that `singles[w .. w+4]` are
/// four free single seats.
pub open spec fn spec_find_window(seats: Seq<SeatState>, singles: Seq<int>, from: int) -> Option<
    int,
>
    decreases singles.len() - from,
{
    if from < 0 || from + 4 > singles.len() {
        None
    } else if window_free(seats, singles, from) {
        Some(from)
    } else {
        spec_find_window(seats, singles, from + 1)
    }
}

/// The resource pool can satisfy the party's consumable needs in full.
pub open spec fn spec_pool_ok(baby_avail: i32, wheel_avail: i32, c: CustomerConfig) -> bool {
    &&& (c.baby_chair_count > 0 ==> c.baby_chair_count as int <= baby_avail as int)
    &&& (c.wheelchair_count > 0 ==> c.wheelchair_count as int <= wheel_avail as int)
}

/// The seat-selection rules, in priority order, over a registry snapshot:
/// an accessibility party takes the first free accessible table; a party of
/// more than one takes the first free table that fits, falling back (for a
/// party of exactly four) to the first contiguous run of four free single
/// seats; a party of one takes the first free single seat, falling back to
/// the first free table of any capacity.
pub open spec fn spec_choose_seats(seats: Seq<SeatState>, c: CustomerConfig) -> Option<Seq<int>> {
    if c.wheelchair_count > 0 {
        match spec_find_wheel(seats, 0) {
            Some(i) => Some(seq![i]),
            None => None,
        }
    } else if c.party_size > 1 {
        match spec_find_table(seats, c.party_size, 0) {
            Some(i) => Some(seq![i]),
            None => if c.party_size == 4 {
                let singles = spec_single_positions(seats, 0);
                match spec_find_window(seats, singles, 0) {
                    Some(w) => Some(singles.subrange(w, w + 4)),
                    None => None,
                }
            } else {
                None
            },
        }
    } else {
        match spec_find_single(seats, 0) {
            Some(i) => Some(seq![i]),
            None => match spec_find_any_table(seats, 0) {
                Some(i) => Some(seq![i]),
                None => None,
            },
        }
    }
}

/// The whole policy: refuse outright if the pool cannot satisfy the
/// consumable needs, otherwise choose seats by the rules above.
pub open spec fn spec_try_allocate(
    baby_avail: i32,
    wheel_avail: i32,
    seats: Seq<SeatState>,
    c: CustomerConfig,
) -> Option<Seq<int>> {
    if !spec_pool_ok(baby_avail, wheel_avail, c) {
        None
    } else {
        spec_choose_seats(seats, c)
    }
}

/// The usize indices `v` are exactly the int indices `s`.
pub open spec fn idxs_match(v: Seq<usize>, s: Seq<int>) -> bool {
    v.len() == s.len() && (forall|k: int| 0 <= k < v.len() ==> v[k] as int == s[k])
}

/// What a successful wheel search means: the index is the first candidate.
pub proof fn lemma_find_wheel_props(seats: Seq<SeatState>, from: int)
    requires
        from >= 0,
    ensures
        match spec_find_wheel(seats, from) {
            Some(i) => from <= i < seats.len() && wheel_candidate(seats[i]) && (forall|j: int|
                from <= j < i ==> !wheel_candidate(#[trigger] seats[j])),
            None => forall|j: int| from <= j < seats.len() ==> !wheel_candidate(#[trigger] seats[j]),
        },
    decreases seats.len() - from,
{
    if from < seats.len() && !wheel_candidate(seats[from]) {
        lemma_find_wheel_props(seats, from + 1);
    }
}

/// What a successful fitting-table search means.
pub proof fn lemma_find_table_props(seats: Seq<SeatState>, size: u32, from: int)
    requires
        from >= 0,
    ensures
        match spec_find_table(seats, size, from) {
            Some(i) => from <= i < seats.len() && table_candidate(seats[i], size) && (forall|j: int|
                from <= j < i ==> !table_candidate(#[trigger] seats[j], size)),
            None => forall|j: int|
                from <= j < seats.len() ==> !table_candidate(#[trigger] seats[j], size),
        },
    decreases seats.len() - from,
{
    if from < seats.len() && !table_candidate(seats[from], size) {
        lemma_find_table_props(seats, size, from + 1);
    }
}

/// What a successful single-seat search means.
pub proof fn lemma_find_single_props(seats: Seq<SeatState>, from: int)
    requires
        from >= 0,
    ensures
        match spec_find_single(seats, from) {
            Some(i) => from <= i < seats.len() && single_candidate(seats[i]) && (forall|j: int|
                from <= j < i ==> !single_candidate(#[trigger] seats[j])),
            None => forall|j: int|
                from <= j < seats.len() ==> !single_candidate(#[trigger] seats[j]),
        },
    decreases seats.len() - from,
{
    if from < seats.len() && !single_candidate(seats[from]) {
        lemma_find_single_props(seats, from + 1);
    }
}

/// What a successful any-table search means.
pub proof fn lemma_find_any_table_props(seats: Seq<SeatState>, from: int)
    requires
        from >= 0,
    ensures
        match spec_find_any_table(seats, from) {
            Some(i) => from <= i < seats.len() && any_table_candidate(seats[i]) && (forall|j: int|
                from <= j < i ==> !any_table_candidate(#[trigger] seats[j])),
            None => forall|j: int|
                from <= j < seats.len() ==> !any_table_candidate(#[trigger] seats[j]),
        },
    decreases seats.len() - from,
{
    if from < seats.len() && !any_table_candidate(seats[from]) {
        lemma_find_any_table_props(seats, from + 1);
    }
}

/// The single-seat position list names valid registry positions of single
/// seats, strictly ascending.
pub proof fn lemma_single_positions_props(seats: Seq<SeatState>, from: int)
    requires
        from >= 0,
    ensures
        ({
            let sp = spec_single_positions(seats, from);
            &&& forall|k: int|
                0 <= k < sp.len() ==> from <= #[trigger] sp[k] < seats.len() && seats[sp[
                    k]].config.type_ == SeatType::Single
            &&& forall|k1: int, k2: int| 0 <= k1 < k2 < sp.len() ==> sp[k1] < sp[k2]
        }),
    decreases seats.len() - from,
{
    if 0 <= from < seats.len() {
        lemma_single_positions_props(seats, from + 1);
    }
}

/// What a successful window search means.
pub proof fn lemma_find_window_props(seats: Seq<SeatState>, singles: Seq<int>, from: int)
    requires
        from >= 0,
    ensures
        match spec_find_window(seats, singles, from) {
            Some(w) => from <= w && w + 4 <= singles.len() && window_free(seats, singles, w),
            None => forall|w: int|
                from <= w && w + 4 <= singles.len() ==> !window_free(seats, singles, w),
        },
    decreases singles.len() - from,
{
    if from + 4 <= singles.len() && !window_free(seats, singles, from) {
        lemma_find_window_props(seats, singles, from + 1);
    }
}

/// Every allocation the policy grants is sound: at least one seat, all
/// chosen indices valid, all chosen seats currently free, no index chosen
/// twice.
pub proof fn lemma_chosen_seats_ok(
    baby_avail: i32,
    wheel_avail: i32,
    seats: Seq<SeatState>,
    c: CustomerConfig,
)
    requires
        spec_try_allocate(baby_avail, wheel_avail, seats, c) is Some,
    ensures
        ({
            let s = spec_try_allocate(baby_avail, wheel_avail, seats, c)->Some_0;
            &&& s.len() >= 1
            &&& forall|k: int| 0 <= k < s.len() ==> 0 <= #[trigger] s[k] < seats.len()
            &&& forall|k: int| 0 <= k < s.len() ==> seat_free(seats[#[trigger] s[k]])
            &&& forall|k1: int, k2: int| 0 <= k1 < k2 < s.len() ==> s[k1] != s[k2]
        }),
{
    let s = spec_try_allocate(baby_avail, wheel_avail, seats, c)->Some_0;
    if c.wheelchair_count > 0 {
        lemma_find_wheel_props(seats, 0);
    } else if c.party_size > 1 {
        lemma_find_table_props(seats, c.party_size, 0);
        if spec_find_table(seats, c.party_size, 0) is None {
            let singles = spec_single_positions(seats, 0);
            lemma_single_positions_props(seats, 0);
            lemma_find_window_props(seats, singles, 0);
            let w = spec_find_window(seats, singles, 0)->Some_0;
            assert(s =~= singles.subrange(w, w + 4));
            assert forall|k: int| 0 <= k < s.len() implies 0 <= #[trigger] s[k] < seats.len()
                && seat_free(seats[s[k]]) by {
                assert(s[k] == singles[w + k]);
                assert(seat_free(seats[singles[w + k]]));
            }
        }
    } else {
        lemma_find_single_props(seats, 0);
        if spec_find_single(seats, 0) is None {
            lemma_find_any_table_props(seats, 0);
        }
    }
}

/// All-or-nothing law: an allocation never partially seats a party.  It is
/// either one table whose capacity class admits the whole party (for a
/// multi-person party without an accessibility need), or exactly
/// `party_size` single-occupant seats — never a partial set, never a
/// mixture.
pub proof fn lemma_all_or_nothing(
    baby_avail: i32,
    wheel_avail: i32,
    seats: Seq<SeatState>,
    c: CustomerConfig,
)
    requires
        spec_try_allocate(baby_avail, wheel_avail, seats, c) is Some,
    ensures
        ({
            let s = spec_try_allocate(baby_avail, wheel_avail, seats, c)->Some_0;
            &&& s.len() >= 1
            &&& s.len() > 1 ==> s.len() == c.party_size && (forall|k: int|
                0 <= k < s.len() ==> seats[#[trigger] s[k]].config.type_ == SeatType::Single)
            &&& (s.len() == 1 && c.wheelchair_count == 0 && c.party_size > 1)
                ==> crate::models::spec_seat_capacity(seats[s[0]].config.type_) >= c.party_size
        }),
{
    let s = spec_try_allocate(baby_avail, wheel_avail, seats, c)->Some_0;
    lemma_chosen_seats_ok(baby_avail, wheel_avail, seats, c);
    if c.wheelchair_count > 0 {
        lemma_find_wheel_props(seats, 0);
    } else if c.party_size > 1 {
        lemma_find_table_props(seats, c.party_size, 0);
        if spec_find_table(seats, c.party_size, 0) is None {
            let singles = spec_single_positions(seats, 0);
            lemma_single_positions_props(seats, 0);
            lemma_find_window_props(seats, singles, 0);
            let w = spec_find_window(seats, singles, 0)->Some_0;
            assert(s =~= singles.subrange(w, w + 4));
            assert forall|k: int| 0 <= k < s.len() implies seats[#[trigger] s[k]].config.type_
                == SeatType::Single by {
                assert(s[k] == singles[w + k]);
            }
        }
    } else {
        lemma_find_single_props(seats, 0);
        if spec_find_single(seats, 0) is None {
            lemma_find_any_table_props(seats, 0);
        }
    }
}

/// Accessibility-exclusivity law: a party with an accessibility need is
/// only ever assigned one free, accessibility-capable multi-occupant table
/// — never a single-occupant counter seat.
pub proof fn lemma_accessibility_exclusivity(
    baby_avail: i32,
    wheel_avail: i32,
    seats: Seq<SeatState>,
    c: CustomerConfig,
)
    requires
        c.wheelchair_count > 0,
        spec_try_allocate(baby_avail, wheel_avail, seats, c) is Some,
    ensures
        ({
            let s = spec_try_allocate(baby_avail, wheel_avail, seats, c)->Some_0;
            &&& s.len() == 1
            &&& 0 <= s[0] < seats.len()
            &&& seats[s[0]].config.is_wheelchair_accessible
            &&& seats[s[0]].config.type_ != SeatType::Single
        }),
{
    lemma_find_wheel_props(seats, 0);
}

/// The layout itself can satisfy the party's seat-shape requirement at all:
/// an accessible table for an accessibility need; for a larger party a
/// table of an admitting capacity class, or (for a party of exactly four)
/// at least four single seats; for a party of one, any seat.
pub open spec fn spec_satisfiable(seats: Seq<SeatState>, c: CustomerConfig) -> bool {
    if c.wheelchair_count > 0 {
        exists|i: int|
            0 <= i < seats.len() && (#[trigger] seats[i]).config.is_wheelchair_accessible
                && seats[i].config.type_ != SeatType::Single
    } else if c.party_size > 1 {
        (exists|i: int|
            0 <= i < seats.len() && (((#[trigger] seats[i]).config.type_ == SeatType::Table4
                && c.party_size <= 4) || (seats[i].config.type_ == SeatType::Table6 && c.party_size
                <= 6))) || (c.party_size == 4 && spec_single_positions(seats, 0).len() >= 4)
    } else {
        seats.len() >= 1
    }
}

/// Liveness kernel: in a monitor state where no party is seated (so every
/// seat is free and the pool is at its configured totals), the policy
/// grants any party whose consumable needs fit the totals and whose seat
/// shape the layout can satisfy.  Together with the bounded wait this keeps
/// every party from hanging silently: whenever the room empties, the first
/// waiter the scheduler admits is seated, and a party that can never be
/// satisfied is timed out.  (A hypothesis of the bare form "total seats at
/// least the party's requirement" would not be enough: a party of five is
/// refused even when five single seats are free, since the policy falls
/// back to counter seats only for parties of exactly four.)
pub proof fn lemma_liveness_when_empty(m: MonitorState, c: CustomerConfig)
    requires
        m.wf(),
        m.active@.len() == 0,
        spec_satisfiable(m.seats@, c),
        spec_pool_ok(m.baby_chairs_total, m.wheelchairs_total, c),
    ensures
        spec_try_allocate(m.baby_chairs_available, m.wheelchairs_available, m.seats@, c) is Some,
{
    let seats = m.seats@;
    assert(crate::monitor::sum_baby(m.active@) == 0);
    assert(crate::monitor::sum_wheel(m.active@) == 0);
    assert(spec_pool_ok(m.baby_chairs_available, m.wheelchairs_available, c));
    assert forall|i: int| 0 <= i < seats.len() implies (#[trigger] seats[i]).occupied_by
        is None by {
        if seats[i].occupied_by is Some {
            let k = choose|k: int|
                0 <= k < m.active@.len() && (#[trigger] m.active@[k]).family_id == seats[
                    i].occupied_by->0 && m.active@[k].seats.contains(i);
            assert(false);
        }
    }
    if c.wheelchair_count > 0 {
        lemma_find_wheel_props(seats, 0);
        if spec_find_wheel(seats, 0) is None {
            let i = choose|i: int|
                0 <= i < seats.len() && (#[trigger] seats[i]).config.is_wheelchair_accessible
                    && seats[i].config.type_ != SeatType::Single;
            assert(wheel_candidate(seats[i]));
            assert(false);
        }
    } else if c.party_size > 1 {
        lemma_find_table_props(seats, c.party_size, 0);
        if spec_find_table(seats, c.party_size, 0) is None {
            if exists|i: int|
                0 <= i < seats.len() && (((#[trigger] seats[i]).config.type_ == SeatType::Table4
                    && c.party_size <= 4) || (seats[i].config.type_ == SeatType::Table6
                    && c.party_size <= 6)) {
                let i = choose|i: int|
                    0 <= i < seats.len() && (((#[trigger] seats[i]).config.type_ == SeatType::Table4
                        && c.party_size <= 4) || (seats[i].config.type_ == SeatType::Table6
                        && c.party_size <= 6));
                assert(table_candidate(seats[i], c.party_size));
                assert(false);
            } else {
                let singles = spec_single_positions(seats, 0);
                lemma_single_positions_props(seats, 0);
                assert(window_free(seats, singles, 0));
                assert(spec_find_window(seats, singles, 0) == Some(0int));
            }
        }
    } else {
        lemma_find_single_props(seats, 0);
        if spec_find_single(seats, 0) is None {
            lemma_find_any_table_props(seats, 0);
            if spec_find_any_table(seats, 0) is None {
                assert(!single_candidate(seats[0]));
                assert(!any_table_candidate(seats[0]));
                assert(false);
            }
        }
    }
}

fn find_wheel_seat(seats: &Vec<SeatState>) -> (r: Option<usize>)
    ensures
        match r {
            Some(i) => spec_find_wheel(seats@, 0) == Some(i as int),
            None => spec_find_wheel(seats@, 0) is None,
        },
{
    let mut i: usize = 0;
    while i < seats.len()
        invariant
            0 <= i <= seats.len(),
            spec_find_wheel(seats@, 0) == spec_find_wheel(seats@, i as int),
        decreases seats.len() - i,
    {
        let s = &seats[i];
        if s.occupied_by.is_none() && s.config.is_wheelchair_accessible && !matches!(
            s.config.type_,
            SeatType::Single,
        ) {
            assert(wheel_candidate(seats@[i as int]));
            return Some(i);
        }
        assert(!wheel_candidate(seats@[i as int]));
        i = i + 1;
    }
    None
}

fn find_fitting_table(seats: &Vec<SeatState>, size: u32) -> (r: Option<usize>)
    ensures
        match r {
            Some(i) => spec_find_table(seats@, size, 0) == Some(i as int),
            None => spec_find_table(seats@, size, 0) is None,
        },
{
    let mut i: usize = 0;
    while i < seats.len()
        invariant
            0 <= i <= seats.len(),
            spec_find_table(seats@, size, 0) == spec_find_table(seats@, size, i as int),
        decreases seats.len() - i,
    {
        let s = &seats[i];
        let fits = match s.config.type_ {
            SeatType::Table4 => size <= 4,
            SeatType::Table6 => size <= 6,
            SeatType::Single => false,
        };
        if s.occupied_by.is_none() && fits {
            assert(table_candidate(seats@[i as int], size));
            return Some(i);
        }
        assert(!table_candidate(seats@[i as int], size));
        i = i + 1;
    }
    None
}

fn find_single_seat(seats: &Vec<SeatState>) -> (r: Option<usize>)
    ensures
        match r {
            Some(i) => spec_find_single(seats@, 0) == Some(i as int),
            None => spec_find_single(seats@, 0) is None,
        },
{
    let mut i: usize = 0;
    while i < seats.len()
        invariant
            0 <= i <= seats.len(),
            spec_find_single(seats@, 0) == spec_find_single(seats@, i as int),
        decreases seats.len() - i,
    {
        let s = &seats[i];
        if s.occupied_by.is_none() && matches!(s.config.type_, SeatType::Single) {
            assert(single_candidate(seats@[i as int]));
            return Some(i);
        }
        assert(!single_candidate(seats@[i as int]));
        i = i + 1;
    }
    None
}

fn find_any_table(seats: &Vec<SeatState>) -> (r: Option<usize>)
    ensures
        match r {
            Some(i) => spec_find_any_table(seats@, 0) == Some(i as int),
            None => spec_find_any_table(seats@, 0) is None,
        },
{
    let mut i: usize = 0;
    while i < seats.len()
        invariant
            0 <= i <= seats.len(),
            spec_find_any_table(seats@, 0) == spec_find_any_table(seats@, i as int),
        decreases seats.len() - i,
    {
        let s = &seats[i];
        if s.occupied_by.is_none() && !matches!(s.config.type_, SeatType::Single) {
            assert(any_table_candidate(seats@[i as int]));
            return Some(i);
        }
        assert(!any_table_candidate(seats@[i as int]));
        i = i + 1;
    }
    None
}

fn single_positions(seats: &Vec<SeatState>) -> (r: Vec<usize>)
    ensures
        idxs_match(r@, spec_single_positions(seats@, 0)),
        forall|k: int| 0 <= k < r@.len() ==> r@[k] < seats@.len(),
{
    let mut r: Vec<usize> = Vec::new();
    let mut i: usize = 0;
    while i < seats.len()
        invariant
            0 <= i <= seats.len(),
            forall|k: int| 0 <= k < r@.len() ==> r@[k] < seats@.len(),
            spec_single_positions(seats@, 0) =~= r@.map_values(|x: usize| x as int)
                + spec_single_positions(seats@, i as int),
        decreases seats.len() - i,
    {
        if matches!(seats[i].config.type_, SeatType::Single) {
            let ghost before = r@;
            r.push(i);
            assert(r@.map_values(|x: usize| x as int) =~= before.map_values(
                |x: usize| x as int,
            ).push(i as int));
        }
        i = i + 1;
    }
    assert(idxs_match(r@, r@.map_values(|x: usize| x as int)));
    r
}

fn find_free_window(seats: &Vec<SeatState>, singles: &Vec<usize>) -> (r: Option<usize>)
    requires
        forall|k: int| 0 <= k < singles@.len() ==> singles@[k] < seats@.len(),
    ensures
        ({
            let sp = singles@.map_values(|x: usize| x as int);
            match r {
                Some(w) => spec_find_window(seats@, sp, 0) == Some(w as int) && w + 4
                    <= singles@.len(),
                None => spec_find_window(seats@, sp, 0) is None,
            }
        }),
{
    let ghost sp = singles@.map_values(|x: usize| x as int);
    if singles.len() < 4 {
        return None;
    }
    let mut w: usize = 0;
    while w <= singles.len() - 4
        invariant
            singles@.len() >= 4,
            0 <= w <= singles@.len() - 3,
            sp == singles@.map_values(|x: usize| x as int),
            forall|k: int| 0 <= k < singles@.len() ==> singles@[k] < seats@.len(),
            spec_find_window(seats@, sp, 0) == spec_find_window(seats@, sp, w as int),
        decreases singles.len() - w,
    {
        let all_free = seats[singles[w]].occupied_by.is_none()
            && seats[singles[w + 1]].occupied_by.is_none()
            && seats[singles[w + 2]].occupied_by.is_none()
            && seats[singles[w + 3]].occupied_by.is_none();
        if all_free {
            assert forall|k: int| w <= k < w + 4 implies seat_free(seats@[#[trigger] sp[k]]) by {
                assert(k == w || k == w + 1 || k == w + 2 || k == w + 3);
            }
            assert(window_free(seats@, sp, w as int));
            return Some(w);
        }
        assert(!window_free(seats@, sp, w as int)) by {
            if window_free(seats@, sp, w as int) {
                assert(seat_free(seats@[sp[w as int]]));
                assert(seat_free(seats@[sp[w as int + 1]]));
                assert(seat_free(seats@[sp[w as int + 2]]));
                assert(seat_free(seats@[sp[w as int + 3]]));
            }
        }
        w = w + 1;
    }
    None
}

/// Evaluate the allocation policy against the current seat registry and
/// resource pool.  Pure: no mutation.  Returns the registry indices of the
/// chosen seats, or `None` for a refusal; the result is exactly what
/// `spec_try_allocate` describes.
pub fn try_allocate(res: &MonitorState, customer: &CustomerConfig) -> (r: Option<Vec<usize>>)
    ensures
        match r {
            Some(v) => {
                &&& spec_try_allocate(
                    res.baby_chairs_available,
                    res.wheelchairs_available,
                    res.seats@,
                    *customer,
                ) matches Some(s) && idxs_match(v@, s)
                &&& v@.len() >= 1
            },
            None => spec_try_allocate(
                res.baby_chairs_available,
                res.wheelchairs_available,
                res.seats@,
                *customer,
            ) is None,
        },
{
    if customer.baby_chair_count > 0 && (res.baby_chairs_available as i64) < (
    customer.baby_chair_count as i64) {
        return None;
    }
    if customer.wheelchair_count > 0 && (res.wheelchairs_available as i64) < (
    customer.wheelchair_count as i64) {
        return None;
    }
    if customer.wheelchair_count > 0 {
        match find_wheel_seat(&res.seats) {
            Some(i) => {
                let mut v: Vec<usize> = Vec::new();
                v.push(i);
                Some(v)
            },
            None => None,
        }
    } else if customer.party_size > 1 {
        match find_fitting_table(&res.seats, customer.party_size) {
            Some(i) => {
                let mut v: Vec<usize> = Vec::new();
                v.push(i);
                Some(v)
            },
            None => {
                if customer.party_size == 4 {
                    let singles = single_positions(&res.seats);
                    let ghost sp = singles@.map_values(|x: usize| x as int);
                    proof {
                        assert(sp =~= spec_single_positions(res.seats@, 0));
                    }
                    match find_free_window(&res.seats, &singles) {
                        Some(w) => {
                            let n = singles.len();
                            proof {
                                assert(w + 4 <= n);
                            }
                            let mut v: Vec<usize> = Vec::new();
                            v.push(singles[w]);
                            v.push(singles[w + 1]);
                            v.push(singles[w + 2]);
                            v.push(singles[w + 3]);
                            assert(idxs_match(v@, sp.subrange(w as int, w as int + 4)));
                            Some(v)
                        },
                        None => None,
                    }
                } else {
                    None
                }
            },
        }
    } else {
        match find_single_seat(&res.seats) {
            Some(i) => {
                let mut v: Vec<usize> = Vec::new();
                v.push(i);
                Some(v)
            },
            None => {
                match find_any_table(&res.seats) {
                    Some(i) => {
                        let mut v: Vec<usize> = Vec::new();
                        v.push(i);
                        Some(v)
                    },
                    None => None,
                }
            },
        }
    }
}

} // verus!
