//! The event sequencer's post-processing: sorting the finished log by
//! `(timestamp, sequence)` into one deterministic total order.

use vstd::prelude::*;
use vstd::multiset::Multiset;

use crate::models::{Action, SimEvent};

verus! {

/// Lexicographic order on `(timestamp, sequence)`.
pub open spec fn lex_le(a: SimEvent, b: SimEvent) -> bool {
    a.time < b.time || (a.time == b.time && a.sequence <= b.sequence)
}

/// The log is sorted by `(timestamp, sequence)` ascending.
pub open spec fn sorted_lex(s: Seq<SimEvent>) -> bool {
    forall|i: int, j: int| 0 <= i < j < s.len() ==> lex_le(#[trigger] s[i], #[trigger] s[j])
}

/// No two records share a sequence number.
pub open spec fn distinct_sequences(s: Seq<SimEvent>) -> bool {
    forall|i: int, j: int|
        0 <= i < j < s.len() ==> (#[trigger] s[i]).sequence != (#[trigger] s[j]).sequence
}

proof fn lemma_to_multiset_insert(s: Seq<SimEvent>, p: int, e: SimEvent)
    requires
        0 <= p <= s.len(),
    ensures
        s.insert(p, e).to_multiset() == s.to_multiset().insert(e),
{
    broadcast use vstd::seq_lib::group_to_multiset_ensures;

    let s2 = s.insert(p, e);
    assert(s2.remove(p) =~= s);
    assert(s2[p] == e);
    assert(s.to_multiset() =~= s2.to_multiset().remove(e));
    assert(s2.contains(e));
    assert(s2.to_multiset().count(e) > 0);
    assert(s2.to_multiset() =~= s.to_multiset().insert(e));
}

fn lex_le_exec(a: &SimEvent, b: &SimEvent) -> (r: bool)
    ensures
        r == lex_le(*a, *b),
{
    a.time < b.time || (a.time == b.time && a.sequence <= b.sequence)
}

/// Sort the finished event log by `(timestamp, sequence)` ascending:
/// timestamp is the primary key, the sequence number the tie-break.  The
/// result is a permutation of the input.
pub fn sort_events(events: Vec<SimEvent>) -> (r: Vec<SimEvent>)
    ensures
        sorted_lex(r@),
        r@.to_multiset() == events@.to_multiset(),
        r@.len() == events@.len(),
{
    let ghost orig = events@;
    let mut rest = events;
    let mut r: Vec<SimEvent> = Vec::new();
    proof {
        broadcast use vstd::seq_lib::group_to_multiset_ensures;

        assert(r@.to_multiset().add(rest@.to_multiset()) =~= orig.to_multiset());
    }
    while rest.len() > 0
        invariant
            sorted_lex(r@),
            r@.to_multiset().add(rest@.to_multiset()) == orig.to_multiset(),
            r@.len() + rest@.len() == orig.len(),
        decreases rest@.len(),
    {
        let ghost rest0 = rest@;
        let e = rest.pop().unwrap();
        proof {
            broadcast use vstd::seq_lib::group_to_multiset_ensures;

            assert(rest0.drop_last() =~= rest0.remove(rest0.len() - 1));
            assert(rest@.to_multiset() =~= rest0.to_multiset().remove(e));
        }
        let mut p: usize = 0;
        while p < r.len() && lex_le_exec(&r[p], &e)
            invariant
                p <= r@.len(),
                forall|q: int| 0 <= q < p ==> lex_le(#[trigger] r@[q], e),
            decreases r@.len() - p,
        {
            p = p + 1;
        }
        let ghost rpre = r@;
        proof {
            lemma_to_multiset_insert(r@, p as int, e);
        }
        r.insert(p, e);
        proof {
            broadcast use vstd::seq_lib::group_to_multiset_ensures;

            assert forall|i: int, j: int| 0 <= i < j < r@.len() implies lex_le(
                #[trigger] r@[i],
                #[trigger] r@[j],
            ) by {
                if j < p {
                    assert(r@[i] == rpre[i] && r@[j] == rpre[j]);
                } else if i < p && j == p {
                    assert(r@[i] == rpre[i] && r@[j] == e);
                } else if i < p && j > p {
                    assert(r@[i] == rpre[i] && r@[j] == rpre[j - 1]);
                } else if i == p && j > p {
                    assert(r@[i] == e && r@[j] == rpre[j - 1]);
                    assert(!lex_le(rpre[p as int], e));
                    assert(lex_le(rpre[p as int], rpre[j - 1]));
                } else {
                    assert(r@[i] == rpre[i - 1] && r@[j] == rpre[j - 1]);
                }
            }
            assert(r@.to_multiset().add(rest@.to_multiset()) =~= orig.to_multiset());
        }
    }
    proof {
        broadcast use vstd::seq_lib::group_to_multiset_ensures;

        assert(rest@.to_multiset().len() == 0);
        assert forall|x: SimEvent| rest@.to_multiset().count(x) == 0 by {
            if rest@.to_multiset().count(x) > 0 {
                assert(rest@.contains(x));
            }
        }
        assert(rest@.to_multiset() =~= Multiset::empty());
        assert(r@.to_multiset() =~= orig.to_multiset());
        assert(orig.to_multiset().len() == orig.len());
        assert(r@.to_multiset().len() == r@.len());
    }
    r
}

/// Determinism law: over records with pairwise distinct sequence numbers,
/// `(timestamp, sequence)` is a strict total order, so there is exactly one
/// sorted arrangement of a given log — the replay order does not depend on
/// how the actors interleaved, only on what they appended.
pub proof fn lemma_sorted_permutation_unique(a: Seq<SimEvent>, b: Seq<SimEvent>)
    requires
        sorted_lex(a),
        sorted_lex(b),
        a.to_multiset() == b.to_multiset(),
        distinct_sequences(a),
    ensures
        a == b,
    decreases a.len(),
{
    broadcast use vstd::seq_lib::group_to_multiset_ensures;

    if a.len() == 0 {
        assert(b.to_multiset().len() == 0);
        assert(a =~= b);
    } else {
        assert(a.to_multiset().len() == a.len());
        assert(b.to_multiset().len() == b.len());
        assert(b.len() == a.len());
        assert(a.contains(a[0]));
        assert(a.to_multiset().count(a[0]) > 0);
        assert(b.to_multiset().count(a[0]) > 0);
        assert(b.contains(a[0]));
        let i = choose|i: int| 0 <= i < b.len() && b[i] == a[0];
        assert(lex_le(b[0], a[0]));
        assert(b.contains(b[0]));
        assert(b.to_multiset().count(b[0]) > 0);
        assert(a.to_multiset().count(b[0]) > 0);
        assert(a.contains(b[0]));
        let j = choose|j: int| 0 <= j < a.len() && a[j] == b[0];
        assert(lex_le(a[0], b[0]));
        assert(a[0].time == b[0].time && a[0].sequence == b[0].sequence);
        // the shared sequence number forces the shared head
        if j != 0 {
            assert(a[j].sequence != a[0].sequence);
            assert(false);
        }
        assert(a[0] == b[0]);
        let a1 = a.drop_first();
        let b1 = b.drop_first();
        assert(a.remove(0) =~= a1);
        assert(b.remove(0) =~= b1);
        assert(a1.to_multiset() =~= a.to_multiset().remove(a[0]));
        assert(b1.to_multiset() =~= b.to_multiset().remove(b[0]));
        assert(a1.to_multiset() == b1.to_multiset());
        assert forall|x: int, y: int| 0 <= x < y < a1.len() implies lex_le(
            #[trigger] a1[x],
            #[trigger] a1[y],
        ) && a1[x].sequence != a1[y].sequence by {
            assert(a1[x] == a[x + 1] && a1[y] == a[y + 1]);
        }
        assert forall|x: int, y: int| 0 <= x < y < b1.len() implies lex_le(
            #[trigger] b1[x],
            #[trigger] b1[y],
        ) by {
            assert(b1[x] == b[x + 1] && b1[y] == b[y + 1]);
        }
        lemma_sorted_permutation_unique(a1, b1);
        assert forall|k: int| 0 <= k < a.len() implies a[k] == b[k] by {
            if k > 0 {
                assert(a[k] == a1[k - 1] && b[k] == b1[k - 1]);
            }
        }
        assert(a =~= b);
    }
}

/// Causality carries over to the sorted log: however the records are
/// reordered by `(timestamp, sequence)`, every SEATED record is still
/// accompanied by an ARRIVED record of the same party with a timestamp no
/// later than it, and every LEFT record by such a SEATED record.
pub proof fn lemma_sorted_log_causality(log: Seq<SimEvent>, sorted: Seq<SimEvent>)
    requires
        crate::monitor::log_wf(log),
        sorted.to_multiset() == log.to_multiset(),
    ensures
        forall|k: int|
            0 <= k < sorted.len() && ((#[trigger] sorted[k]).action matches Action::Sit(_))
                ==> crate::monitor::has_arrive(sorted, sorted[k].family_id, sorted[k].time),
        forall|k: int|
            0 <= k < sorted.len() && ((#[trigger] sorted[k]).action matches Action::Leave(_))
                ==> crate::monitor::has_sit(sorted, sorted[k].family_id, sorted[k].time),
{
    broadcast use vstd::seq_lib::group_to_multiset_ensures;

    assert forall|k: int|
        0 <= k < sorted.len() && (#[trigger] sorted[k]).action matches Action::Sit(
            _,
        ) implies crate::monitor::has_arrive(sorted, sorted[k].family_id, sorted[k].time) by {
        let e = sorted[k];
        assert(sorted.contains(e));
        assert(sorted.to_multiset().count(e) > 0);
        assert(log.to_multiset().count(e) > 0);
        assert(log.contains(e));
        let j0 = choose|j0: int| 0 <= j0 < log.len() && log[j0] == e;
        assert(crate::monitor::causal_at(log, j0));
        let a = choose|a: int|
            0 <= a < j0 && crate::monitor::is_arrive_of(#[trigger] log[a], log[j0].family_id)
                && log[a].time <= log[j0].time;
        assert(log.contains(log[a]));
        assert(log.to_multiset().count(log[a]) > 0);
        assert(sorted.to_multiset().count(log[a]) > 0);
        assert(sorted.contains(log[a]));
        let j = choose|j: int| 0 <= j < sorted.len() && sorted[j] == log[a];
        assert(crate::monitor::is_arrive_of(sorted[j], e.family_id) && sorted[j].time <= e.time);
    }
    assert forall|k: int|
        0 <= k < sorted.len() && (#[trigger] sorted[k]).action matches Action::Leave(
            _,
        ) implies crate::monitor::has_sit(sorted, sorted[k].family_id, sorted[k].time) by {
        let e = sorted[k];
        assert(sorted.contains(e));
        assert(sorted.to_multiset().count(e) > 0);
        assert(log.to_multiset().count(e) > 0);
        assert(log.contains(e));
        let j0 = choose|j0: int| 0 <= j0 < log.len() && log[j0] == e;
        assert(crate::monitor::causal_at(log, j0));
        let a = choose|a: int|
            0 <= a < j0 && crate::monitor::is_sit_of(#[trigger] log[a], log[j0].family_id)
                && log[a].time <= log[j0].time;
        assert(log.contains(log[a]));
        assert(log.to_multiset().count(log[a]) > 0);
        assert(sorted.to_multiset().count(log[a]) > 0);
        assert(sorted.contains(log[a]));
        let j = choose|j: int| 0 <= j < sorted.len() && sorted[j] == log[a];
        assert(crate::monitor::is_sit_of(sorted[j], e.family_id) && sorted[j].time <= e.time);
    }
}

/// Monotonic-sequence law over the sorted log: timestamps never decrease,
/// and among records sharing a timestamp the sequence numbers strictly
/// increase, so `(timestamp, sequence)` is a strict total order and the
/// replay order is deterministic.
pub proof fn lemma_sorted_log_monotone(s: Seq<SimEvent>)
    requires
        sorted_lex(s),
        distinct_sequences(s),
    ensures
        forall|i: int, j: int|
            0 <= i < j < s.len() ==> (#[trigger] s[i]).time <= (#[trigger] s[j]).time,
        forall|i: int, j: int|
            0 <= i < j < s.len() && (#[trigger] s[i]).time == (#[trigger] s[j]).time ==> s[
                i].sequence < s[j].sequence,
{
}

} // verus!
