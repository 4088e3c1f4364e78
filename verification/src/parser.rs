//! Parsing of tabular party records.  `spec_parse_customers` is the
//! authoritative description of the format, character by character; the
//! executable `parse_customers` is proved to produce exactly the records it
//! describes.
//!
//! One line per party: `id,arrival,type,size,baby,wheel,duration`, comma
//! separated.  A header line starting (case-insensitively) with `id`, empty
//! lines, lines of fewer than seven fields and lines whose id is missing or
//! zero are skipped.  Numeric fields fall back to a default when malformed;
//! the two consumable fields also accept `true` for one unit.  Case folding
//! and whitespace trimming cover the ASCII range.

use vstd::prelude::*;

use crate::errors::AppError;
use crate::models::CustomerConfig;

verus! {

/// ASCII whitespace, as trimming removes it.
pub open spec fn is_space(ch: char) -> bool {
    ch == ' ' || ch == '\t' || ch == '\n' || ch == '\r' || ch == '\u{000b}' || ch == '\u{000c}'
}

/// The string without its leading whitespace.
pub open spec fn spec_trim_start(s: Seq<char>) -> Seq<char>
    decreases s.len(),
{
    if s.len() > 0 && is_space(s.first()) {
        spec_trim_start(s.drop_first())
    } else {
        s
    }
}

/// The string without its trailing whitespace.
pub open spec fn spec_trim_end(s: Seq<char>) -> Seq<char>
    decreases s.len(),
{
    if s.len() > 0 && is_space(s.last()) {
        spec_trim_end(s.drop_last())
    } else {
        s
    }
}

/// The string without leading and trailing whitespace.
pub open spec fn spec_trim(s: Seq<char>) -> Seq<char> {
    spec_trim_end(spec_trim_start(s))
}

/// Position of the first `sep` at or after `from`; the length if there is
/// none.
pub open spec fn spec_index_of(s: Seq<char>, sep: char, from: int) -> int
    decreases s.len() - from,
{
    if from < 0 || from >= s.len() {
        s.len() as int
    } else if s[from] == sep {
        from
    } else {
        spec_index_of(s, sep, from + 1)
    }
}

/// The first position is between `from` and the length, and everything
/// before it differs from `sep`.
pub proof fn lemma_index_of_bounds(s: Seq<char>, sep: char, from: int)
    requires
        0 <= from <= s.len(),
    ensures
        from <= spec_index_of(s, sep, from) <= s.len(),
        spec_index_of(s, sep, from) < s.len() ==> s[spec_index_of(s, sep, from)] == sep,
        forall|j: int| from <= j < spec_index_of(s, sep, from) ==> s[j] != sep,
    decreases s.len() - from,
{
    if from < s.len() && s[from] != sep {
        lemma_index_of_bounds(s, sep, from + 1);
    }
}

/// Searching a suffix finds the same position, shifted.
pub proof fn lemma_index_of_skip(s: Seq<char>, sep: char, a: int, from: int)
    requires
        0 <= a <= s.len(),
        a <= from <= s.len(),
    ensures
        spec_index_of(s.skip(a), sep, from - a) == spec_index_of(s, sep, from) - a,
    decreases s.len() - from,
{
    if from < s.len() {
        assert(s.skip(a)[from - a] == s[from]);
        if s[from] != sep {
            lemma_index_of_skip(s, sep, a, from + 1);
        }
    }
}

/// The pieces of the string between occurrences of `sep`: always one more
/// piece than separators, empty pieces included.
pub open spec fn spec_split(s: Seq<char>, sep: char) -> Seq<Seq<char>>
    decreases s.len(),
    via spec_split_decreases
{
    if spec_index_of(s, sep, 0) >= s.len() {
        seq![s]
    } else {
        seq![s.take(spec_index_of(s, sep, 0))] + spec_split(
            s.skip(spec_index_of(s, sep, 0) + 1),
            sep,
        )
    }
}

#[via_fn]
proof fn spec_split_decreases(s: Seq<char>, sep: char) {
    lemma_index_of_bounds(s, sep, 0);
}

/// A decimal digit.
pub open spec fn is_digit(ch: char) -> bool {
    48 <= ch as int && ch as int <= 57
}

/// A string of one or more decimal digits.
pub open spec fn all_digits(s: Seq<char>) -> bool {
    s.len() >= 1 && forall|i: int| 0 <= i < s.len() ==> is_digit(#[trigger] s[i])
}

/// The value of a digit string, most significant digit first.
pub open spec fn spec_digits_val(s: Seq<char>) -> int
    decreases s.len(),
{
    if s.len() == 0 {
        0
    } else {
        spec_digits_val(s.drop_last()) * 10 + (s.last() as int - 48)
    }
}

/// The number part of a string as `parse` reads it: an optional leading
/// plus sign, then digits.
pub open spec fn spec_number_body(s: Seq<char>) -> Seq<char> {
    if s.len() >= 1 && s.first() == '+' {
        s.drop_first()
    } else {
        s
    }
}

/// The value of the string as an unsigned 32-bit number, or the default
/// where it is not one.
pub open spec fn spec_parse_u32(s: Seq<char>, default: u32) -> u32 {
    let body = spec_number_body(s);
    if all_digits(body) && spec_digits_val(body) <= u32::MAX {
        spec_digits_val(body) as u32
    } else {
        default
    }
}

/// The value of the string as an unsigned 64-bit number, or the default
/// where it is not one.
pub open spec fn spec_parse_u64(s: Seq<char>, default: u64) -> u64 {
    let body = spec_number_body(s);
    if all_digits(body) && spec_digits_val(body) <= u64::MAX {
        spec_digits_val(body) as u64
    } else {
        default
    }
}

/// ASCII lower-casing of one character.
pub open spec fn spec_lower_char(ch: char) -> char {
    if 65 <= ch as int && ch as int <= 90 {
        (ch as int + 32) as char
    } else {
        ch
    }
}

/// ASCII upper-casing of one character.
pub open spec fn spec_upper_char(ch: char) -> char {
    if 97 <= ch as int && ch as int <= 122 {
        (ch as int - 32) as char
    } else {
        ch
    }
}

/// ASCII lower-casing of a string.
pub open spec fn spec_ascii_lower(s: Seq<char>) -> Seq<char> {
    s.map_values(|c: char| spec_lower_char(c))
}

/// ASCII upper-casing of a string.
pub open spec fn spec_ascii_upper(s: Seq<char>) -> Seq<char> {
    s.map_values(|c: char| spec_upper_char(c))
}

/// A consumable-count field: `true` counts as one unit, otherwise the field
/// is read as a number, zero when malformed.
pub open spec fn spec_flag_count(field: Seq<char>) -> u32 {
    let t = spec_ascii_lower(spec_trim(field));
    if t == "true"@ {
        1u32
    } else {
        spec_parse_u32(t, 0)
    }
}

/// One parsed party record, before it is put into a `CustomerConfig`.
pub struct CustomerRec {
    pub id: u32,
    pub arrival_time: u64,
    pub type_: Seq<char>,
    pub party_size: u32,
    pub baby_chair_count: u32,
    pub wheelchair_count: u32,
    pub est_dining_time: u64,
}

/// What one line yields: nothing for an empty line, the header line (the
/// first line when it starts case-insensitively with `id`), a line of fewer
/// than seven fields, or a line whose id is missing or zero; otherwise the
/// record its fields spell.
pub open spec fn spec_parse_line(idx: int, line: Seq<char>) -> Option<CustomerRec> {
    let t = spec_trim(line);
    let lower = spec_ascii_lower(t);
    if t.len() == 0 {
        None
    } else if idx == 0 && t.len() >= 2 && lower[0] == 'i' && lower[1] == 'd' {
        None
    } else {
        let parts = spec_split(t, ',');
        if parts.len() < 7 {
            None
        } else {
            let id = spec_parse_u32(spec_trim(parts[0]), 0);
            if id == 0 {
                None
            } else {
                Some(
                    CustomerRec {
                        id,
                        arrival_time: spec_parse_u64(spec_trim(parts[1]), 0),
                        type_: spec_ascii_upper(spec_trim(parts[2])),
                        party_size: spec_parse_u32(spec_trim(parts[3]), 1),
                        baby_chair_count: spec_flag_count(parts[4]),
                        wheelchair_count: spec_flag_count(parts[5]),
                        est_dining_time: spec_parse_u64(spec_trim(parts[6]), 60),
                    },
                )
            }
        }
    }
}

/// The records of all lines, in order, lines numbered from zero.
pub open spec fn spec_parse_lines(lines: Seq<Seq<char>>) -> Seq<CustomerRec>
    decreases lines.len(),
{
    if lines.len() == 0 {
        Seq::empty()
    } else {
        let prev = spec_parse_lines(lines.drop_last());
        match spec_parse_line(lines.len() - 1, lines.last()) {
            Some(r) => prev.push(r),
            None => prev,
        }
    }
}

/// The records of a whole document: its lines split at newlines, parsed in
/// order.
pub open spec fn spec_parse_customers(s: Seq<char>) -> Seq<CustomerRec> {
    spec_parse_lines(spec_split(s, '\n'))
}

/// The returned structure carries exactly the parsed record; the family
/// identity is the party identity.
pub open spec fn customer_matches(c: CustomerConfig, r: CustomerRec) -> bool {
    &&& c.id == r.id
    &&& c.family_id == r.id
    &&& c.arrival_time == r.arrival_time
    &&& c.type_@ == r.type_
    &&& c.party_size == r.party_size
    &&& c.baby_chair_count == r.baby_chair_count
    &&& c.wheelchair_count == r.wheelchair_count
    &&& c.est_dining_time == r.est_dining_time
}

/// The whole result matches the whole parse.
pub open spec fn customers_match(v: Seq<CustomerConfig>, rs: Seq<CustomerRec>) -> bool {
    v.len() == rs.len() && (forall|k: int|
        0 <= k < v.len() ==> customer_matches(#[trigger] v[k], rs[k]))
}

/// Every digit string has a nonnegative value.
proof fn lemma_digits_val_nonneg(s: Seq<char>)
    requires
        forall|i: int| 0 <= i < s.len() ==> is_digit(#[trigger] s[i]),
    ensures
        spec_digits_val(s) >= 0,
    decreases s.len(),
{
    if s.len() > 0 {
        lemma_digits_val_nonneg(s.drop_last());
    }
}

/// Appending digits never shrinks the value.
proof fn lemma_digits_val_mono(s: Seq<char>, i: int)
    requires
        0 <= i <= s.len(),
        forall|j: int| 0 <= j < s.len() ==> is_digit(#[trigger] s[j]),
    ensures
        spec_digits_val(s) >= spec_digits_val(s.take(i)),
    decreases s.len(),
{
    if i == s.len() {
        assert(s.take(i) =~= s);
    } else {
        let d = s.drop_last();
        assert forall|j: int| 0 <= j < d.len() implies is_digit(#[trigger] d[j]) by {
            assert(d[j] == s[j]);
        }
        lemma_digits_val_mono(d, i);
        lemma_digits_val_nonneg(d);
        assert(s.take(i) =~= d.take(i));
        assert(spec_digits_val(s) == spec_digits_val(d) * 10 + (s.last() as int - 48));
    }
}

/// ASCII lower-casing does not change how a string reads as a number.
proof fn lemma_lower_parse(t: Seq<char>, d: u32)
    ensures
        spec_parse_u32(spec_ascii_lower(t), d) == spec_parse_u32(t, d),
{
    let lt = spec_ascii_lower(t);
    let bt = spec_number_body(t);
    let blt = spec_number_body(lt);
    assert(lt.len() == t.len());
    if t.len() >= 1 && t.first() == '+' {
        assert(lt.first() == spec_lower_char('+'));
        assert(blt =~= spec_ascii_lower(bt));
    } else {
        if t.len() >= 1 {
            assert(lt.first() == spec_lower_char(t.first()));
        }
        assert(blt =~= spec_ascii_lower(bt));
    }
    assert forall|j: int| 0 <= j < bt.len() implies is_digit(#[trigger] blt[j]) == is_digit(
        bt[j],
    ) by {
        assert(blt[j] == spec_lower_char(bt[j]));
    }
    if all_digits(bt) {
        assert(blt =~= bt) by {
            assert forall|j: int| 0 <= j < bt.len() implies blt[j] == bt[j] by {
                assert(is_digit(bt[j]));
                assert(blt[j] == spec_lower_char(bt[j]));
            }
        }
    } else {
        if bt.len() >= 1 {
            let j = choose|j: int| 0 <= j < bt.len() && !is_digit(bt[j]);
            assert(!is_digit(blt[j]));
            assert(!all_digits(blt));
        }
    }
}

fn is_space_exec(c: char) -> (r: bool)
    ensures
        r == is_space(c),
{
    c == ' ' || c == '\t' || c == '\n' || c == '\r' || c == '\u{000b}' || c == '\u{000c}'
}

fn str_to_chars(s: &str) -> (r: Vec<char>)
    ensures
        r@ == s@,
{
    let n = s.unicode_len();
    let mut r: Vec<char> = Vec::new();
    let mut i: usize = 0;
    while i < n
        invariant
            i <= n,
            n == s@.len(),
            r@ == s@.take(i as int),
        decreases n - i,
    {
        let c = s.get_char(i);
        r.push(c);
        proof {
            assert(r@ =~= s@.take(i as int + 1));
        }
        i = i + 1;
    }
    proof {
        assert(s@.take(n as int) =~= s@);
    }
    r
}

fn copy_range(cs: &Vec<char>, a: usize, b: usize) -> (r: Vec<char>)
    requires
        a <= b <= cs@.len(),
    ensures
        r@ == cs@.subrange(a as int, b as int),
{
    let mut r: Vec<char> = Vec::new();
    let mut i: usize = a;
    while i < b
        invariant
            a <= i <= b <= cs@.len(),
            r@ == cs@.subrange(a as int, i as int),
        decreases b - i,
    {
        r.push(cs[i]);
        proof {
            assert(r@ =~= cs@.subrange(a as int, i as int + 1));
        }
        i = i + 1;
    }
    r
}

fn find_char(cs: &Vec<char>, sep: char, from: usize) -> (r: usize)
    requires
        from <= cs@.len(),
    ensures
        r as int == spec_index_of(cs@, sep, from as int),
        from <= r <= cs@.len(),
{
    let mut j: usize = from;
    while j < cs.len()
        invariant
            from <= j <= cs@.len(),
            spec_index_of(cs@, sep, from as int) == spec_index_of(cs@, sep, j as int),
        decreases cs@.len() - j,
    {
        if cs[j] == sep {
            return j;
        }
        j = j + 1;
    }
    cs.len()
}

/// The list of character vectors carries exactly these strings.
pub open spec fn pieces_match(v: Seq<Vec<char>>, s: Seq<Seq<char>>) -> bool {
    v.len() == s.len() && (forall|k: int| 0 <= k < v.len() ==> (#[trigger] v[k])@ == s[k])
}

fn split_from(cs: &Vec<char>, sep: char, from: usize) -> (r: Vec<Vec<char>>)
    requires
        from <= cs@.len(),
    ensures
        pieces_match(r@, spec_split(cs@.skip(from as int), sep)),
    decreases cs@.len() - from,
{
    let i = find_char(cs, sep, from);
    proof {
        lemma_index_of_bounds(cs@, sep, from as int);
        lemma_index_of_skip(cs@, sep, from as int, from as int);
    }
    if i >= cs.len() {
        let piece = copy_range(cs, from, cs.len());
        let mut out: Vec<Vec<char>> = Vec::new();
        proof {
            assert(cs@.subrange(from as int, cs@.len() as int) =~= cs@.skip(from as int));
        }
        out.push(piece);
        out
    } else {
        let piece = copy_range(cs, from, i);
        let rest = split_from(cs, sep, i + 1);
        proof {
            let suf = cs@.skip(from as int);
            assert(spec_index_of(suf, sep, 0) == i - from);
            assert(suf.take(i - from) =~= cs@.subrange(from as int, i as int));
            assert(suf.skip(i - from + 1) =~= cs@.skip(i as int + 1));
        }
        let ghost piece_v = piece@;
        let ghost rest0 = rest@;
        let mut out: Vec<Vec<char>> = Vec::new();
        out.push(piece);
        let mut rest = rest;
        while rest.len() > 0
            invariant
                out@.len() >= 1,
                out@.len() + rest@.len() == 1 + rest0.len(),
                forall|k: int|
                    0 <= k < out@.len() ==> (#[trigger] out@[k])@ == (seq![piece_v]
                        + rest0.map_values(|v: Vec<char>| v@))[k],
                forall|k: int|
                    0 <= k < rest@.len() ==> (#[trigger] rest@[k])@ == rest0.map_values(
                        |v: Vec<char>| v@,
                    )[out@.len() - 1 + k],
            decreases rest@.len(),
        {
            let x = rest.remove(0);
            out.push(x);
        }
        out
    }
}

fn trim_range(cs: &Vec<char>, a: usize, b: usize) -> (r: (usize, usize))
    requires
        a <= b <= cs@.len(),
    ensures
        a <= r.0 <= r.1 <= b,
        spec_trim(cs@.subrange(a as int, b as int)) == cs@.subrange(r.0 as int, r.1 as int),
{
    let mut lo: usize = a;
    while lo < b && is_space_exec(cs[lo])
        invariant
            a <= lo <= b <= cs@.len(),
            spec_trim_start(cs@.subrange(a as int, b as int)) == spec_trim_start(
                cs@.subrange(lo as int, b as int),
            ),
        decreases b - lo,
    {
        proof {
            let cur = cs@.subrange(lo as int, b as int);
            assert(cur.first() == cs@[lo as int]);
            assert(cur.drop_first() =~= cs@.subrange(lo as int + 1, b as int));
        }
        lo = lo + 1;
    }
    proof {
        let cur = cs@.subrange(lo as int, b as int);
        if cur.len() > 0 {
            assert(cur.first() == cs@[lo as int]);
        }
        assert(spec_trim_start(cur) == cur);
    }
    let mut hi: usize = b;
    while hi > lo && is_space_exec(cs[hi - 1])
        invariant
            lo <= hi <= b <= cs@.len(),
            spec_trim_end(cs@.subrange(lo as int, b as int)) == spec_trim_end(
                cs@.subrange(lo as int, hi as int),
            ),
        decreases hi,
    {
        proof {
            let cur = cs@.subrange(lo as int, hi as int);
            assert(cur.last() == cs@[hi as int - 1]);
            assert(cur.drop_last() =~= cs@.subrange(lo as int, hi as int - 1));
        }
        hi = hi - 1;
    }
    proof {
        let cur = cs@.subrange(lo as int, hi as int);
        if cur.len() > 0 {
            assert(cur.last() == cs@[hi as int - 1]);
        }
        assert(spec_trim_end(cur) == cur);
    }
    (lo, hi)
}

fn parse_digits(cs: &Vec<char>, a: usize, b: usize) -> (r: Option<u64>)
    requires
        a <= b <= cs@.len(),
    ensures
        ({
            let sub = cs@.subrange(a as int, b as int);
            match r {
                Some(v) => all_digits(sub) && spec_digits_val(sub) == v,
                None => !(all_digits(sub) && spec_digits_val(sub) <= u64::MAX),
            }
        }),
{
    let ghost sub = cs@.subrange(a as int, b as int);
    if a == b {
        return None;
    }
    let mut acc: u64 = 0;
    let mut overflow = false;
    let mut j: usize = a;
    while j < b
        invariant
            a <= j <= b <= cs@.len(),
            sub == cs@.subrange(a as int, b as int),
            forall|x: int| 0 <= x < j - a ==> is_digit(#[trigger] sub[x]),
            !overflow ==> acc as int == spec_digits_val(sub.take(j - a)),
            overflow ==> spec_digits_val(sub.take(j - a)) > u64::MAX,
        decreases b - j,
    {
        let c = cs[j];
        proof {
            assert(sub[j - a] == cs@[j as int]);
            assert(sub.take(j - a + 1).drop_last() =~= sub.take(j - a));
            assert(sub.take(j - a + 1).last() == sub[j - a]);
        }
        let dv: Option<u64> = match c {
            '0' => Some(0),
            '1' => Some(1),
            '2' => Some(2),
            '3' => Some(3),
            '4' => Some(4),
            '5' => Some(5),
            '6' => Some(6),
            '7' => Some(7),
            '8' => Some(8),
            '9' => Some(9),
            _ => None,
        };
        if dv.is_none() {
            proof {
                assert(!is_digit(sub[j - a]));
            }
            return None;
        }
        let d: u64 = dv.unwrap();
        proof {
            assert(d == sub[j - a] as int - 48);
        }
        let next: u128 = (acc as u128) * 10 + (d as u128);
        proof {
            assert(is_digit(sub[j - a]));
            let pre = sub.take(j - a);
            let now = sub.take(j - a + 1);
            assert(spec_digits_val(now) == spec_digits_val(pre) * 10 + (sub[j - a] as int - 48));
            if overflow {
                assert forall|y: int| 0 <= y < pre.len() implies is_digit(#[trigger] pre[y]) by {
                    assert(pre[y] == sub[y]);
                }
                lemma_digits_val_nonneg(pre);
            }
        }
        if !overflow {
            if next > (u64::MAX as u128) {
                overflow = true;
            } else {
                acc = next as u64;
            }
        }
        j = j + 1;
    }
    proof {
        assert(sub.take(b - a) =~= sub);
    }
    if overflow {
        None
    } else {
        Some(acc)
    }
}

fn parse_u64_range(cs: &Vec<char>, a: usize, b: usize, default: u64) -> (r: u64)
    requires
        a <= b <= cs@.len(),
    ensures
        r == spec_parse_u64(spec_trim(cs@.subrange(a as int, b as int)), default),
{
    let (lo, hi) = trim_range(cs, a, b);
    let ghost t = spec_trim(cs@.subrange(a as int, b as int));
    let blo: usize = if lo < hi && cs[lo] == '+' {
        lo + 1
    } else {
        lo
    };
    proof {
        if lo < hi && cs@[lo as int] == '+' {
            assert(t.first() == cs@[lo as int]);
            assert(spec_number_body(t) =~= cs@.subrange(blo as int, hi as int));
        } else {
            if lo < hi {
                assert(t.first() == cs@[lo as int]);
            }
            assert(spec_number_body(t) =~= cs@.subrange(blo as int, hi as int));
        }
    }
    match parse_digits(cs, blo, hi) {
        Some(v) => v,
        None => default,
    }
}

fn parse_u32_range(cs: &Vec<char>, a: usize, b: usize, default: u32) -> (r: u32)
    requires
        a <= b <= cs@.len(),
    ensures
        r == spec_parse_u32(spec_trim(cs@.subrange(a as int, b as int)), default),
{
    let (lo, hi) = trim_range(cs, a, b);
    let ghost t = spec_trim(cs@.subrange(a as int, b as int));
    let blo: usize = if lo < hi && cs[lo] == '+' {
        lo + 1
    } else {
        lo
    };
    proof {
        if lo < hi && cs@[lo as int] == '+' {
            assert(t.first() == cs@[lo as int]);
            assert(spec_number_body(t) =~= cs@.subrange(blo as int, hi as int));
        } else {
            if lo < hi {
                assert(t.first() == cs@[lo as int]);
            }
            assert(spec_number_body(t) =~= cs@.subrange(blo as int, hi as int));
        }
    }
    match parse_digits(cs, blo, hi) {
        Some(v) => {
            if v <= (u32::MAX as u64) {
                v as u32
            } else {
                default
            }
        },
        None => default,
    }
}

fn lower_char_exec(c: char) -> (r: char)
    ensures
        r == spec_lower_char(c),
{
    match c {
        'A' => 'a',
        'B' => 'b',
        'C' => 'c',
        'D' => 'd',
        'E' => 'e',
        'F' => 'f',
        'G' => 'g',
        'H' => 'h',
        'I' => 'i',
        'J' => 'j',
        'K' => 'k',
        'L' => 'l',
        'M' => 'm',
        'N' => 'n',
        'O' => 'o',
        'P' => 'p',
        'Q' => 'q',
        'R' => 'r',
        'S' => 's',
        'T' => 't',
        'U' => 'u',
        'V' => 'v',
        'W' => 'w',
        'X' => 'x',
        'Y' => 'y',
        'Z' => 'z',
        _ => c,
    }
}

fn upper_char_exec(c: char) -> (r: char)
    ensures
        r == spec_upper_char(c),
{
    match c {
        'a' => 'A',
        'b' => 'B',
        'c' => 'C',
        'd' => 'D',
        'e' => 'E',
        'f' => 'F',
        'g' => 'G',
        'h' => 'H',
        'i' => 'I',
        'j' => 'J',
        'k' => 'K',
        'l' => 'L',
        'm' => 'M',
        'n' => 'N',
        'o' => 'O',
        'p' => 'P',
        'q' => 'Q',
        'r' => 'R',
        's' => 'S',
        't' => 'T',
        'u' => 'U',
        'v' => 'V',
        'w' => 'W',
        'x' => 'X',
        'y' => 'Y',
        'z' => 'Z',
        _ => c,
    }
}

fn upper_range_string(cs: &Vec<char>, a: usize, b: usize) -> (r: String)
    requires
        a <= b <= cs@.len(),
    ensures
        r@ == spec_ascii_upper(cs@.subrange(a as int, b as int)),
{
    let ghost sub = cs@.subrange(a as int, b as int);
    let mut r = String::new();
    let mut j: usize = a;
    while j < b
        invariant
            a <= j <= b <= cs@.len(),
            sub == cs@.subrange(a as int, b as int),
            r@ == spec_ascii_upper(sub.take(j - a)),
        decreases b - j,
    {
        let u = upper_char_exec(cs[j]);
        crate::text::push_char(&mut r, u);
        proof {
            assert(sub[j - a] == cs@[j as int]);
            assert(spec_ascii_upper(sub.take(j - a + 1)) =~= spec_ascii_upper(sub.take(j - a)).push(
                spec_upper_char(sub[j - a]),
            ));
        }
        j = j + 1;
    }
    proof {
        assert(sub.take(b - a) =~= sub);
    }
    r
}

fn flag_range(field: &Vec<char>) -> (r: u32)
    ensures
        r == spec_flag_count(field@),
{
    let (lo, hi) = trim_range(field, 0, field.len());
    let ghost t = spec_trim(field@);
    proof {
        assert(field@.subrange(0, field@.len() as int) =~= field@);
        lemma_lower_parse(t, 0);
        reveal_strlit("true");
    }
    if hi - lo == 4 {
        let c0 = lower_char_exec(field[lo]);
        let c1 = lower_char_exec(field[lo + 1]);
        let c2 = lower_char_exec(field[lo + 2]);
        let c3 = lower_char_exec(field[lo + 3]);
        if c0 == 't' && c1 == 'r' && c2 == 'u' && c3 == 'e' {
            proof {
                assert(spec_ascii_lower(t) =~= "true"@);
            }
            return 1;
        }
        proof {
            assert(spec_ascii_lower(t)[0] == spec_lower_char(field@[lo as int]));
            assert(spec_ascii_lower(t)[1] == spec_lower_char(field@[lo as int + 1]));
            assert(spec_ascii_lower(t)[2] == spec_lower_char(field@[lo as int + 2]));
            assert(spec_ascii_lower(t)[3] == spec_lower_char(field@[lo as int + 3]));
            assert(spec_ascii_lower(t) != "true"@);
        }
    } else {
        proof {
            assert(spec_ascii_lower(t).len() != "true"@.len());
            assert(spec_ascii_lower(t) != "true"@);
        }
    }
    parse_u32_range(field, 0, field.len(), 0)
}

fn parse_line(line: &Vec<char>, idx: usize) -> (r: Option<CustomerConfig>)
    ensures
        match r {
            Some(c) => spec_parse_line(idx as int, line@) matches Some(rec) && customer_matches(
                c,
                rec,
            ),
            None => spec_parse_line(idx as int, line@) is None,
        },
{
    let (lo, hi) = trim_range(line, 0, line.len());
    let ghost t = spec_trim(line@);
    proof {
        assert(line@.subrange(0, line@.len() as int) =~= line@);
    }
    if hi == lo {
        return None;
    }
    if idx == 0 && hi - lo >= 2 {
        let c0 = lower_char_exec(line[lo]);
        let c1 = lower_char_exec(line[lo + 1]);
        proof {
            assert(spec_ascii_lower(t)[0] == spec_lower_char(line@[lo as int]));
            assert(spec_ascii_lower(t)[1] == spec_lower_char(line@[lo as int + 1]));
        }
        if c0 == 'i' && c1 == 'd' {
            return None;
        }
    }
    proof {
        if idx == 0 && t.len() >= 2 {
            assert(spec_ascii_lower(t)[0] == spec_lower_char(line@[lo as int]));
            assert(spec_ascii_lower(t)[1] == spec_lower_char(line@[lo as int + 1]));
        }
    }
    let tv = copy_range(line, lo, hi);
    let fields = split_from(&tv, ',', 0);
    proof {
        assert(tv@.skip(0) =~= tv@);
    }
    if fields.len() < 7 {
        return None;
    }
    let ghost parts = spec_split(t, ',');
    let f0 = &fields[0];
    let id = parse_u32_range(f0, 0, f0.len(), 0);
    proof {
        assert(f0@.subrange(0, f0@.len() as int) =~= f0@);
    }
    if id == 0 {
        return None;
    }
    let f1 = &fields[1];
    let arrival = parse_u64_range(f1, 0, f1.len(), 0);
    let f2 = &fields[2];
    let (tlo, thi) = trim_range(f2, 0, f2.len());
    let type_s = upper_range_string(f2, tlo, thi);
    let f3 = &fields[3];
    let size = parse_u32_range(f3, 0, f3.len(), 1);
    let baby = flag_range(&fields[4]);
    let wheel = flag_range(&fields[5]);
    let f6 = &fields[6];
    let est = parse_u64_range(f6, 0, f6.len(), 60);
    proof {
        assert(f1@.subrange(0, f1@.len() as int) =~= f1@);
        assert(f2@.subrange(0, f2@.len() as int) =~= f2@);
        assert(f3@.subrange(0, f3@.len() as int) =~= f3@);
        assert(f6@.subrange(0, f6@.len() as int) =~= f6@);
    }
    Some(
        CustomerConfig {
            id,
            family_id: id,
            arrival_time: arrival,
            type_: type_s,
            party_size: size,
            baby_chair_count: baby,
            wheelchair_count: wheel,
            est_dining_time: est,
        },
    )
}

/// Parse a whole tabular document of party records.  Parsing never fails:
/// malformed lines are skipped and malformed fields fall back to their
/// defaults, so the result is `Ok` for every input, holding exactly the
/// records `spec_parse_customers` describes.
pub fn parse_customers(csv_content: &str) -> (r: Result<Vec<CustomerConfig>, AppError>)
    ensures
        r matches Ok(v) && customers_match(v@, spec_parse_customers(csv_content@)),
{
    let cs = str_to_chars(csv_content);
    let lines = split_from(&cs, '\n', 0);
    let ghost lv = spec_split(csv_content@, '\n');
    proof {
        assert(cs@.skip(0) =~= cs@);
    }
    let mut out: Vec<CustomerConfig> = Vec::new();
    let mut i: usize = 0;
    while i < lines.len()
        invariant
            i <= lines@.len(),
            pieces_match(lines@, lv),
            lv == spec_split(csv_content@, '\n'),
            customers_match(out@, spec_parse_lines(lv.take(i as int))),
        decreases lines@.len() - i,
    {
        proof {
            assert(lv.take(i as int + 1).drop_last() =~= lv.take(i as int));
            assert(lv.take(i as int + 1).last() == lv[i as int]);
        }
        match parse_line(&lines[i], i) {
            Some(c) => {
                out.push(c);
            },
            None => {},
        }
        i = i + 1;
    }
    proof {
        assert(lv.take(lv.len() as int) =~= lv);
    }
    Ok(out)
}

} // verus!
