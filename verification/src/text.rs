//! Verified text building: decimal rendering of counters and comma joining
//! of identifier lists, used for event payloads and log messages.

use vstd::prelude::*;

verus! {

/// Relies on `String::push`: appends exactly the given character at the end.
#[verifier::external_body]
pub(crate) fn push_char(s: &mut String, c: char)
    ensures
        final(s)@ == old(s)@.push(c),
{
    s.push(c);
}

/// The decimal digit character for `d`.
pub open spec fn spec_digit_char(d: int) -> char {
    if d == 0 {
        '0'
    } else if d == 1 {
        '1'
    } else if d == 2 {
        '2'
    } else if d == 3 {
        '3'
    } else if d == 4 {
        '4'
    } else if d == 5 {
        '5'
    } else if d == 6 {
        '6'
    } else if d == 7 {
        '7'
    } else if d == 8 {
        '8'
    } else {
        '9'
    }
}

/// The decimal digit string of `x`, most significant digit first.
pub open spec fn spec_u64_digits(x: int) -> Seq<char>
    decreases x,
{
    if x < 10 {
        seq![spec_digit_char(x)]
    } else {
        spec_u64_digits(x / 10).push(spec_digit_char(x % 10))
    }
}

fn digit_char(d: u64) -> (c: char)
    requires
        d < 10,
    ensures
        c == spec_digit_char(d as int),
{
    match d {
        0 => '0',
        1 => '1',
        2 => '2',
        3 => '3',
        4 => '4',
        5 => '5',
        6 => '6',
        7 => '7',
        8 => '8',
        _ => '9',
    }
}

/// Decimal rendering of an unsigned counter.
pub fn u64_to_string(x: u64) -> (r: String)
    ensures
        r@ == spec_u64_digits(x as int),
    decreases x,
{
    if x < 10 {
        let mut s = String::new();
        push_char(&mut s, digit_char(x));
        assert(s@ =~= spec_u64_digits(x as int));
        s
    } else {
        let mut s = u64_to_string(x / 10);
        push_char(&mut s, digit_char(x % 10));
        s
    }
}

/// Decimal rendering of an unsigned counter.
pub fn u32_to_string(x: u32) -> (r: String)
    ensures
        r@ == spec_u64_digits(x as int),
{
    u64_to_string(x as u64)
}

/// Decimal rendering of a usize counter.
pub fn usize_to_string(x: usize) -> (r: String)
    ensures
        r@ == spec_u64_digits(x as int),
{
    u64_to_string(x as u64)
}

/// The decimal string of a signed counter: a minus sign for negative values.
pub open spec fn spec_i32_digits(x: int) -> Seq<char> {
    if x >= 0 {
        spec_u64_digits(x)
    } else {
        seq!['-'] + spec_u64_digits(-x)
    }
}

/// Decimal rendering of a signed counter.
pub fn i32_to_string(x: i32) -> (r: String)
    ensures
        r@ == spec_i32_digits(x as int),
{
    if x >= 0 {
        u64_to_string(x as u64)
    } else {
        let m: i64 = -(x as i64);
        let mut s = String::new();
        push_char(&mut s, '-');
        let d = u64_to_string(m as u64);
        s.append(d.as_str());
        assert(s@ =~= seq!['-'] + spec_u64_digits(m as int));
        s
    }
}

/// The comma-joined concatenation of `parts`.
pub open spec fn spec_join_comma(parts: Seq<Seq<char>>) -> Seq<char>
    decreases parts.len(),
{
    if parts.len() == 0 {
        Seq::empty()
    } else if parts.len() == 1 {
        parts[0]
    } else {
        spec_join_comma(parts.drop_last()) + seq![','] + parts.last()
    }
}

/// Join strings with commas, as `"S01,S02"`.
pub fn join_comma(parts: &Vec<String>) -> (r: String)
    ensures
        r@ == spec_join_comma(parts@.map_values(|s: String| s@)),
{
    let ghost views = parts@.map_values(|s: String| s@);
    let mut r = String::new();
    let mut i: usize = 0;
    while i < parts.len()
        invariant
            0 <= i <= parts@.len(),
            views == parts@.map_values(|s: String| s@),
            r@ == spec_join_comma(views.subrange(0, i as int)),
        decreases parts@.len() - i,
    {
        if i > 0 {
            push_char(&mut r, ',');
        }
        s_append(&mut r, &parts[i]);
        proof {
            let pre = views.subrange(0, i as int);
            let now = views.subrange(0, i as int + 1);
            assert(now.drop_last() =~= pre);
            assert(now.last() == views[i as int]);
            assert(r@ =~= spec_join_comma(now));
        }
        i = i + 1;
    }
    proof {
        assert(views.subrange(0, parts@.len() as int) =~= views);
    }
    r
}

/// Append a string to a growing buffer.
pub fn s_append(buf: &mut String, part: &String)
    ensures
        final(buf)@ == old(buf)@ + part@,
{
    buf.append(part.as_str());
}

/// Append a string slice to a growing buffer.
pub fn s_append_str(buf: &mut String, part: &str)
    ensures
        final(buf)@ == old(buf)@ + part@,
{
    buf.append(part);
}

} // verus!
