use vstd::prelude::*;
use vstd::slice::slice_subrange;
use crate::text::{all_digits, digits_of, digits_value, lemma_digits_of, lemma_digits_value_bound, lemma_digits_value_prefix, pow10};
use crate::types::{DateTime, ParseError, Time};

verus! {

/// Reads a whole span of decimal digits as an unsigned number.
pub fn get_num(input: &[u8]) -> (r: Result<u32, ParseError>)
    ensures
        r is Ok <==> (input@.len() > 0 && all_digits(input@) && digits_value(input@) <= u32::MAX),
        r matches Ok(v) ==> v as nat == digits_value(input@),
        r matches Err(e) ==> e == ParseError::MalformedNumber,
{
    if input.len() == 0 {
        return Err(ParseError::MalformedNumber);
    }
    let mut v: u64 = 0;
    let mut i: usize = 0;
    while i < input.len()
        invariant
            0 <= i <= input@.len(),
            all_digits(input@.subrange(0, i as int)),
            v as nat == digits_value(input@.subrange(0, i as int)),
            v <= u32::MAX,
        decreases input@.len() - i,
    {
        let b = input[i];
        if b < 48 || b > 57 {
            return Err(ParseError::MalformedNumber);
        }
        assert(input@.subrange(0, i + 1).drop_last() =~= input@.subrange(0, i as int));
        v = v * 10 + (b - 48) as u64;
        i = i + 1;
        if v > 4294967295 {
            proof {
                if all_digits(input@) {
                    lemma_digits_value_prefix(input@, i as int);
                }
            }
            return Err(ParseError::MalformedNumber);
        }
    }
    assert(input@.subrange(0, i as int) =~= input@);
    Ok(v as u32)
}

/// The number written with exactly `w` digits at position `i` of `s`.
pub open spec fn field_at(s: Seq<u8>, i: int, w: int) -> Option<nat> {
    if 0 <= i && 0 <= w && i + w <= s.len() && all_digits(s.subrange(i, i + w)) {
        Some(digits_value(s.subrange(i, i + w)))
    } else {
        None
    }
}

/// `-` or `/`.
pub open spec fn is_date_sep(b: u8) -> bool {
    b == 45 || b == 47
}

/// `HH`, an optional `:`, then `MM`: the bytes taken and the time read.
pub open spec fn spec_time(s: Seq<u8>) -> Option<(int, Time)> {
    match field_at(s, 0, 2) {
        None => None,
        Some(h) => {
            let k: int = if s.len() > 2 && s[2] == 58 {
                3
            } else {
                2
            };
            match field_at(s, k, 2) {
                None => None,
                Some(m) => Some((k + 2, Time { hours: h as u8, minutes: m as u8 })),
            }
        },
    }
}

/// `YYYY`, a separator, `MM`, a separator, `DD`, then optionally `t` or `T` and a
/// time: the bytes taken and the stamp read.
pub open spec fn spec_datetime(s: Seq<u8>) -> Option<(int, DateTime)> {
    if field_at(s, 0, 4) is Some && s.len() > 4 && is_date_sep(s[4]) && field_at(s, 5, 2) is Some
        && s.len() > 7 && is_date_sep(s[7]) && field_at(s, 8, 2) is Some {
        let y = field_at(s, 0, 4)->Some_0 as u32;
        let mo = field_at(s, 5, 2)->Some_0 as u8;
        let d = field_at(s, 8, 2)->Some_0 as u8;
        let t = if s.len() > 10 && (s[10] == 116 || s[10] == 84) {
            spec_time(s.subrange(11, s.len() as int))
        } else {
            None
        };
        match t {
            Some((n, tm)) => Some((11 + n, DateTime { year: y, month: mo, day: d, time: Some(tm) })),
            None => Some((10, DateTime { year: y, month: mo, day: d, time: None })),
        }
    } else {
        None
    }
}

/// `[`, then nothing, a space, `x` or `X`, then `]`: the bytes taken and whether
/// the box is ticked.
pub open spec fn spec_checkbox(s: Seq<u8>) -> Option<(int, bool)> {
    if s.len() >= 2 && s[0] == 91 && s[1] == 93 {
        Some((2, false))
    } else if s.len() >= 3 && s[0] == 91 && (s[1] == 32 || s[1] == 120 || s[1] == 88) && s[2]
        == 93 {
        Some((3, s[1] == 120 || s[1] == 88))
    } else {
        None
    }
}

/// A date written as `YYYY`, separator, `MM`, separator, `DD`.
pub open spec fn date_text(y: nat, m: nat, d: nat, sep1: u8, sep2: u8) -> Seq<u8> {
    digits_of(y, 4) + seq![sep1] + digits_of(m, 2) + seq![sep2] + digits_of(d, 2)
}

/// A time written as `HH:MM`, or `HHMM` without the colon.
pub open spec fn time_text(h: nat, m: nat, colon: bool) -> Seq<u8> {
    if colon {
        digits_of(h, 2) + seq![58u8] + digits_of(m, 2)
    } else {
        digits_of(h, 2) + digits_of(m, 2)
    }
}

proof fn lemma_field_of(s: Seq<u8>, i: int, n: nat, w: nat)
    requires
        n < pow10(w),
        0 <= i,
        i + w <= s.len(),
        s.subrange(i, i + w) == digits_of(n, w),
    ensures
        field_at(s, i, w as int) == Some(n),
{
    lemma_digits_of(n, w);
}

/// A written time is read back, whatever follows it.
pub proof fn lemma_time_read_back(h: nat, m: nat, colon: bool, rest: Seq<u8>)
    requires
        h < 100,
        m < 100,
    ensures
        spec_time(time_text(h, m, colon) + rest) == Some(
            (time_text(h, m, colon).len() as int, Time { hours: h as u8, minutes: m as u8 }),
        ),
{
    reveal_with_fuel(pow10, 3);
    lemma_digits_of(h, 2);
    lemma_digits_of(m, 2);
    let s = time_text(h, m, colon) + rest;
    assert(s.subrange(0, 2) =~= digits_of(h, 2));
    lemma_field_of(s, 0, h, 2);
    let k: int = if colon {
        3
    } else {
        2
    };
    assert(s.subrange(k, k + 2) =~= digits_of(m, 2));
    lemma_field_of(s, k, m, 2);
    if !colon {
        assert(s[2] == digits_of(m, 2)[0]);
    }
}

/// What follows a date: a time after `t` or `T`, when one is written there.
pub open spec fn time_after(rest: Seq<u8>) -> Option<(int, Time)> {
    if rest.len() > 0 && (rest[0] == 116 || rest[0] == 84) {
        spec_time(rest.drop_first())
    } else {
        None
    }
}

/// A date with fields of four, two and two digits, each separator `-` or `/`,
/// is read back field for field, whatever follows it; a time follows when
/// one is written after `t` or `T`.
pub proof fn lemma_date_read_back(y: nat, m: nat, d: nat, sep1: u8, sep2: u8, rest: Seq<u8>)
    requires
        y < 10000,
        m < 100,
        d < 100,
        is_date_sep(sep1),
        is_date_sep(sep2),
    ensures
        spec_datetime(date_text(y, m, d, sep1, sep2) + rest) == Some(
            match time_after(rest) {
                Some((n, tm)) => (
                    11 + n,
                    DateTime { year: y as u32, month: m as u8, day: d as u8, time: Some(tm) },
                ),
                None => (10int, DateTime { year: y as u32, month: m as u8, day: d as u8, time: None }),
            },
        ),
{
    reveal_with_fuel(pow10, 5);
    lemma_digits_of(y, 4);
    lemma_digits_of(m, 2);
    lemma_digits_of(d, 2);
    let s = date_text(y, m, d, sep1, sep2) + rest;
    assert(s.subrange(0, 4) =~= digits_of(y, 4));
    assert(s.subrange(5, 7) =~= digits_of(m, 2));
    assert(s.subrange(8, 10) =~= digits_of(d, 2));
    lemma_field_of(s, 0, y, 4);
    lemma_field_of(s, 5, m, 2);
    lemma_field_of(s, 8, d, 2);
    assert(s[4] == sep1 && s[7] == sep2);
    if rest.len() > 0 {
        assert(s[10] == rest[0]);
        assert(s.subrange(11, s.len() as int) =~= rest.drop_first());
    }
}

/// A date followed by `t` or `T` and a well-formed time is read back whole:
/// the date's fields, the time, and all of its bytes.
#[verifier::rlimit(40)]
pub proof fn lemma_datetime_read_back(
    y: nat,
    m: nat,
    d: nat,
    sep1: u8,
    sep2: u8,
    t: u8,
    h: nat,
    mi: nat,
    colon: bool,
    rest: Seq<u8>,
)
    requires
        y < 10000,
        m < 100,
        d < 100,
        is_date_sep(sep1),
        is_date_sep(sep2),
        t == 116 || t == 84,
        h < 100,
        mi < 100,
    ensures
        spec_datetime(date_text(y, m, d, sep1, sep2) + seq![t] + time_text(h, mi, colon) + rest)
            == Some(
            (
                11 + time_text(h, mi, colon).len() as int,
                DateTime {
                    year: y as u32,
                    month: m as u8,
                    day: d as u8,
                    time: Some(Time { hours: h as u8, minutes: mi as u8 }),
                },
            ),
        ),
{
    let tail = seq![t] + time_text(h, mi, colon) + rest;
    lemma_date_read_back(y, m, d, sep1, sep2, tail);
    assert(date_text(y, m, d, sep1, sep2) + seq![t] + time_text(h, mi, colon) + rest
        =~= date_text(y, m, d, sep1, sep2) + tail);
    assert(tail.drop_first() =~= time_text(h, mi, colon) + rest);
    assert(tail[0] == t);
    lemma_time_read_back(h, mi, colon, rest);
    assert(time_after(tail) == spec_time(time_text(h, mi, colon) + rest));
}

/// Reads the `w` digits at `i`, if they are all there.
fn field(input: &[u8], i: usize, w: usize) -> (r: Option<u32>)
    requires
        1 <= w <= 4,
    ensures
        match r {
            Some(v) => field_at(input@, i as int, w as int) == Some(v as nat),
            None => field_at(input@, i as int, w as int) is None,
        },
{
    if i > input.len() || w > input.len() - i {
        return None;
    }
    let span = slice_subrange(input, i, i + w);
    proof {
        if all_digits(span@) {
            lemma_digits_value_bound(span@);
            reveal_with_fuel(pow10, 5);
            assert(pow10(span@.len()) <= 10000);
        }
    }
    match get_num(span) {
        Ok(v) => Some(v),
        Err(_) => None,
    }
}

/// Reads a time of day, `HH:MM` or `HHMM`, at the start of `input`; gives the
/// number of bytes taken.
pub fn get_time(input: &[u8]) -> (r: Result<(usize, Time), ParseError>)
    ensures
        match r {
            Ok((n, t)) => spec_time(input@) == Some((n as int, t)),
            Err(e) => spec_time(input@) is None && e == ParseError::MalformedTime,
        },
{
    let h = match field(input, 0, 2) {
        Some(h) => h,
        None => return Err(ParseError::MalformedTime),
    };
    let k: usize = if input.len() > 2 && input[2] == 58 {
        3
    } else {
        2
    };
    let m = match field(input, k, 2) {
        Some(m) => m,
        None => return Err(ParseError::MalformedTime),
    };
    proof {
        lemma_digits_value_bound(input@.subrange(0, 2));
        lemma_digits_value_bound(input@.subrange(k as int, k + 2));
        reveal_with_fuel(pow10, 3);
    }
    Ok((k + 2, Time { hours: h as u8, minutes: m as u8 }))
}

/// Reads a date with an optional time at the start of `input`, fields
/// separated by `-` or `/`; gives the number of bytes taken.
pub fn get_datetime(input: &[u8]) -> (r: Result<(usize, DateTime), ParseError>)
    ensures
        match r {
            Ok((n, dt)) => spec_datetime(input@) == Some((n as int, dt)),
            Err(e) => spec_datetime(input@) is None && e == ParseError::MalformedDate,
        },
{
    let y = match field(input, 0, 4) {
        Some(v) => v,
        None => return Err(ParseError::MalformedDate),
    };
    if !(input.len() > 4 && (input[4] == 45 || input[4] == 47)) {
        return Err(ParseError::MalformedDate);
    }
    let mo = match field(input, 5, 2) {
        Some(v) => v,
        None => return Err(ParseError::MalformedDate),
    };
    if !(input.len() > 7 && (input[7] == 45 || input[7] == 47)) {
        return Err(ParseError::MalformedDate);
    }
    let d = match field(input, 8, 2) {
        Some(v) => v,
        None => return Err(ParseError::MalformedDate),
    };
    proof {
        lemma_digits_value_bound(input@.subrange(5, 7));
        lemma_digits_value_bound(input@.subrange(8, 10));
        reveal_with_fuel(pow10, 3);
    }
    let mut time: Option<Time> = None;
    let mut n: usize = 10;
    if input.len() > 10 && (input[10] == 116 || input[10] == 84) {
        let tail = slice_subrange(input, 11, input.len());
        if let Ok((k, t)) = get_time(tail) {
            time = Some(t);
            n = 11 + k;
        }
    }
    Ok((n, DateTime { year: y, month: mo as u8, day: d as u8, time }))
}

/// Reads a checkbox, `[]`, `[ ]`, `[x]` or `[X]`, at the start of `input`;
/// gives the number of bytes taken and whether it is ticked.
pub fn todo_box(input: &[u8]) -> (r: Result<(usize, bool), ParseError>)
    ensures
        match r {
            Ok((n, v)) => spec_checkbox(input@) == Some((n as int, v)),
            Err(e) => spec_checkbox(input@) is None && e == ParseError::MalformedCheckbox,
        },
{
    if input.len() >= 2 && input[0] == 91 && input[1] == 93 {
        Ok((2, false))
    } else if input.len() >= 3 && input[0] == 91 && (input[1] == 32 || input[1] == 120
        || input[1] == 88) && input[2] == 93 {
        Ok((3, input[1] == 120 || input[1] == 88))
    } else {
        Err(ParseError::MalformedCheckbox)
    }
}

} // verus!
