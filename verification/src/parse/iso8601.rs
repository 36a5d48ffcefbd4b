//! Dates and times in ISO 8601 notation.
use crate::error;
use crate::error::{Error, ErrorView};
use crate::model::cell::DateTimeValue;
use crate::text;
use vstd::prelude::*;

verus! {

/// The year, month and day that three pieces between hyphens denote.
pub open spec fn iso_date(s: Seq<char>) -> Option<(int, int, int)> {
    let parts = text::split(s, '-');
    if parts.len() != 3 {
        None
    } else {
        match (
            text::unsigned_value(parts[0], i32::MAX as int),
            text::unsigned_value(parts[1], u8::MAX as int),
            text::unsigned_value(parts[2], u8::MAX as int),
        ) {
            (Some(y), Some(m), Some(d)) => Some((y, m, d)),
            _ => None,
        }
    }
}

/// Where the last sign stands; before the beginning if there is none.
pub open spec fn last_sign(s: Seq<char>) -> int
    decreases s.len(),
{
    if s.len() == 0 {
        -1
    } else if s.last() == '+' || s.last() == '-' {
        s.len() - 1
    } else {
        last_sign(s.drop_last())
    }
}

/// A time without its zone: neither a final `Z` nor an offset.
pub open spec fn without_zone(s: Seq<char>) -> Seq<char> {
    let t = if s.len() > 0 && s.last() == 'Z' {
        s.drop_last()
    } else {
        s
    };
    if last_sign(t) > 0 {
        t.take(last_sign(t))
    } else {
        t
    }
}

/// `s` up to its first point.
pub open spec fn before_point(s: Seq<char>) -> Seq<char> {
    match s.index_of_first('.') {
        Some(i) => s.take(i),
        None => s,
    }
}

/// The hour, minute and second that two or three pieces between colons denote; a
/// fraction of a second is cut off.
pub open spec fn iso_time(s: Seq<char>) -> Option<(int, int, int)> {
    let parts = text::split(without_zone(s), ':');
    if parts.len() != 2 && parts.len() != 3 {
        None
    } else {
        let seconds = if parts.len() == 3 {
            text::unsigned_value(before_point(parts[2]), u8::MAX as int)
        } else {
            Some(0)
        };
        match (
            text::unsigned_value(parts[0], u8::MAX as int),
            text::unsigned_value(parts[1], u8::MAX as int),
            seconds,
        ) {
            (Some(h), Some(m), Some(s)) => Some((h, m, s)),
            _ => None,
        }
    }
}

/// The part of a text that is a date: what comes before the first `T`, or the
/// whole text unless it holds a colon.
pub open spec fn date_part(s: Seq<char>) -> Option<Seq<char>> {
    match s.index_of_first('T') {
        Some(i) => Some(s.take(i)),
        None => if s.contains(':') {
            None
        } else {
            Some(s)
        },
    }
}

/// The part of a text that is a time.
pub open spec fn time_part(s: Seq<char>) -> Option<Seq<char>> {
    match s.index_of_first('T') {
        Some(i) => Some(s.skip(i + 1)),
        None => if s.contains(':') {
            Some(s)
        } else {
            None
        },
    }
}

/// The date of a text; without a date part, the first day of the date system.
pub open spec fn iso_day(s: Seq<char>, date1904: bool) -> Option<(int, int, int)> {
    match date_part(s) {
        Some(d) => iso_date(d),
        None => if date1904 {
            Some((1904, 1, 1))
        } else {
            Some((1899, 12, 30))
        },
    }
}

/// The time of a text; without a time part, midnight.
pub open spec fn iso_clock(s: Seq<char>) -> Option<(int, int, int)> {
    match time_part(s) {
        Some(t) => iso_time(t),
        None => Some((0, 0, 0)),
    }
}

/// The date and time that a text denotes.
pub open spec fn iso_value(s: Seq<char>, date1904: bool) -> Option<DateTimeValue> {
    match (iso_day(s, date1904), iso_clock(s)) {
        (Some((y, m, d)), Some((h, mi, se))) => if 1 <= m <= 12 && 1 <= d <= 31 && h <= 23 && mi
            <= 59 && se <= 59 {
            Some(
                DateTimeValue {
                    year: y as i32,
                    month: m as u8,
                    day: d as u8,
                    hour: h as u8,
                    minute: mi as u8,
                    second: se as u8,
                },
            )
        } else {
            None
        },
        _ => None,
    }
}

/// The error for a text that denotes no date and time.
pub open spec fn iso_error(s: Seq<char>, path: Seq<char>) -> ErrorView {
    ErrorView::InvalidPackage(
        "invalid ISO 8601 cell value "@ + text::debug_text(s) + " in "@ + path,
    )
}

/// The error for a text that denotes no date and time.
pub fn invalid_iso8601(s: &str, path: &str) -> (e: Error)
    ensures
        e@ == iso_error(s@, path@),
{
    let mut m: String = text::join3(
        "invalid ISO 8601 cell value ",
        text::quoted(s).as_str(),
        " in ",
    );
    text::push_text(&mut m, path);
    Error::InvalidPackage(m)
}

fn read_date(chars: &Vec<char>) -> (r: Option<(i32, u8, u8)>)
    ensures
        match r {
            Some(v) => iso_date(chars@) == Some((v.0 as int, v.1 as int, v.2 as int)),
            None => iso_date(chars@) is None,
        },
{
    let parts: Vec<Vec<char>> = text::split_chars(chars, '-');
    let ghost all = text::split(chars@, '-');
    if parts.len() != 3 {
        return None;
    }
    assert(all[0] == parts@[0]@ && all[1] == parts@[1]@ && all[2] == parts@[2]@);
    match (
        text::parse_unsigned(&parts[0], i32::MAX as u64),
        text::parse_unsigned(&parts[1], u8::MAX as u64),
        text::parse_unsigned(&parts[2], u8::MAX as u64),
    ) {
        (Some(y), Some(m), Some(d)) => Some((y as i32, m as u8, d as u8)),
        _ => None,
    }
}

proof fn lemma_last_sign(s: Seq<char>)
    ensures
        -1 <= last_sign(s) < s.len(),
    decreases s.len(),
{
    if s.len() > 0 {
        lemma_last_sign(s.drop_last());
    }
}

fn cut_zone(chars: &Vec<char>) -> (r: Vec<char>)
    ensures
        r@ == without_zone(chars@),
{
    let end: usize = if chars.len() > 0 && chars[chars.len() - 1] == 'Z' {
        chars.len() - 1
    } else {
        chars.len()
    };
    let ghost t = chars@.take(end as int);
    proof {
        assert(chars@.take(chars@.len() as int) =~= chars@);
        if end < chars@.len() {
            assert(t =~= chars@.drop_last());
        }
    }
    let mut i: usize = end;
    assert(t.take(end as int) =~= t);
    while i > 0 && !(chars[i - 1] == '+' || chars[i - 1] == '-')
        invariant
            i <= end <= chars@.len(),
            t == chars@.take(end as int),
            last_sign(t.take(i as int)) == last_sign(t),
        decreases i,
    {
        assert(t.take(i as int).drop_last() =~= t.take(i - 1));
        i -= 1;
    }
    // The last sign, if there is one, is just before `i`.
    if i > 1 {
        let r: Vec<char> = text::copy_range(chars, 0, i - 1);
        assert(t.take(i as int).last() == chars@[i - 1]);
        assert(last_sign(t) == i - 1);
        assert(r@ =~= t.take(i - 1));
        r
    } else {
        let r: Vec<char> = text::copy_range(chars, 0, end);
        proof {
            if i == 1 {
                assert(t.take(1).last() == chars@[0]);
                assert(last_sign(t) == 0);
            } else {
                assert(t.take(0) =~= Seq::<char>::empty());
                assert(last_sign(t) == -1);
            }
        }
        assert(r@ =~= t);
        r
    }
}

fn cut_fraction(chars: &Vec<char>) -> (r: Vec<char>)
    ensures
        r@ == before_point(chars@),
{
    let end: usize = match text::find_char(chars, '.') {
        Some(i) => i,
        None => chars.len(),
    };
    let r: Vec<char> = text::copy_range(chars, 0, end);
    assert(r@ =~= before_point(chars@));
    r
}

fn read_time(chars: &Vec<char>) -> (r: Option<(u8, u8, u8)>)
    ensures
        match r {
            Some(v) => iso_time(chars@) == Some((v.0 as int, v.1 as int, v.2 as int)),
            None => iso_time(chars@) is None,
        },
{
    let clock: Vec<char> = cut_zone(chars);
    let parts: Vec<Vec<char>> = text::split_chars(&clock, ':');
    let ghost all = text::split(clock@, ':');
    if parts.len() != 2 && parts.len() != 3 {
        return None;
    }
    assert(all[0] == parts@[0]@ && all[1] == parts@[1]@);
    let seconds: Option<u64> = if parts.len() == 3 {
        assert(all[2] == parts@[2]@);
        let whole: Vec<char> = cut_fraction(&parts[2]);
        text::parse_unsigned(&whole, u8::MAX as u64)
    } else {
        Some(0)
    };
    match (
        text::parse_unsigned(&parts[0], u8::MAX as u64),
        text::parse_unsigned(&parts[1], u8::MAX as u64),
        seconds,
    ) {
        (Some(h), Some(m), Some(s)) => Some((h as u8, m as u8, s as u8)),
        _ => None,
    }
}

fn read_iso(chars: &Vec<char>, date1904: bool) -> (r: Option<DateTimeValue>)
    ensures
        r == iso_value(chars@, date1904),
{
    proof {
        chars@.index_of_first_ensures(':');
    }
    let t_at: Option<usize> = text::find_char(chars, 'T');
    let timed: bool = text::find_char(chars, ':').is_some();
    assert(timed == chars@.contains(':'));
    let day: Option<(i32, u8, u8)> = match t_at {
        Some(i) => {
            let d: Vec<char> = text::copy_range(chars, 0, i);
            assert(d@ =~= chars@.take(i as int));
            read_date(&d)
        },
        None => if timed {
            if date1904 {
                Some((1904, 1, 1))
            } else {
                Some((1899, 12, 30))
            }
        } else {
            read_date(chars)
        },
    };
    let clock: Option<(u8, u8, u8)> = match t_at {
        Some(i) => {
            assert(i < chars.len());
            let t: Vec<char> = text::copy_range(chars, i + 1, chars.len());
            assert(t@ =~= chars@.skip(i + 1));
            read_time(&t)
        },
        None => if timed {
            read_time(chars)
        } else {
            Some((0, 0, 0))
        },
    };
    match (day, clock) {
        (Some((year, month, day)), Some((hour, minute, second))) => {
            if 1 <= month && month <= 12 && 1 <= day && day <= 31 && hour <= 23 && minute <= 59
                && second <= 59 {
                Some(DateTimeValue { year, month, day, hour, minute, second })
            } else {
                None
            }
        },
        _ => None,
    }
}

/// Reads a date and time in ISO 8601 notation. Without a date the first day of
/// the date system is meant, without a time midnight.
pub fn parse_iso8601_datetime(s: &str, path: &str, date1904: bool) -> (r: Result<
    DateTimeValue,
    Error,
>)
    ensures
        error::plain_result(r) == (match iso_value(s@, date1904) {
            Some(v) => Ok(v),
            None => Err(iso_error(s@, path@)),
        }),
{
    let chars: Vec<char> = text::to_chars(s);
    match read_iso(&chars, date1904) {
        Some(v) => Ok(v),
        None => Err(invalid_iso8601(s, path)),
    }
}

} // verus!
