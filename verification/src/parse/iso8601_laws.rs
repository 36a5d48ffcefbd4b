//! What dates and times in ISO 8601 notation stand for.
use crate::json;
use crate::model::cell::DateTimeValue;
use crate::parse::iso8601;
use crate::text;
use vstd::prelude::*;

verus! {

/// `{year}-{month}-{day}`, each at least as long as its width.
pub open spec fn day_text(y: int, m: int, d: int, w: (nat, nat, nat)) -> Seq<char> {
    let (wy, wm, wd) = w;
    json::padded(y, wy) + seq!['-'] + json::padded(m, wm) + seq!['-'] + json::padded(d, wd)
}

/// `{hour}:{minute}:{second}`, each at least as long as its width.
pub open spec fn clock_text(h: int, m: int, s: int, w: (nat, nat, nat)) -> Seq<char> {
    let (wh, wm, ws) = w;
    json::padded(h, wh) + seq![':'] + json::padded(m, wm) + seq![':'] + json::padded(s, ws)
}

/// Whether three numbers are a year, a month and a day.
pub open spec fn is_day(y: int, m: int, d: int) -> bool {
    0 <= y <= i32::MAX && 1 <= m <= 12 && 1 <= d <= 31
}

/// Whether three numbers are an hour, a minute and a second.
pub open spec fn is_clock(h: int, m: int, s: int) -> bool {
    0 <= h <= 23 && 0 <= m <= 59 && 0 <= s <= 59
}

/// A date and time of given parts.
pub open spec fn moment(y: int, mo: int, d: int, h: int, mi: int, s: int) -> DateTimeValue {
    DateTimeValue {
        year: y as i32,
        month: mo as u8,
        day: d as u8,
        hour: h as u8,
        minute: mi as u8,
        second: s as u8,
    }
}

/// Whether a text is a fraction of a second: nothing, or a point and digits.
pub open spec fn is_fraction(f: Seq<char>) -> bool {
    f.len() > 0 ==> f[0] == '.' && forall|i: int|
        1 <= i < f.len() ==> text::is_digit(#[trigger] f[i])
}

/// Whether a text is a time zone: nothing, `Z`, or an offset behind its sign.
pub open spec fn is_zone(z: Seq<char>) -> bool {
    ||| z.len() == 0
    ||| z == seq!['Z']
    ||| (z[0] == '+' || z[0] == '-') && json::digits_but(z.skip(1), ':')
}

/// Whether a text holds neither a sign nor a `Z` nor a `T`.
spec fn is_bare(s: Seq<char>) -> bool {
    forall|i: int|
        0 <= i < s.len() ==> (#[trigger] s[i]) != '+' && s[i] != '-' && s[i] != 'Z' && s[i] != 'T'
}

proof fn lemma_no_sign(s: Seq<char>)
    requires
        is_bare(s),
    ensures
        iso8601::last_sign(s) == -1,
    decreases s.len(),
{
    if s.len() > 0 {
        lemma_no_sign(s.drop_last());
    }
}

proof fn lemma_last_sign(a: Seq<char>, c: char, b: Seq<char>)
    requires
        c == '+' || c == '-',
        is_bare(b),
    ensures
        iso8601::last_sign(a + seq![c] + b) == a.len(),
    decreases b.len(),
{
    let s = a + seq![c] + b;
    if b.len() > 0 {
        assert(s.drop_last() =~= a + seq![c] + b.drop_last());
        lemma_last_sign(a, c, b.drop_last());
        assert(s.last() == b.last());
    }
}

proof fn lemma_zone(t: Seq<char>, z: Seq<char>)
    requires
        t.len() > 0,
        is_bare(t),
        is_zone(z),
    ensures
        iso8601::without_zone(t + z) == t,
{
    let s = t + z;
    lemma_no_sign(t);
    if z.len() == 0 {
        assert(s =~= t);
        assert(s.last() == t[t.len() - 1]);
    } else if z == seq!['Z'] {
        assert(s.last() == 'Z');
        assert(s.drop_last() =~= t);
    } else {
        let offset = z.skip(1);
        assert(is_bare(offset));
        assert(s =~= t + seq![z[0]] + offset);
        lemma_last_sign(t, z[0], offset);
        assert(s.last() == z[z.len() - 1]);
        assert(z.len() > 1 ==> z[z.len() - 1] == offset[offset.len() - 1]);
        assert(s.take(t.len() as int) =~= t);
    }
}

/// The hour, minute and second of a clock's text, with a fraction and a zone behind it.
proof fn lemma_clock(h: int, m: int, s: int, w: (nat, nat, nat), f: Seq<char>, z: Seq<char>)
    requires
        is_clock(h, m, s),
        is_fraction(f),
        is_zone(z),
    ensures
        iso8601::iso_time(clock_text(h, m, s, w) + f + z) == Some((h, m, s)),
        is_bare(clock_text(h, m, s, w) + f),
{
    let (wh, wm, ws) = w;
    let (a, b, c) = (json::padded(h, wh), json::padded(m, wm), json::padded(s, ws));
    json::lemma_padded(h, wh, u8::MAX as int, ':');
    json::lemma_padded(m, wm, u8::MAX as int, ':');
    json::lemma_padded(s, ws, u8::MAX as int, ':');
    let t = clock_text(h, m, s, w) + f;
    assert(is_bare(a) && is_bare(b) && is_bare(c) && is_bare(f));
    assert(is_bare(t));
    lemma_zone(t, z);
    assert(t =~= a + seq![':'] + b + seq![':'] + (c + f));
    assert(!(c + f).contains(':')) by {
        assert forall|i: int| 0 <= i < (c + f).len() implies (#[trigger] (c + f)[i]) != ':' by {
            if i < c.len() {
                assert((c + f)[i] == c[i]);
                assert(c.contains(c[i]));
            } else {
                assert((c + f)[i] == f[i - c.len()]);
            }
        }
    }
    json::lemma_three_pieces(a, b, c + f, ':');
    json::lemma_padded(s, ws, u8::MAX as int, '.');
    (c + f).index_of_first_ensures('.');
    assert(iso8601::before_point(c + f) == c) by {
        if f.len() > 0 {
            assert((c + f)[c.len() as int] == '.');
            let k = (c + f).index_of_first('.')->0;
            if k < c.len() {
                assert((c + f)[k] == c[k]);
                assert(c.contains(c[k]));
            }
            assert((c + f).take(c.len() as int) =~= c);
        } else {
            assert(c + f =~= c);
        }
    }
}

proof fn lemma_day(y: int, m: int, d: int, w: (nat, nat, nat))
    requires
        is_day(y, m, d),
    ensures
        iso8601::iso_date(day_text(y, m, d, w)) == Some((y, m, d)),
        !day_text(y, m, d, w).contains('T'),
        !day_text(y, m, d, w).contains(':'),
{
    let (wy, wm, wd) = w;
    json::lemma_padded(y, wy, i32::MAX as int, '-');
    json::lemma_padded(m, wm, u8::MAX as int, '-');
    json::lemma_padded(d, wd, u8::MAX as int, '-');
    json::lemma_three_pieces(
        json::padded(y, wy),
        json::padded(m, wm),
        json::padded(d, wd),
        '-',
    );
    assert(json::digits_but(day_text(y, m, d, w), '-'));
}

/// A day alone means its midnight.
pub proof fn law_days_mean_midnight(y: int, m: int, d: int, w: (nat, nat, nat), date1904: bool)
    requires
        is_day(y, m, d),
    ensures
        iso8601::iso_value(day_text(y, m, d, w), date1904) == Some(moment(y, m, d, 0, 0, 0)),
{
    let s = day_text(y, m, d, w);
    lemma_day(y, m, d, w);
    s.index_of_first_ensures('T');
}

/// A time alone, with or without a fraction and a zone, falls on the first day of the
/// date system.
pub proof fn law_times_fall_on_the_first_day(
    h: int,
    m: int,
    s: int,
    w: (nat, nat, nat),
    f: Seq<char>,
    z: Seq<char>,
    date1904: bool,
)
    requires
        is_clock(h, m, s),
        is_fraction(f),
        is_zone(z),
    ensures
        iso8601::iso_value(clock_text(h, m, s, w) + f + z, date1904) == Some(
            if date1904 {
                moment(1904, 1, 1, h, m, s)
            } else {
                moment(1899, 12, 30, h, m, s)
            },
        ),
{
    let (wh, wm, ws) = w;
    let t = clock_text(h, m, s, w) + f + z;
    lemma_clock(h, m, s, w, f, z);
    assert(t[json::padded(h, wh).len() as int] == ':');
    assert(!t.contains('T')) by {
        assert forall|i: int| 0 <= i < t.len() implies (#[trigger] t[i]) != 'T' by {
            let n = (clock_text(h, m, s, w) + f).len() as int;
            if i < n {
                assert(t[i] == (clock_text(h, m, s, w) + f)[i]);
            } else {
                assert(t[i] == z[i - n]);
                if i > n {
                    assert(z[i - n] == z.skip(1)[i - n - 1]);
                }
            }
        }
    }
    t.index_of_first_ensures('T');
}

/// A day and a time with `T` between them mean that time on that day, whatever fraction
/// of a second and whatever time zone follow.
pub proof fn law_moments_are_read(
    y: int,
    mo: int,
    d: int,
    wd: (nat, nat, nat),
    h: int,
    mi: int,
    s: int,
    wt: (nat, nat, nat),
    f: Seq<char>,
    z: Seq<char>,
    date1904: bool,
)
    requires
        is_day(y, mo, d),
        is_clock(h, mi, s),
        is_fraction(f),
        is_zone(z),
    ensures
        iso8601::iso_value(
            day_text(y, mo, d, wd) + seq!['T'] + (clock_text(h, mi, s, wt) + f + z),
            date1904,
        ) == Some(moment(y, mo, d, h, mi, s)),
{
    let day = day_text(y, mo, d, wd);
    let clock = clock_text(h, mi, s, wt) + f + z;
    let all = day + seq!['T'] + clock;
    lemma_day(y, mo, d, wd);
    lemma_clock(h, mi, s, wt, f, z);
    all.index_of_first_ensures('T');
    assert(all[day.len() as int] == 'T');
    assert(all.index_of_first('T') == Some(day.len() as int)) by {
        let k = all.index_of_first('T')->0;
        if k < day.len() {
            assert(all[k] == day[k]);
            assert(day.contains(day[k]));
        }
    }
    assert(all.take(day.len() as int) =~= day);
    assert(all.skip(day.len() as int + 1) =~= clock);
}

/// A time without seconds falls on the minute.
pub proof fn law_seconds_may_be_left_out(h: int, m: int, wh: nat, wm: nat, date1904: bool)
    requires
        is_clock(h, m, 0),
    ensures
        iso8601::iso_value(
            json::padded(h, wh) + seq![':'] + json::padded(m, wm),
            date1904,
        ) == iso8601::iso_value(clock_text(h, m, 0, (wh, wm, 2)), date1904),
        iso8601::iso_value(json::padded(h, wh) + seq![':'] + json::padded(m, wm), date1904) is Some,
{
    let (a, b) = (json::padded(h, wh), json::padded(m, wm));
    let t = a + seq![':'] + b;
    let none = Seq::<char>::empty();
    law_times_fall_on_the_first_day(h, m, 0, (wh, wm, 2), none, none, date1904);
    assert(clock_text(h, m, 0, (wh, wm, 2)) + none + none =~= clock_text(h, m, 0, (wh, wm, 2)));
    json::lemma_padded(h, wh, u8::MAX as int, ':');
    json::lemma_padded(m, wm, u8::MAX as int, ':');
    assert(is_bare(a) && is_bare(b));
    assert(is_bare(t));
    lemma_zone(t, none);
    assert(t + none =~= t);
    text::lemma_split_one_piece(a, ':');
    text::lemma_split_one_piece(b, ':');
    text::lemma_split_joined(a, b, ':');
    assert(t[a.len() as int] == ':');
    t.index_of_first_ensures('T');
    assert(text::split(t, ':') =~= seq![a, b]);
}

/// What is read is a date and time that there is.
pub proof fn law_read_moments_are_in_range(s: Seq<char>, date1904: bool)
    ensures
        iso8601::iso_value(s, date1904) matches Some(t) ==> 1 <= t.month <= 12 && 1 <= t.day <= 31
            && t.hour <= 23 && t.minute <= 59 && t.second <= 59,
{
    if let Some(t) = iso8601::time_part(s) {
        let parts = text::split(iso8601::without_zone(t), ':');
        lemma_not_negative(parts[0]);
        lemma_not_negative(parts[1]);
        lemma_not_negative(iso8601::before_point(parts[2]));
    }
}

proof fn lemma_not_negative(s: Seq<char>)
    ensures
        text::unsigned_value(s, u8::MAX as int) matches Some(v) ==> 0 <= v,
{
    let digits = if s.len() > 0 && s[0] == '+' {
        s.skip(1)
    } else {
        s
    };
    if text::all_digits(digits) {
        text::lemma_digits_value_nonneg(digits);
    }
}

} // verus!
