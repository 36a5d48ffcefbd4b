//! Number formats: their codes, and which of them show dates or times.
use crate::text;
use vstd::prelude::*;

verus! {

/// Whether a built-in number format shows dates or times.
pub open spec fn is_builtin_date(id: u32) -> bool {
    14 <= id <= 22 || 45 <= id <= 47
}

/// A letter that stands for a part of a date or time.
pub open spec fn is_date_letter(c: char) -> bool {
    let l = text::lower(c);
    l == 'y' || l == 'm' || l == 'd' || l == 'h' || l == 's'
}

/// A letter that stands for a part of an elapsed time.
pub open spec fn is_time_letter(c: char) -> bool {
    let l = text::lower(c);
    l == 'h' || l == 'm' || l == 's'
}

/// Whether a bracketed section is an elapsed time: not empty, and made of time
/// letters only.
pub open spec fn is_elapsed(s: Seq<char>) -> bool {
    s.len() > 0 && forall|i: int| 0 <= i < s.len() ==> is_time_letter(#[trigger] s[i])
}

/// Whether a format code holds a date or time letter outside quoted text,
/// escapes and brackets, or a bracketed elapsed time.
pub open spec fn has_date_token(s: Seq<char>) -> bool
    decreases s.len(),
{
    if s.len() == 0 {
        false
    } else {
        let rest = s.skip(1);
        if s[0] == '\\' {
            if rest.len() == 0 {
                false
            } else {
                has_date_token(rest.skip(1))
            }
        } else if s[0] == '"' {
            match rest.index_of_first('"') {
                Some(i) => if 0 <= i < rest.len() {
                    has_date_token(rest.skip(i + 1))
                } else {
                    false
                },
                None => false,
            }
        } else if s[0] == '[' {
            match rest.index_of_first(']') {
                Some(i) => if 0 <= i < rest.len() {
                    is_elapsed(rest.take(i)) || has_date_token(rest.skip(i + 1))
                } else {
                    false
                },
                None => is_elapsed(rest),
            }
        } else {
            is_date_letter(s[0]) || has_date_token(rest)
        }
    }
}

fn date_letter(c: char) -> (r: bool)
    ensures
        r == is_date_letter(c),
{
    let l: char = text::to_lower(c);
    l == 'y' || l == 'm' || l == 'd' || l == 'h' || l == 's'
}

fn elapsed(chars: &Vec<char>, from: usize, to: usize) -> (r: bool)
    requires
        from <= to <= chars@.len(),
    ensures
        r == is_elapsed(chars@.subrange(from as int, to as int)),
{
    if from == to {
        return false;
    }
    let mut i: usize = from;
    while i < to
        invariant
            from <= i <= to <= chars@.len(),
            forall|k: int| from <= k < i ==> is_time_letter(#[trigger] chars@[k]),
        decreases to - i,
    {
        let l: char = text::to_lower(chars[i]);
        if !(l == 'h' || l == 'm' || l == 's') {
            assert(!is_time_letter(chars@.subrange(from as int, to as int)[i - from]));
            return false;
        }
        i += 1;
    }
    true
}

/// Scans a format code for date and time letters.
pub fn contains_date_time_token(format_code: &str) -> (r: bool)
    ensures
        r == has_date_token(format_code@),
{
    let chars: Vec<char> = text::to_chars(format_code);
    let mut i: usize = 0;
    assert(chars@.skip(0) =~= chars@);
    while i < chars.len()
        invariant
            i <= chars@.len(),
            chars@ == format_code@,
            chars@.len() == chars.len(),
            has_date_token(chars@.skip(i as int)) == has_date_token(format_code@),
        decreases chars@.len() - i,
    {
        let c: char = chars[i];
        let ghost here = chars@.skip(i as int);
        let ghost rest = chars@.skip(i + 1);
        assert(here.skip(1) =~= rest);
        if c == '\\' {
            if i + 1 >= chars.len() {
                return false;
            }
            assert(rest.skip(1) =~= chars@.skip(i + 2));
            i += 2;
        } else if c == '"' {
            match text::find_from(&chars, i + 1, '"') {
                Some(k) => {
                    assert(rest.skip(k - i) =~= chars@.skip(k + 1));
                    i = k + 1;
                },
                None => {
                    return false;
                },
            }
        } else if c == '[' {
            match text::find_from(&chars, i + 1, ']') {
                Some(k) => {
                    assert(rest.skip(k - i) =~= chars@.skip(k + 1));
                    assert(rest.take(k - i - 1) =~= chars@.subrange(i + 1, k as int));
                    if elapsed(&chars, i + 1, k) {
                        return true;
                    }
                    i = k + 1;
                },
                None => {
                    assert(rest =~= chars@.subrange(i + 1, chars@.len() as int));
                    return elapsed(&chars, i + 1, chars.len());
                },
            }
        } else {
            if date_letter(c) {
                return true;
            }
            i += 1;
        }
    }
    false
}

/// Whether a number format shows dates or times: by its number below 164, where
/// formats are built in, else by its code.
pub open spec fn is_date_format(id: u32, code: Option<Seq<char>>) -> bool {
    if id < 164 {
        is_builtin_date(id)
    } else {
        match code {
            Some(c) => has_date_token(c),
            None => false,
        }
    }
}

/// Decides whether a number format shows dates or times.
pub fn is_date_time_format(id: u32, format_code: Option<&str>) -> (r: bool)
    ensures
        r == is_date_format(
            id,
            match format_code {
                Some(c) => Some(c@),
                None => None,
            },
        ),
{
    if id < 164 {
        (14 <= id && id <= 22) || (45 <= id && id <= 47)
    } else {
        match format_code {
            Some(code) => contains_date_time_token(code),
            None => false,
        }
    }
}

/// The code of a built-in number format other than the general one.
pub open spec fn builtin_code(id: u32) -> Option<Seq<char>> {
    if id == 1 {
        Some("0"@)
    } else if id == 2 {
        Some("0.00"@)
    } else if id == 3 {
        Some("#,##0"@)
    } else if id == 4 {
        Some("#,##0.00"@)
    } else if id == 9 {
        Some("0%"@)
    } else if id == 10 {
        Some("0.00%"@)
    } else if id == 11 {
        Some("0.00E+00"@)
    } else if id == 12 {
        Some("# ?/?"@)
    } else if id == 13 {
        Some("# ??/??"@)
    } else if id == 14 {
        Some("mm-dd-yy"@)
    } else if id == 15 {
        Some("d-mmm-yy"@)
    } else if id == 16 {
        Some("d-mmm"@)
    } else if id == 17 {
        Some("mmm-yy"@)
    } else if id == 18 {
        Some("h:mm AM/PM"@)
    } else if id == 19 {
        Some("h:mm:ss AM/PM"@)
    } else if id == 20 {
        Some("h:mm"@)
    } else if id == 21 {
        Some("h:mm:ss"@)
    } else if id == 22 {
        Some("m/d/yy h:mm"@)
    } else if id == 37 {
        Some("#,##0 ;(#,##0)"@)
    } else if id == 38 {
        Some("#,##0 ;[Red](#,##0)"@)
    } else if id == 39 {
        Some("#,##0.00;(#,##0.00)"@)
    } else if id == 40 {
        Some("#,##0.00;[Red](#,##0.00)"@)
    } else if id == 45 {
        Some("mm:ss"@)
    } else if id == 46 {
        Some("[h]:mm:ss"@)
    } else if id == 47 {
        Some("mmss.0"@)
    } else if id == 48 {
        Some("##0.0E+0"@)
    } else if id == 49 {
        Some("@"@)
    } else {
        None
    }
}

/// Looks up the code of a built-in number format.
pub fn builtin_format(id: u32) -> (r: Option<&'static str>)
    ensures
        (match r {
            Some(c) => Some(c@),
            None => None,
        }) == builtin_code(id),
{
    if id == 1 {
        Some("0")
    } else if id == 2 {
        Some("0.00")
    } else if id == 3 {
        Some("#,##0")
    } else if id == 4 {
        Some("#,##0.00")
    } else if id == 9 {
        Some("0%")
    } else if id == 10 {
        Some("0.00%")
    } else if id == 11 {
        Some("0.00E+00")
    } else if id == 12 {
        Some("# ?/?")
    } else if id == 13 {
        Some("# ??/??")
    } else if id == 14 {
        Some("mm-dd-yy")
    } else if id == 15 {
        Some("d-mmm-yy")
    } else if id == 16 {
        Some("d-mmm")
    } else if id == 17 {
        Some("mmm-yy")
    } else if id == 18 {
        Some("h:mm AM/PM")
    } else if id == 19 {
        Some("h:mm:ss AM/PM")
    } else if id == 20 {
        Some("h:mm")
    } else if id == 21 {
        Some("h:mm:ss")
    } else if id == 22 {
        Some("m/d/yy h:mm")
    } else if id == 37 {
        Some("#,##0 ;(#,##0)")
    } else if id == 38 {
        Some("#,##0 ;[Red](#,##0)")
    } else if id == 39 {
        Some("#,##0.00;(#,##0.00)")
    } else if id == 40 {
        Some("#,##0.00;[Red](#,##0.00)")
    } else if id == 45 {
        Some("mm:ss")
    } else if id == 46 {
        Some("[h]:mm:ss")
    } else if id == 47 {
        Some("mmss.0")
    } else if id == 48 {
        Some("##0.0E+0")
    } else if id == 49 {
        Some("@")
    } else {
        None
    }
}

// ---------------------------------------------------------------------------
// What format codes and built-in numbers say

/// A character of a format code that stands for itself.
pub open spec fn is_plain(c: char) -> bool {
    c != '\\' && c != '"' && c != '['
}

/// A plain character in front makes a code show dates or times if it is one of the
/// letters `y`, `m`, `d`, `h` and `s`, in either case, and changes nothing otherwise.
pub proof fn law_date_letters_make_date_formats(c: char, rest: Seq<char>)
    requires
        is_plain(c),
    ensures
        has_date_token(seq![c] + rest) == (has_date_token(rest) || seq![
            'y',
            'm',
            'd',
            'h',
            's',
            'Y',
            'M',
            'D',
            'H',
            'S',
        ].contains(c)),
{
    let s = seq![c] + rest;
    assert(s.skip(1) =~= rest);
    let letters = seq!['y', 'm', 'd', 'h', 's', 'Y', 'M', 'D', 'H', 'S'];
    assert(letters[0] == 'y' && letters[1] == 'm' && letters[2] == 'd' && letters[3] == 'h'
        && letters[4] == 's' && letters[5] == 'Y' && letters[6] == 'M' && letters[7] == 'D'
        && letters[8] == 'H' && letters[9] == 'S');
    assert(is_date_letter(c) == letters.contains(c)) by {
        if letters.contains(c) {
            let i = letters.index_of(c);
            assert(letters[i] == c);
        }
    }
}

/// Text in quotes, and a character behind a backslash, have no say in whether a code
/// shows dates or times.
pub proof fn law_quoted_text_is_no_date(quoted: Seq<char>, escaped: char, rest: Seq<char>)
    requires
        !quoted.contains('"'),
    ensures
        has_date_token(seq!['"'] + quoted + seq!['"'] + rest) == has_date_token(rest),
        has_date_token(seq!['\\', escaped] + rest) == has_date_token(rest),
{
    let s = seq!['"'] + quoted + seq!['"'] + rest;
    let after = s.skip(1);
    assert(after =~= quoted + seq!['"'] + rest);
    after.index_of_first_ensures('"');
    assert(after[quoted.len() as int] == '"');
    assert(after.index_of_first('"') == Some(quoted.len() as int)) by {
        let i = after.index_of_first('"')->0;
        if i < quoted.len() {
            assert(quoted[i] == after[i]);
        }
    }
    assert(after.skip(quoted.len() as int + 1) =~= rest);
    let t = seq!['\\', escaped] + rest;
    assert(t.skip(1).skip(1) =~= rest);
}

/// What stands in brackets makes a code show times if it is an elapsed time, one or
/// more of `h`, `m` and `s` in either case and nothing else, and has no say otherwise.
pub proof fn law_brackets_hold_elapsed_times(inside: Seq<char>, rest: Seq<char>)
    requires
        !inside.contains(']'),
    ensures
        has_date_token(seq!['['] + inside + seq![']'] + rest) == (has_date_token(rest) || (
        inside.len() > 0 && forall|i: int|
            0 <= i < inside.len() ==> seq!['h', 'm', 's', 'H', 'M', 'S'].contains(
                #[trigger] inside[i],
            ))),
{
    let s = seq!['['] + inside + seq![']'] + rest;
    let after = s.skip(1);
    assert(after =~= inside + seq![']'] + rest);
    after.index_of_first_ensures(']');
    assert(after[inside.len() as int] == ']');
    assert(after.index_of_first(']') == Some(inside.len() as int)) by {
        let i = after.index_of_first(']')->0;
        if i < inside.len() {
            assert(inside[i] == after[i]);
        }
    }
    assert(after.skip(inside.len() as int + 1) =~= rest);
    assert(after.take(inside.len() as int) =~= inside);
    let letters = seq!['h', 'm', 's', 'H', 'M', 'S'];
    assert(letters[0] == 'h' && letters[1] == 'm' && letters[2] == 's' && letters[3] == 'H'
        && letters[4] == 'M' && letters[5] == 'S');
    assert forall|c: char| #[trigger] is_time_letter(c) == letters.contains(c) by {
        if letters.contains(c) {
            let i = letters.index_of(c);
            assert(letters[i] == c);
        }
    }
    if is_elapsed(inside) {
        assert forall|i: int| 0 <= i < inside.len() implies letters.contains(
            #[trigger] inside[i],
        ) by {
            assert(is_time_letter(inside[i]));
        }
    }
}

/// A code that is empty shows neither dates nor times, and text that is quoted to the
/// end of the code does not.
pub proof fn law_no_letters_no_date(quoted: Seq<char>)
    requires
        !quoted.contains('"'),
    ensures
        !has_date_token(Seq::empty()),
        !has_date_token(seq!['"'] + quoted),
{
    let s = seq!['"'] + quoted;
    assert(s.skip(1) =~= quoted);
    quoted.index_of_first_ensures('"');
}

/// Whether a text has neither date letters nor what changes the meaning of others.
spec fn is_dateless(s: Seq<char>) -> bool {
    forall|i: int| 0 <= i < s.len() ==> is_plain(#[trigger] s[i]) && !is_date_letter(s[i])
}

proof fn lemma_dateless_front(s: Seq<char>, rest: Seq<char>)
    requires
        is_dateless(s),
    ensures
        has_date_token(s + rest) == has_date_token(rest),
    decreases s.len(),
{
    if s.len() == 0 {
        assert(s + rest =~= rest);
    } else {
        let t = s + rest;
        assert(t[0] == s[0]);
        assert(t.skip(1) =~= s.skip(1) + rest);
        lemma_dateless_front(s.skip(1), rest);
    }
}

proof fn lemma_dateless(s: Seq<char>)
    requires
        is_dateless(s),
    ensures
        !has_date_token(s),
{
    lemma_dateless_front(s, Seq::empty());
    assert(s + Seq::<char>::empty() =~= s);
}

proof fn lemma_number_codes()
    ensures
        !has_date_token("0"@),
        !has_date_token("0.00"@),
        !has_date_token("#,##0"@),
        !has_date_token("#,##0.00"@),
        !has_date_token("0%"@),
        !has_date_token("0.00%"@),
        !has_date_token("0.00E+00"@),
        !has_date_token("# ?/?"@),
        !has_date_token("# ??/??"@),
        !has_date_token("#,##0 ;(#,##0)"@),
        !has_date_token("#,##0.00;(#,##0.00)"@),
        !has_date_token("##0.0E+0"@),
        !has_date_token("@"@),
{
    reveal_strlit("0");
    reveal_strlit("0.00");
    reveal_strlit("#,##0");
    reveal_strlit("#,##0.00");
    reveal_strlit("0%");
    reveal_strlit("0.00%");
    reveal_strlit("0.00E+00");
    reveal_strlit("# ?/?");
    reveal_strlit("# ??/??");
    reveal_strlit("#,##0 ;(#,##0)");
    reveal_strlit("#,##0.00;(#,##0.00)");
    reveal_strlit("##0.0E+0");
    reveal_strlit("@");
    lemma_dateless("0"@);
    lemma_dateless("0.00"@);
    lemma_dateless("#,##0"@);
    lemma_dateless("#,##0.00"@);
    lemma_dateless("0%"@);
    lemma_dateless("0.00%"@);
    lemma_dateless("0.00E+00"@);
    lemma_dateless("# ?/?"@);
    lemma_dateless("# ??/??"@);
    lemma_dateless("#,##0 ;(#,##0)"@);
    lemma_dateless("#,##0.00;(#,##0.00)"@);
    lemma_dateless("##0.0E+0"@);
    lemma_dateless("@"@);
}

proof fn lemma_colored(front: Seq<char>, rest: Seq<char>)
    requires
        is_dateless(front),
        is_dateless(rest),
    ensures
        !has_date_token(front + seq!['[', 'R', 'e', 'd', ']'] + rest),
{
    let inside = seq!['R', 'e', 'd'];
    let tail = seq!['['] + inside + seq![']'] + rest;
    law_brackets_hold_elapsed_times(inside, rest);
    let letters = seq!['h', 'm', 's', 'H', 'M', 'S'];
    assert(!letters.contains(inside[0]));
    lemma_dateless(rest);
    lemma_dateless_front(front, tail);
    assert(front + tail =~= front + seq!['[', 'R', 'e', 'd', ']'] + rest);
}

proof fn lemma_colored_codes()
    ensures
        !has_date_token("#,##0 ;[Red](#,##0)"@),
        !has_date_token("#,##0.00;[Red](#,##0.00)"@),
{
    reveal_strlit("#,##0 ;[Red](#,##0)");
    reveal_strlit("#,##0.00;[Red](#,##0.00)");
    let a = "#,##0 ;[Red](#,##0)"@;
    lemma_colored(a.take(7), a.skip(12));
    assert(a =~= a.take(7) + seq!['[', 'R', 'e', 'd', ']'] + a.skip(12));
    let b = "#,##0.00;[Red](#,##0.00)"@;
    lemma_colored(b.take(9), b.skip(14));
    assert(b =~= b.take(9) + seq!['[', 'R', 'e', 'd', ']'] + b.skip(14));
}

proof fn lemma_date_codes()
    ensures
        has_date_token("mm-dd-yy"@),
        has_date_token("d-mmm-yy"@),
        has_date_token("d-mmm"@),
        has_date_token("mmm-yy"@),
        has_date_token("h:mm AM/PM"@),
        has_date_token("h:mm:ss AM/PM"@),
        has_date_token("h:mm"@),
        has_date_token("h:mm:ss"@),
        has_date_token("m/d/yy h:mm"@),
        has_date_token("mm:ss"@),
        has_date_token("[h]:mm:ss"@),
        has_date_token("mmss.0"@),
{
    reveal_strlit("mm-dd-yy");
    reveal_strlit("d-mmm-yy");
    reveal_strlit("d-mmm");
    reveal_strlit("mmm-yy");
    reveal_strlit("h:mm AM/PM");
    reveal_strlit("h:mm:ss AM/PM");
    reveal_strlit("h:mm");
    reveal_strlit("h:mm:ss");
    reveal_strlit("m/d/yy h:mm");
    reveal_strlit("mm:ss");
    reveal_strlit("[h]:mm:ss");
    reveal_strlit("mmss.0");
    let s = "[h]:mm:ss"@;
    law_brackets_hold_elapsed_times(seq!['h'], s.skip(3));
    assert(seq!['h', 'm', 's', 'H', 'M', 'S'][0] == 'h');
    assert(s =~= seq!['['] + seq!['h'] + seq![']'] + s.skip(3));
}

/// A built-in number format shows dates or times exactly if its own code does, and
/// whatever code the stylesheet states under its number has no say. Those formats are
/// the ones from 14 to 22 and from 45 to 47.
pub proof fn law_builtin_formats_go_by_their_codes(id: u32, stated: Option<Seq<char>>)
    requires
        id < 164,
    ensures
        is_date_format(id, stated) == (builtin_code(id) matches Some(c) && has_date_token(c)),
        is_date_format(id, stated) == seq![
            14u32,
            15u32,
            16u32,
            17u32,
            18u32,
            19u32,
            20u32,
            21u32,
            22u32,
            45u32,
            46u32,
            47u32,
        ].contains(id),
{
    lemma_number_codes();
    lemma_colored_codes();
    lemma_date_codes();
    let dates = seq![
        14u32,
        15u32,
        16u32,
        17u32,
        18u32,
        19u32,
        20u32,
        21u32,
        22u32,
        45u32,
        46u32,
        47u32,
    ];
    assert(dates[0] == 14 && dates[1] == 15 && dates[2] == 16 && dates[3] == 17 && dates[4] == 18
        && dates[5] == 19 && dates[6] == 20 && dates[7] == 21 && dates[8] == 22 && dates[9] == 45
        && dates[10] == 46 && dates[11] == 47);
    if dates.contains(id) {
        let i = dates.index_of(id);
        assert(dates[i] == id);
    }
}

/// How the codes of the built-in formats are made of one another: two decimals, a
/// percent sign, seconds, a half of the day, negative numbers in brackets or in red.
pub proof fn law_builtin_codes_build_on_each_other()
    ensures
        ({
            let code = |id: u32| builtin_code(id)->0;
            &&& builtin_code(0) is None
            &&& code(1) == "0"@ && code(2) == code(1) + ".00"@
            &&& code(3) == "#,##0"@ && code(4) == code(3) + ".00"@
            &&& code(9) == code(1) + "%"@ && code(10) == code(2) + "%"@
            &&& code(11) == code(2) + "E+00"@ && code(48) == "##0.0E+0"@
            &&& code(12) == "# ?/?"@ && code(13) == "# ??/??"@
            &&& code(14) == "mm-dd-yy"@
            &&& code(16) == "d-mmm"@ && code(15) == code(16) + "-yy"@
            &&& code(17) == "mmm-yy"@
            &&& code(20) == "h:mm"@ && code(21) == code(20) + ":ss"@
            &&& code(18) == code(20) + " AM/PM"@ && code(19) == code(21) + " AM/PM"@
            &&& code(22) == "m/d/yy "@ + code(20)
            &&& code(37) == code(3) + " ;("@ + code(3) + ")"@
            &&& code(38) == code(3) + " ;[Red]("@ + code(3) + ")"@
            &&& code(39) == code(4) + ";("@ + code(4) + ")"@
            &&& code(40) == code(4) + ";[Red]("@ + code(4) + ")"@
            &&& code(45) == "mm:ss"@ && code(46) == "[h]:"@ + code(45) && code(47) == "mmss.0"@
            &&& code(49) == "@"@
        }),
        forall|id: u32| #[trigger]
            builtin_code(id) is Some ==> 1 <= id <= 4 || 9 <= id <= 22 || 37 <= id <= 40 || 45 <= id
                <= 49,
{
    reveal_strlit("0");
    reveal_strlit(".00");
    reveal_strlit("%");
    reveal_strlit("E+00");
    reveal_strlit("#,##0");
    reveal_strlit("# ?/?");
    reveal_strlit("# ??/??");
    reveal_strlit("mm-dd-yy");
    reveal_strlit("d-mmm");
    reveal_strlit("-yy");
    reveal_strlit("mmm-yy");
    reveal_strlit("h:mm");
    reveal_strlit(":ss");
    reveal_strlit(" AM/PM");
    reveal_strlit("m/d/yy ");
    reveal_strlit("mm:ss");
    reveal_strlit("[h]:");
    reveal_strlit("mmss.0");
    reveal_strlit("##0.0E+0");
    reveal_strlit("@");
    reveal_strlit(" ;(");
    reveal_strlit(")");
    reveal_strlit(" ;[Red](");
    reveal_strlit(";(");
    reveal_strlit(";[Red](");
    reveal_strlit("0.00");
    reveal_strlit("#,##0.00");
    reveal_strlit("0%");
    reveal_strlit("0.00%");
    reveal_strlit("0.00E+00");
    reveal_strlit("d-mmm-yy");
    reveal_strlit("h:mm AM/PM");
    reveal_strlit("h:mm:ss AM/PM");
    reveal_strlit("h:mm:ss");
    reveal_strlit("m/d/yy h:mm");
    reveal_strlit("#,##0 ;(#,##0)");
    reveal_strlit("#,##0 ;[Red](#,##0)");
    reveal_strlit("#,##0.00;(#,##0.00)");
    reveal_strlit("#,##0.00;[Red](#,##0.00)");
    reveal_strlit("[h]:mm:ss");
    assert("0.00"@ =~= "0"@ + ".00"@);
    assert("#,##0.00"@ =~= "#,##0"@ + ".00"@);
    assert("0%"@ =~= "0"@ + "%"@);
    assert("0.00%"@ =~= "0.00"@ + "%"@);
    assert("0.00E+00"@ =~= "0.00"@ + "E+00"@);
    assert("d-mmm-yy"@ =~= "d-mmm"@ + "-yy"@);
    assert("h:mm AM/PM"@ =~= "h:mm"@ + " AM/PM"@);
    assert("h:mm:ss AM/PM"@ =~= "h:mm:ss"@ + " AM/PM"@);
    assert("h:mm:ss"@ =~= "h:mm"@ + ":ss"@);
    assert("m/d/yy h:mm"@ =~= "m/d/yy "@ + "h:mm"@);
    assert("#,##0 ;(#,##0)"@ =~= "#,##0"@ + " ;("@ + "#,##0"@ + ")"@);
    assert("#,##0 ;[Red](#,##0)"@ =~= "#,##0"@ + " ;[Red]("@ + "#,##0"@ + ")"@);
    assert("#,##0.00;(#,##0.00)"@ =~= "#,##0.00"@ + ";("@ + "#,##0.00"@ + ")"@);
    assert("#,##0.00;[Red](#,##0.00)"@ =~= "#,##0.00"@ + ";[Red]("@ + "#,##0.00"@ + ")"@);
    assert("[h]:mm:ss"@ =~= "[h]:"@ + "mm:ss"@);
}

/// A number format of a stylesheet's own shows dates or times exactly if its code
/// does; without a code it does not.
pub proof fn law_custom_formats_go_by_their_codes(id: u32, code: Seq<char>)
    requires
        id >= 164,
    ensures
        is_date_format(id, Some(code)) == has_date_token(code),
        !is_date_format(id, None),
        builtin_code(id) is None,
{
}

} // verus!
