//! Character-level text operations shared by every other module: comparison,
//! splitting, trimming, and the decimal and hexadecimal notations.
use vstd::prelude::*;

verus! {

/// `String::push`: appends one character.
pub assume_specification[ String::push ](s: &mut String, c: char)
    ensures
        final(s)@ == old(s)@.push(c),
;

/// `str`'s equality: two strings are equal when they hold the same characters.
pub assume_specification[ <str as PartialEq<str>>::eq ](a: &str, b: &str) -> (r: bool)
    ensures
        r == (a@ == b@),
;

/// The text that `{:?}` formatting gives for a string.
pub uninterp spec fn debug_text(s: Seq<char>) -> Seq<char>;

/// `format!("{:?}")` of a string slice: quotes it and escapes what does not
/// print, as a function of its characters alone.
#[verifier::external_body]
pub(crate) fn quoted(s: &str) -> (r: String)
    ensures
        r@ == debug_text(s@),
{
    format!("{s:?}")
}

/// Whether two strings hold the same characters.
pub fn same(a: &str, b: &str) -> (r: bool)
    ensures
        r == (a@ == b@),
{
    *a == *b
}

/// Whether an optional string is present and holds exactly `b`.
pub fn is_some_text(a: &Option<String>, b: &str) -> (r: bool)
    ensures
        r == (text_opt(*a) == Some(b@)),
{
    match a {
        Some(s) => same(s.as_str(), b),
        None => false,
    }
}

/// The characters of an optional string.
pub open spec fn text_opt(s: Option<String>) -> Option<Seq<char>> {
    match s {
        Some(t) => Some(t@),
        None => None,
    }
}

/// A copy of an optional string.
pub fn copy_opt(s: &Option<String>) -> (r: Option<String>)
    ensures
        text_opt(r) == text_opt(*s),
{
    match s {
        Some(t) => Some(t.clone()),
        None => None,
    }
}

/// The characters of a string.
pub fn to_chars(s: &str) -> (r: Vec<char>)
    ensures
        r@ == s@,
{
    let mut v: Vec<char> = Vec::new();
    for c in it: s.chars()
        invariant
            v@ == it.seq().take(it.index()),
            it.seq() == s@,
    {
        v.push(c);
    }
    v
}

/// The string made of `chars[from..to]`.
pub fn from_chars(chars: &Vec<char>, from: usize, to: usize) -> (r: String)
    requires
        from <= to <= chars@.len(),
    ensures
        r@ == chars@.subrange(from as int, to as int),
{
    let mut s: String = String::new();
    let mut i: usize = from;
    while i < to
        invariant
            from <= i <= to <= chars@.len(),
            s@ == chars@.subrange(from as int, i as int),
        decreases to - i,
    {
        s.push(chars[i]);
        i += 1;
        assert(s@ =~= chars@.subrange(from as int, i as int));
    }
    s
}

/// Appends `tail` to `text`.
pub fn push_text(text: &mut String, tail: &str)
    ensures
        final(text)@ == old(text)@ + tail@,
{
    text.append(tail);
}

/// Concatenates two strings.
pub fn join2(a: &str, b: &str) -> (r: String)
    ensures
        r@ == a@ + b@,
{
    let mut s: String = a.to_owned();
    s.append(b);
    s
}

/// Concatenates three strings.
pub fn join3(a: &str, b: &str, c: &str) -> (r: String)
    ensures
        r@ == a@ + b@ + c@,
{
    let mut s: String = join2(a, b);
    s.append(c);
    s
}

// ---------------------------------------------------------------------------
// Character classes

/// An ASCII decimal digit.
pub open spec fn is_digit(c: char) -> bool {
    '0' <= c && c <= '9'
}

/// An ASCII uppercase letter.
pub open spec fn is_upper(c: char) -> bool {
    'A' <= c && c <= 'Z'
}

/// An ASCII hexadecimal digit, of either case.
pub open spec fn is_hex_digit(c: char) -> bool {
    is_digit(c) || ('a' <= c && c <= 'f') || ('A' <= c && c <= 'F')
}

/// A character with the Unicode property `White_Space`.
pub open spec fn is_white(c: char) -> bool {
    ||| ('\u{9}' <= c && c <= '\u{d}')
    ||| c == '\u{20}'
    ||| c == '\u{85}'
    ||| c == '\u{a0}'
    ||| c == '\u{1680}'
    ||| ('\u{2000}' <= c && c <= '\u{200a}')
    ||| c == '\u{2028}'
    ||| c == '\u{2029}'
    ||| c == '\u{202f}'
    ||| c == '\u{205f}'
    ||| c == '\u{3000}'
}

pub fn char_is_digit(c: char) -> (r: bool)
    ensures
        r == is_digit(c),
{
    '0' <= c && c <= '9'
}

pub fn char_is_white(c: char) -> (r: bool)
    ensures
        r == is_white(c),
{
    ('\u{9}' <= c && c <= '\u{d}') || c == '\u{20}' || c == '\u{85}' || c == '\u{a0}' || c
        == '\u{1680}' || ('\u{2000}' <= c && c <= '\u{200a}') || c == '\u{2028}' || c == '\u{2029}'
        || c == '\u{202f}' || c == '\u{205f}' || c == '\u{3000}'
}

/// The ASCII lowercase form of a character; others are left alone.
pub open spec fn lower(c: char) -> char {
    if is_upper(c) {
        ((c as u32 + 32) as u32) as char
    } else {
        c
    }
}

pub fn to_lower(c: char) -> (r: char)
    ensures
        r == lower(c),
{
    if 'A' <= c && c <= 'Z' {
        ((c as u8) + 32) as char
    } else {
        c
    }
}

/// Every character of `s` is a decimal digit.
pub open spec fn all_digits(s: Seq<char>) -> bool {
    forall|i: int| 0 <= i < s.len() ==> is_digit(#[trigger] s[i])
}

/// Whether `chars[from..to]` holds digits only.
pub fn digits_only(chars: &Vec<char>, from: usize, to: usize) -> (r: bool)
    requires
        from <= to <= chars@.len(),
    ensures
        r == all_digits(chars@.subrange(from as int, to as int)),
{
    let mut i: usize = from;
    while i < to
        invariant
            from <= i <= to <= chars@.len(),
            forall|k: int| from <= k < i ==> is_digit(#[trigger] chars@[k]),
        decreases to - i,
    {
        if !char_is_digit(chars[i]) {
            assert(!is_digit(chars@.subrange(from as int, to as int)[i - from]));
            return false;
        }
        i += 1;
    }
    true
}

// ---------------------------------------------------------------------------
// Searching, splitting, trimming

/// The index of the first `c` in `chars[from..]`, if there is one.
pub fn find_from(chars: &Vec<char>, from: usize, c: char) -> (r: Option<usize>)
    requires
        from <= chars@.len(),
    ensures
        match r {
            Some(i) => from <= i < chars@.len() && chars@[i as int] == c && (forall|k: int|
                from <= k < i ==> chars@[k] != c) && chars@.skip(from as int).index_of_first(c)
                == Some(i - from),
            None => (forall|k: int| from <= k < chars@.len() ==> chars@[k] != c) && chars@.skip(
                from as int,
            ).index_of_first(c) is None,
        },
{
    let ghost rest = chars@.skip(from as int);
    proof {
        rest.index_of_first_ensures(c);
    }
    let mut i: usize = from;
    while i < chars.len()
        invariant
            from <= i <= chars@.len(),
            rest == chars@.skip(from as int),
            forall|k: int| from <= k < i ==> chars@[k] != c,
            match rest.index_of_first(c) {
                Some(p) => 0 <= p < rest.len() && rest[p] == c && forall|j: int|
                    0 <= j < p ==> rest[j] != c,
                None => forall|j: int| 0 <= j < rest.len() ==> rest[j] != c,
            },
        decreases chars@.len() - i,
    {
        if chars[i] == c {
            assert(rest[i - from] == c);
            let ghost p = rest.index_of_first(c)->0;
            assert(rest.index_of_first(c) is Some);
            assert(p <= i - from);
            assert(rest[p] == chars@[p + from]);
            return Some(i);
        }
        i += 1;
    }
    proof {
        if let Some(p) = rest.index_of_first(c) {
            assert(rest[p] == chars@[p + from]);
        }
    }
    None
}

/// The index of the first `c` in a string's characters, if there is one.
pub fn find_char(chars: &Vec<char>, c: char) -> (r: Option<usize>)
    ensures
        match r {
            Some(i) => i < chars@.len() && chars@.index_of_first(c) == Some(i as int),
            None => chars@.index_of_first(c) is None,
        },
{
    assert(chars@.skip(0) =~= chars@);
    find_from(chars, 0, c)
}

/// The pieces of `s` between the occurrences of `sep`; always at least one.
pub open spec fn split(s: Seq<char>, sep: char) -> Seq<Seq<char>>
    decreases s.len(),
{
    match s.index_of_first(sep) {
        Some(i) => if 0 <= i < s.len() {
            seq![s.take(i)] + split(s.skip(i + 1), sep)
        } else {
            seq![s]
        },
        None => seq![s],
    }
}

/// A text without the separator is a single piece.
pub proof fn lemma_split_one_piece(s: Seq<char>, sep: char)
    requires
        !s.contains(sep),
    ensures
        split(s, sep) == seq![s],
{
    s.index_of_first_ensures(sep);
}

/// Two texts with a separator between them split into the pieces of the one and
/// those of the other.
pub proof fn lemma_split_joined(a: Seq<char>, b: Seq<char>, sep: char)
    ensures
        split(a + seq![sep] + b, sep) == split(a, sep) + split(b, sep),
    decreases a.len(),
{
    let s = a + seq![sep] + b;
    s.index_of_first_ensures(sep);
    a.index_of_first_ensures(sep);
    assert(s[a.len() as int] == sep);
    let i = s.index_of_first(sep)->0;
    if a.contains(sep) {
        let k = a.index_of_first(sep)->0;
        assert(s[k] == a[k]);
        assert(i == k) by {
            if i < k {
                assert(a[i] == s[i]);
            }
        }
        assert(s.take(i) =~= a.take(i));
        assert(s.skip(i + 1) =~= a.skip(i + 1) + seq![sep] + b);
        lemma_split_joined(a.skip(i + 1), b, sep);
        assert(split(s, sep) =~= split(a, sep) + split(b, sep));
    } else {
        assert(i == a.len()) by {
            if i < a.len() {
                assert(a[i] == s[i]);
            }
        }
        assert(s.take(i) =~= a);
        assert(s.skip(i + 1) =~= b);
    }
}

/// The character sequences that a list of vectors holds.
pub open spec fn texts(v: Seq<Vec<char>>) -> Seq<Seq<char>> {
    v.map_values(|x: Vec<char>| x@)
}

/// A copy of `chars[from..to]`.
pub fn copy_range(chars: &Vec<char>, from: usize, to: usize) -> (r: Vec<char>)
    requires
        from <= to <= chars@.len(),
    ensures
        r@ == chars@.subrange(from as int, to as int),
{
    let mut v: Vec<char> = Vec::new();
    let mut i: usize = from;
    while i < to
        invariant
            from <= i <= to <= chars@.len(),
            v@ == chars@.subrange(from as int, i as int),
        decreases to - i,
    {
        v.push(chars[i]);
        i += 1;
        assert(v@ =~= chars@.subrange(from as int, i as int));
    }
    v
}

/// Splits `chars` at every `sep`.
pub fn split_chars(chars: &Vec<char>, sep: char) -> (r: Vec<Vec<char>>)
    ensures
        texts(r@) == split(chars@, sep),
        r@.len() >= 1,
{
    let mut out: Vec<Vec<char>> = Vec::new();
    let mut start: usize = 0;
    assert(chars@.skip(0) =~= chars@);
    assert(texts(out@) + split(chars@, sep) =~= split(chars@, sep));
    loop
        invariant
            start <= chars@.len(),
            texts(out@) + split(chars@.skip(start as int), sep) == split(chars@, sep),
        decreases chars@.len() - start,
    {
        let ghost rest = chars@.skip(start as int);
        match find_from(chars, start, sep) {
            Some(i) => {
                let piece: Vec<char> = copy_range(chars, start, i);
                let ghost before = out@;
                assert(piece@ =~= rest.take(i - start));
                assert(rest.skip(i - start + 1) =~= chars@.skip(i + 1));
                out.push(piece);
                assert(texts(out@) =~= texts(before).push(piece@));
                assert(texts(out@) + split(chars@.skip(i + 1), sep) =~= texts(before) + split(
                    rest,
                    sep,
                ));
                assert(i < chars.len());
                start = i + 1;
            },
            None => {
                let piece: Vec<char> = copy_range(chars, start, chars.len());
                let ghost before = out@;
                assert(piece@ =~= rest);
                out.push(piece);
                assert(texts(out@) =~= texts(before) + split(rest, sep));
                return out;
            },
        }
    }
}

/// `s` without its leading white space.
pub open spec fn trim_start(s: Seq<char>) -> Seq<char>
    decreases s.len(),
{
    if s.len() > 0 && is_white(s[0]) {
        trim_start(s.skip(1))
    } else {
        s
    }
}

/// `s` without its trailing white space.
pub open spec fn trim_end(s: Seq<char>) -> Seq<char>
    decreases s.len(),
{
    if s.len() > 0 && is_white(s.last()) {
        trim_end(s.drop_last())
    } else {
        s
    }
}

/// `s` without the white space at either end.
pub open spec fn trim(s: Seq<char>) -> Seq<char> {
    trim_start(trim_end(s))
}

/// Every character of `s` is white space.
pub open spec fn all_white(s: Seq<char>) -> bool {
    forall|i: int| 0 <= i < s.len() ==> is_white(#[trigger] s[i])
}

/// Whether `s` neither begins nor ends with white space.
pub open spec fn has_no_margin(s: Seq<char>) -> bool {
    s.len() > 0 ==> !is_white(s[0]) && !is_white(s.last())
}

proof fn lemma_trim_end_white(s: Seq<char>, w: Seq<char>)
    requires
        all_white(w),
    ensures
        trim_end(s + w) == trim_end(s),
    decreases w.len(),
{
    if w.len() == 0 {
        assert(s + w =~= s);
    } else {
        assert((s + w).last() == w[w.len() - 1]);
        assert((s + w).drop_last() =~= s + w.drop_last());
        lemma_trim_end_white(s, w.drop_last());
    }
}

proof fn lemma_trim_start_white(w: Seq<char>, s: Seq<char>)
    requires
        all_white(w),
    ensures
        trim_start(w + s) == trim_start(s),
    decreases w.len(),
{
    if w.len() == 0 {
        assert(w + s =~= s);
    } else {
        assert((w + s)[0] == w[0]);
        assert((w + s).skip(1) =~= w.skip(1) + s);
        lemma_trim_start_white(w.skip(1), s);
    }
}

/// Trimming takes off all white space at both ends and nothing else. Blanks, tabs and
/// line breaks are white space.
pub proof fn law_trimming_takes_off_margins(
    before: Seq<char>,
    s: Seq<char>,
    after: Seq<char>,
)
    requires
        all_white(before),
        all_white(after),
        has_no_margin(s),
    ensures
        trim(before + s + after) == s,
        is_white(' ') && is_white('\t') && is_white('\n') && is_white('\r'),
{
    lemma_trim_end_white(before + s, after);
    if s.len() > 0 {
        assert((before + s).last() == s.last());
        lemma_trim_start_white(before, s);
    } else {
        assert(before + s =~= Seq::<char>::empty() + before);
        lemma_trim_end_white(Seq::empty(), before);
    }
}

/// The bounds within `chars[from..]` of what is left once the white space at
/// either end is taken off.
pub fn trim_bounds(chars: &Vec<char>, from: usize) -> (r: (usize, usize))
    requires
        from <= chars@.len(),
    ensures
        from <= r.0 <= r.1 <= chars@.len(),
        chars@.subrange(r.0 as int, r.1 as int) == trim(chars@.skip(from as int)),
{
    let mut hi: usize = chars.len();
    assert(chars@.subrange(from as int, hi as int) =~= chars@.skip(from as int));
    while hi > from && char_is_white(chars[hi - 1])
        invariant
            from <= hi <= chars@.len(),
            trim_end(chars@.subrange(from as int, hi as int)) == trim_end(chars@.skip(from as int)),
        decreases hi,
    {
        assert(chars@.subrange(from as int, hi as int).drop_last() =~= chars@.subrange(
            from as int,
            hi - 1,
        ));
        hi -= 1;
    }
    let ghost cut = chars@.subrange(from as int, hi as int);
    let mut lo: usize = from;
    while lo < hi && char_is_white(chars[lo])
        invariant
            from <= lo <= hi <= chars@.len(),
            cut == chars@.subrange(from as int, hi as int),
            trim_start(chars@.subrange(lo as int, hi as int)) == trim_start(cut),
        decreases hi - lo,
    {
        assert(chars@.subrange(lo as int, hi as int).skip(1) =~= chars@.subrange(
            lo + 1,
            hi as int,
        ));
        lo += 1;
    }
    (lo, hi)
}

/// The characters of `s` without the white space at either end.
pub fn trimmed(s: &str) -> (r: Vec<char>)
    ensures
        r@ == trim(s@),
{
    let chars: Vec<char> = to_chars(s);
    let (lo, hi) = trim_bounds(&chars, 0);
    assert(chars@.skip(0) =~= chars@);
    copy_range(&chars, lo, hi)
}

/// Whether `s` ends with `suffix`.
pub open spec fn ends_with(s: Seq<char>, suffix: Seq<char>) -> bool {
    suffix.len() <= s.len() && s.skip(s.len() - suffix.len()) == suffix
}

/// A text ends with another exactly if it is something with the other behind it.
pub proof fn law_endings_stand_at_the_end(s: Seq<char>, suffix: Seq<char>, front: Seq<char>)
    ensures
        ends_with(front + suffix, suffix),
        ends_with(s, suffix) <==> exists|f: Seq<char>| s == #[trigger] (f + suffix),
{
    let t = front + suffix;
    assert(t.skip(t.len() - suffix.len()) =~= suffix);
    if ends_with(s, suffix) {
        let f = s.take(s.len() - suffix.len());
        assert(s =~= f + suffix);
    }
    if exists|f: Seq<char>| s == #[trigger] (f + suffix) {
        let f = choose|f: Seq<char>| s == #[trigger] (f + suffix);
        assert(s.skip(s.len() - suffix.len()) =~= suffix);
    }
}

pub fn text_ends_with(s: &str, suffix: &str) -> (r: bool)
    ensures
        r == ends_with(s@, suffix@),
{
    let a: Vec<char> = to_chars(s);
    let b: Vec<char> = to_chars(suffix);
    if b.len() > a.len() {
        return false;
    }
    let off: usize = a.len() - b.len();
    let mut i: usize = 0;
    while i < b.len()
        invariant
            a@ == s@,
            b@ == suffix@,
            i <= b@.len() <= a@.len(),
            off == a@.len() - b@.len(),
            a@.len() == a.len(),
            forall|k: int| 0 <= k < i ==> a@[off + k] == b@[k],
        decreases b@.len() - i,
    {
        if a[off + i] != b[i] {
            assert(s@.skip(off as int)[i as int] != suffix@[i as int]);
            return false;
        }
        i += 1;
    }
    assert(s@.skip(off as int) =~= suffix@);
    true
}

// ---------------------------------------------------------------------------
// Decimal and hexadecimal notation

/// The decimal digit of value `d`, below ten.
pub open spec fn digit_char(d: int) -> char {
    ('0' as int + d) as char
}

/// The decimal notation of a number.
pub open spec fn decimal(n: nat) -> Seq<char>
    decreases n,
{
    if n < 10 {
        seq![digit_char(n as int)]
    } else {
        decimal(n / 10).push(digit_char((n % 10) as int))
    }
}

/// Appends the decimal notation of `n`.
pub fn push_decimal(out: &mut String, n: u64)
    ensures
        final(out)@ == old(out)@ + decimal(n as nat),
    decreases n,
{
    if n >= 10 {
        push_decimal(out, n / 10);
    }
    let d: u8 = (n % 10) as u8;
    out.push((48 + d) as char);
    assert(out@ =~= old(out)@ + decimal(n as nat));
}

/// The decimal notation of `n` as a string.
pub fn decimal_text(n: u64) -> (r: String)
    ensures
        r@ == decimal(n as nat),
{
    let mut s: String = String::new();
    push_decimal(&mut s, n);
    assert(s@ =~= decimal(n as nat));
    s
}

/// The number that a sequence of decimal digits denotes.
pub open spec fn digits_value(s: Seq<char>) -> int
    decreases s.len(),
{
    if s.len() == 0 {
        0
    } else {
        digits_value(s.drop_last()) * 10 + (s.last() as int - '0' as int)
    }
}

/// Digits denote a number that is not negative.
pub proof fn lemma_digits_value_nonneg(s: Seq<char>)
    requires
        all_digits(s),
    ensures
        digits_value(s) >= 0,
    decreases s.len(),
{
    if s.len() > 0 {
        lemma_digits_value_nonneg(s.drop_last());
    }
}

/// A longer run of digits denotes at least as much as its beginning.
pub proof fn lemma_digits_value_mono(s: Seq<char>, k: int)
    requires
        all_digits(s),
        0 <= k <= s.len(),
    ensures
        digits_value(s.take(k)) <= digits_value(s),
    decreases s.len(),
{
    if k == s.len() {
        assert(s.take(k) =~= s);
    } else {
        assert(s.drop_last().take(k) =~= s.take(k));
        lemma_digits_value_mono(s.drop_last(), k);
        lemma_digits_value_nonneg(s.drop_last());
    }
}

/// The decimal notation of a number consists of digits that denote it.
pub proof fn lemma_decimal_value(n: nat)
    ensures
        all_digits(decimal(n)),
        decimal(n).len() >= 1,
        digits_value(decimal(n)) == n,
    decreases n,
{
    if n < 10 {
        let s = decimal(n);
        assert(s.drop_last() =~= Seq::<char>::empty());
        assert(digits_value(s.drop_last()) == 0);
    } else {
        lemma_decimal_value(n / 10);
        let s = decimal(n);
        assert(s.drop_last() =~= decimal(n / 10));
    }
}

/// The value of the digits `chars[from..]`, unless it exceeds `max`.
pub fn digits_up_to(chars: &Vec<char>, from: usize, max: u64) -> (r: Option<u64>)
    requires
        from <= chars@.len(),
        all_digits(chars@.skip(from as int)),
    ensures
        match r {
            Some(v) => v == digits_value(chars@.skip(from as int)) && v <= max,
            None => digits_value(chars@.skip(from as int)) > max,
        },
{
    let ghost ds = chars@.skip(from as int);
    let mut v: u64 = 0;
    let mut i: usize = from;
    assert(ds.take(0) =~= Seq::<char>::empty());
    while i < chars.len()
        invariant
            from <= i <= chars@.len(),
            ds == chars@.skip(from as int),
            all_digits(ds),
            v == digits_value(ds.take(i - from)),
            v <= max,
        decreases chars@.len() - i,
    {
        assert(is_digit(ds[i - from]));
        let d: u64 = (chars[i] as u64) - ('0' as u64);
        proof {
            let t = ds.take(i - from + 1);
            assert(t.drop_last() =~= ds.take(i - from));
            assert(t.last() == chars@[i as int]);
            assert(digits_value(t) == v * 10 + d);
            lemma_digits_value_mono(ds, i - from + 1);
        }
        let w: u128 = (v as u128) * 10 + (d as u128);
        if w > max as u128 {
            return None;
        }
        v = w as u64;
        i += 1;
    }
    assert(ds.take(ds.len() as int) =~= ds);
    Some(v)
}

/// What parsing a text as an unsigned number of at most `max` yields: an
/// optional `+`, then one digit or more.
pub open spec fn unsigned_value(s: Seq<char>, max: int) -> Option<int> {
    let digits = if s.len() > 0 && s[0] == '+' {
        s.skip(1)
    } else {
        s
    };
    if digits.len() > 0 && all_digits(digits) && digits_value(digits) <= max {
        Some(digits_value(digits))
    } else {
        None
    }
}

/// A number in decimal notation reads as itself, with or without zeros or a plus sign
/// in front, as long as it does not exceed `max`.
pub proof fn law_decimal_notation_reads_back(n: nat, max: int)
    ensures
        unsigned_value(decimal(n), max) == if n <= max {
            Some(n as int)
        } else {
            None
        },
        unsigned_value(seq!['+'] + decimal(n), max) == unsigned_value(decimal(n), max),
        unsigned_value(seq!['0'] + decimal(n), max) == unsigned_value(decimal(n), max),
        unsigned_value(seq!['-'] + decimal(n), max) is None,
{
    let s = decimal(n);
    lemma_decimal_value(n);
    assert(is_digit(s[0]));
    assert((seq!['+'] + s).skip(1) =~= s);
    let z = seq!['0'] + s;
    lemma_zero_in_front(s);
    assert forall|i: int| 0 <= i < z.len() implies is_digit(#[trigger] z[i]) by {
        if i > 0 {
            assert(z[i] == s[i - 1]);
        }
    }
    let m = seq!['-'] + s;
    assert(!is_digit(m[0]));
}

proof fn lemma_zero_in_front(s: Seq<char>)
    ensures
        digits_value(seq!['0'] + s) == digits_value(s),
    decreases s.len(),
{
    let t = seq!['0'] + s;
    if s.len() == 0 {
        assert(t.drop_last() =~= s);
    } else {
        assert(t.drop_last() =~= seq!['0'] + s.drop_last());
        lemma_zero_in_front(s.drop_last());
    }
}

/// Only digits make a number: one with any other character in it, but for a plus sign
/// in front, is none, and neither is an empty text.
pub proof fn law_only_digits_make_numbers(s: Seq<char>, max: int, i: int)
    requires
        0 <= i < s.len(),
        !is_digit(s[i]),
        i > 0 || s[0] != '+',
    ensures
        unsigned_value(s, max) is None,
        unsigned_value(Seq::empty(), max) is None,
        unsigned_value(seq!['+'], max) is None,
{
    if s[0] == '+' {
        assert(s.skip(1)[i - 1] == s[i]);
    }
    assert(seq!['+'].skip(1) =~= Seq::<char>::empty());
}

/// Parses an unsigned number of at most `max`.
pub fn parse_unsigned(chars: &Vec<char>, max: u64) -> (r: Option<u64>)
    ensures
        match r {
            Some(v) => unsigned_value(chars@, max as int) == Some(v as int) && v <= max,
            None => unsigned_value(chars@, max as int) is None,
        },
{
    let from: usize = if chars.len() > 0 && chars[0] == '+' {
        1
    } else {
        0
    };
    let ghost digits = chars@.skip(from as int);
    proof {
        assert(chars@.skip(0) =~= chars@);
        assert(chars@.subrange(from as int, chars@.len() as int) =~= digits);
    }
    if from == chars.len() || !digits_only(chars, from, chars.len()) {
        return None;
    }
    digits_up_to(chars, from, max)
}

/// What parsing a text as a 64-bit signed number yields: an optional sign,
/// then one digit or more.
pub open spec fn signed_value(s: Seq<char>) -> Option<int> {
    let negative = s.len() > 0 && s[0] == '-';
    let digits = if s.len() > 0 && (s[0] == '+' || s[0] == '-') {
        s.skip(1)
    } else {
        s
    };
    let v = if negative {
        -digits_value(digits)
    } else {
        digits_value(digits)
    };
    if digits.len() > 0 && all_digits(digits) && i64::MIN <= v <= i64::MAX {
        Some(v)
    } else {
        None
    }
}

/// The decimal notation of a number that may be negative.
pub open spec fn signed_decimal(n: int) -> Seq<char> {
    if n < 0 {
        seq!['-'] + decimal((-n) as nat)
    } else {
        decimal(n as nat)
    }
}

/// A number that is written with its sign reads as itself.
pub proof fn law_signed_notation_reads_back(n: int)
    requires
        i64::MIN <= n <= i64::MAX,
    ensures
        signed_value(signed_decimal(n)) == Some(n),
        has_no_margin(signed_decimal(n)),
        signed_decimal(n).len() > 0,
{
    let m = if n < 0 {
        (-n) as nat
    } else {
        n as nat
    };
    let d = decimal(m);
    lemma_decimal_value(m);
    assert(is_digit(d[0]) && is_digit(d[d.len() - 1]));
    if n < 0 {
        assert((seq!['-'] + d).skip(1) =~= d);
        assert((seq!['-'] + d).last() == d[d.len() - 1]);
    }
}

/// The decimal notation of a number has no white space around it.
pub proof fn lemma_decimal_has_no_margin(n: nat)
    ensures
        has_no_margin(decimal(n)),
        trim(decimal(n)) == decimal(n),
{
    let d = decimal(n);
    lemma_decimal_value(n);
    assert(is_digit(d[0]) && is_digit(d[d.len() - 1]));
    let none = Seq::<char>::empty();
    law_trimming_takes_off_margins(none, d, none);
    assert(none + d + none =~= d);
}

/// Parses a 64-bit signed number.
pub fn parse_signed(chars: &Vec<char>) -> (r: Option<i64>)
    ensures
        match r {
            Some(v) => signed_value(chars@) == Some(v as int),
            None => signed_value(chars@) is None,
        },
{
    let negative: bool = chars.len() > 0 && chars[0] == '-';
    let from: usize = if chars.len() > 0 && (chars[0] == '+' || chars[0] == '-') {
        1
    } else {
        0
    };
    let ghost digits = chars@.skip(from as int);
    proof {
        assert(chars@.skip(0) =~= chars@);
        assert(chars@.subrange(from as int, chars@.len() as int) =~= digits);
    }
    if from == chars.len() || !digits_only(chars, from, chars.len()) {
        return None;
    }
    let max: u64 = if negative {
        0x8000_0000_0000_0000
    } else {
        0x7fff_ffff_ffff_ffff
    };
    match digits_up_to(chars, from, max) {
        None => None,
        Some(v) => {
            if !negative {
                Some(v as i64)
            } else if v == 0x8000_0000_0000_0000 {
                Some(i64::MIN)
            } else {
                Some(-(v as i64))
            }
        },
    }
}

/// The value of a hexadecimal digit.
pub open spec fn hex_digit_value(c: char) -> int {
    if is_digit(c) {
        c as int - '0' as int
    } else if 'a' <= c && c <= 'f' {
        c as int - 'a' as int + 10
    } else {
        c as int - 'A' as int + 10
    }
}

/// The number that a sequence of hexadecimal digits denotes.
pub open spec fn hex_value(s: Seq<char>) -> int
    decreases s.len(),
{
    if s.len() == 0 {
        0
    } else {
        hex_value(s.drop_last()) * 16 + hex_digit_value(s.last())
    }
}

/// Every character of `s` is a hexadecimal digit.
pub open spec fn all_hex(s: Seq<char>) -> bool {
    forall|i: int| 0 <= i < s.len() ==> is_hex_digit(#[trigger] s[i])
}

/// The value of one hexadecimal digit, if `c` is one.
pub fn hex_digit(c: char) -> (r: Option<u32>)
    ensures
        match r {
            Some(v) => is_hex_digit(c) && v == hex_digit_value(c) && v < 16,
            None => !is_hex_digit(c),
        },
{
    if '0' <= c && c <= '9' {
        Some((c as u32) - ('0' as u32))
    } else if 'a' <= c && c <= 'f' {
        Some((c as u32) - ('a' as u32) + 10)
    } else if 'A' <= c && c <= 'F' {
        Some((c as u32) - ('A' as u32) + 10)
    } else {
        None
    }
}

/// The value of a run of at most eight hexadecimal digits.
pub fn parse_hex(chars: &Vec<char>) -> (r: Option<u32>)
    requires
        chars@.len() <= 8,
    ensures
        match r {
            Some(v) => all_hex(chars@) && v == hex_value(chars@),
            None => !all_hex(chars@),
        },
{
    let mut v: u64 = 0;
    let mut i: usize = 0;
    let mut bound: Ghost<int> = Ghost(1);
    assert(chars@.take(0) =~= Seq::<char>::empty());
    while i < chars.len()
        invariant
            i <= chars@.len() <= 8,
            forall|k: int| 0 <= k < i ==> is_hex_digit(#[trigger] chars@[k]),
            v == hex_value(chars@.take(i as int)),
            v < bound@,
            bound@ == pow16(i as int),
        decreases chars@.len() - i,
    {
        proof {
            lemma_pow16();
            assert(chars@.take(i + 1).drop_last() =~= chars@.take(i as int));
            assert(pow16(i + 1) == 16 * pow16(i as int));
        }
        match hex_digit(chars[i]) {
            None => {
                return None;
            },
            Some(d) => {
                v = v * 16 + d as u64;
            },
        }
        bound = Ghost(bound@ * 16);
        i += 1;
    }
    proof {
        lemma_pow16();
        assert(chars@.take(chars@.len() as int) =~= chars@);
    }
    Some(v as u32)
}

spec fn pow16(k: int) -> int
    decreases k,
{
    if k <= 0 {
        1
    } else {
        16 * pow16(k - 1)
    }
}

proof fn lemma_pow16()
    ensures
        forall|k: int| 0 <= k <= 8 ==> 1 <= #[trigger] pow16(k) <= 0x1_0000_0000,
{
    reveal_with_fuel(pow16, 9);
    assert forall|k: int| 0 <= k <= 8 implies 1 <= #[trigger] pow16(k) <= 0x1_0000_0000 by {
        if k == 0 {} else if k == 1 {} else if k == 2 {} else if k == 3 {} else if k == 4 {
        } else if k == 5 {} else if k == 6 {} else if k == 7 {} else {}
    }
}

/// `{before}{value in quotes} in {path}`.
pub open spec fn complaint(before: Seq<char>, value: Seq<char>, path: Seq<char>) -> Seq<char> {
    before + debug_text(value) + " in "@ + path
}

/// Says which value of a part is wrong.
pub fn complain(before: &str, value: &str, path: &str) -> (m: String)
    ensures
        m@ == complaint(before@, value@, path@),
{
    let mut m: String = join3(before, quoted(value).as_str(), " in ");
    push_text(&mut m, path);
    m
}

/// `invalid {name} `.
pub open spec fn invalid_name(name: Seq<char>) -> Seq<char> {
    "invalid "@ + name + " "@
}

/// Says that the value of what is called `name` is invalid.
pub fn complain_of(name: &str, value: &str, path: &str) -> (m: String)
    ensures
        m@ == complaint(invalid_name(name@), value@, path@),
{
    complain(join3("invalid ", name, " ").as_str(), value, path)
}

} // verus!
