//! Numbers as they are written in a part: the text of a floating-point literal.
use crate::binary64;
use crate::binary64::Magnitude;
use crate::text;
use crate::text::{decimal_text, digits_only, find_char, from_chars, to_chars, to_lower};
use vstd::prelude::*;

verus! {

/// A number, held as the literal that denotes it. The literal follows the
/// grammar of floating-point numbers, so converting it cannot fail. Two numbers are
/// equal if they are the same floating-point number, however they are written; one
/// that is not a number is equal to none.
#[derive(Debug)]
pub struct Number {
    literal: String,
}

impl View for Number {
    type V = Seq<char>;

    closed spec fn view(&self) -> Seq<char> {
        self.literal@
    }
}

impl Number {
    #[verifier::type_invariant]
    spec fn literal_is_valid(self) -> bool {
        is_float_literal(self.literal@)
    }
}

/// `s` without a leading sign.
pub open spec fn unsigned_part(s: Seq<char>) -> Seq<char> {
    if s.len() > 0 && (s[0] == '+' || s[0] == '-') {
        s.skip(1)
    } else {
        s
    }
}

/// Digits with an optional point: at least one digit in all.
pub open spec fn is_mantissa(s: Seq<char>) -> bool {
    match s.index_of_first('.') {
        None => s.len() > 0 && text::all_digits(s),
        Some(i) => s.len() > 1 && text::all_digits(s.take(i)) && text::all_digits(s.skip(i + 1)),
    }
}

/// An optional sign and at least one digit.
pub open spec fn is_exponent(s: Seq<char>) -> bool {
    unsigned_part(s).len() > 0 && text::all_digits(unsigned_part(s))
}

/// `s` in ASCII lowercase.
pub open spec fn lowered(s: Seq<char>) -> Seq<char> {
    s.map_values(|c: char| text::lower(c))
}

/// A mantissa, and an exponent after an `e` of either case if there is one.
pub open spec fn is_decimal(s: Seq<char>) -> bool {
    match lowered(s).index_of_first('e') {
        None => is_mantissa(s),
        Some(i) => is_mantissa(s.take(i)) && is_exponent(s.skip(i + 1)),
    }
}

/// Whether a text is a floating-point literal: an optional sign, then `inf`,
/// `infinity` or `nan` in any case, or a decimal number.
pub open spec fn is_float_literal(s: Seq<char>) -> bool {
    let body = unsigned_part(s);
    lowered(body) == "inf"@ || lowered(body) == "infinity"@ || lowered(body) == "nan"@
        || is_decimal(body)
}

/// The number that a text denotes, if it is a floating-point literal.
pub open spec fn number_of(s: Seq<char>) -> Option<Seq<char>> {
    if is_float_literal(s) {
        Some(s)
    } else {
        None
    }
}

/// The view of an optional number.
pub open spec fn number_opt(n: Option<Number>) -> Option<Seq<char>> {
    match n {
        Some(v) => Some(v@),
        None => None,
    }
}

fn skip_sign(chars: &Vec<char>) -> (r: Vec<char>)
    ensures
        r@ == unsigned_part(chars@),
{
    let from: usize = if chars.len() > 0 && (chars[0] == '+' || chars[0] == '-') {
        1
    } else {
        0
    };
    let r: Vec<char> = crate::text::copy_range(chars, from, chars.len());
    assert(r@ =~= unsigned_part(chars@));
    r
}

fn mantissa(chars: &Vec<char>) -> (r: bool)
    ensures
        r == is_mantissa(chars@),
{
    match find_char(chars, '.') {
        None => {
            assert(chars@.subrange(0, chars@.len() as int) =~= chars@);
            chars.len() > 0 && digits_only(chars, 0, chars.len())
        },
        Some(i) => {
            assert(chars@.subrange(0, i as int) =~= chars@.take(i as int));
            assert(chars@.subrange(i + 1, chars@.len() as int) =~= chars@.skip(i + 1));
            chars.len() > 1 && digits_only(chars, 0, i) && digits_only(chars, i + 1, chars.len())
        },
    }
}

fn exponent(chars: &Vec<char>) -> (r: bool)
    ensures
        r == is_exponent(chars@),
{
    let digits: Vec<char> = skip_sign(chars);
    assert(digits@.subrange(0, digits@.len() as int) =~= digits@);
    digits.len() > 0 && digits_only(&digits, 0, digits.len())
}

fn lower_chars(chars: &Vec<char>) -> (r: Vec<char>)
    ensures
        r@ == lowered(chars@),
{
    let mut v: Vec<char> = Vec::new();
    let mut i: usize = 0;
    while i < chars.len()
        invariant
            i <= chars@.len(),
            v@ == lowered(chars@.take(i as int)),
        decreases chars@.len() - i,
    {
        v.push(to_lower(chars[i]));
        i += 1;
        assert(v@ =~= lowered(chars@.take(i as int)));
    }
    assert(chars@.take(chars@.len() as int) =~= chars@);
    v
}

/// Whether `chars` is a floating-point literal.
pub fn float_literal(chars: &Vec<char>) -> (r: bool)
    ensures
        r == is_float_literal(chars@),
{
    let body: Vec<char> = skip_sign(chars);
    let low: Vec<char> = lower_chars(&body);
    let word: String = from_chars(&low, 0, low.len());
    assert(low@.subrange(0, low@.len() as int) =~= low@);
    if crate::text::same(word.as_str(), "inf") || crate::text::same(word.as_str(), "infinity")
        || crate::text::same(word.as_str(), "nan") {
        return true;
    }
    match find_char(&low, 'e') {
        None => mantissa(&body),
        Some(i) => {
            let head: Vec<char> = crate::text::copy_range(&body, 0, i);
            let tail: Vec<char> = crate::text::copy_range(&body, i + 1, body.len());
            assert(head@ =~= body@.take(i as int));
            assert(tail@ =~= body@.skip(i + 1));
            mantissa(&head) && exponent(&tail)
        },
    }
}

impl Number {
    /// The number that `chars` denotes, if it is a floating-point literal.
    pub fn from_chars(chars: &Vec<char>) -> (r: Option<Number>)
        ensures
            number_opt(r) == number_of(chars@),
    {
        if float_literal(chars) {
            let literal: String = from_chars(chars, 0, chars.len());
            assert(literal@ =~= chars@);
            Some(Number { literal })
        } else {
            None
        }
    }

    /// The number that a text denotes, if it is a floating-point literal.
    pub fn parse(text: &str) -> (r: Option<Number>)
        ensures
            number_opt(r) == number_of(text@),
    {
        let chars: Vec<char> = to_chars(text);
        Number::from_chars(&chars)
    }

    /// The number `n`, written in decimal.
    pub fn from_integer(n: u64) -> (r: Number)
        ensures
            r@ == text::decimal(n as nat),
    {
        let literal: String = decimal_text(n);
        proof {
            lemma_decimal_is_literal(n as nat);
        }
        Number { literal }
    }

    /// The literal, which follows the grammar of floating-point numbers.
    pub fn as_str(&self) -> (r: &str)
        ensures
            r@ == self@,
            is_float_literal(r@),
    {
        proof {
            use_type_invariant(self);
        }
        self.literal.as_str()
    }
}

/// The decimal notation of a whole number is a floating-point literal.
pub proof fn lemma_decimal_is_literal(n: nat)
    ensures
        is_float_literal(text::decimal(n)),
{
    let s = text::decimal(n);
    text::lemma_decimal_value(n);
    assert(text::is_digit(s[0]));
    assert(unsigned_part(s) == s);
    lowered(s).index_of_first_ensures('e');
    s.index_of_first_ensures('.');
    if let Some(i) = lowered(s).index_of_first('e') {
        assert(text::is_digit(s[i]));
        assert(lowered(s)[i] == text::lower(s[i]));
    }
    if let Some(i) = s.index_of_first('.') {
        assert(text::is_digit(s[i]));
    }
}

/// Whether a text is a sign or nothing.
pub open spec fn is_sign(s: Seq<char>) -> bool {
    s.len() == 0 || s == seq!['+'] || s == seq!['-']
}

proof fn lemma_digits_lowered(s: Seq<char>)
    requires
        forall|i: int| 0 <= i < s.len() ==> text::is_digit(#[trigger] s[i]) || s[i] == '.',
    ensures
        lowered(s) == s,
        lowered(s).index_of_first('e') is None,
{
    assert(lowered(s) =~= s);
    lowered(s).index_of_first_ensures('e');
    if lowered(s).contains('e') {
        let i = lowered(s).index_of('e');
        assert(s[i] == 'e');
    }
}

proof fn lemma_mantissa(whole: Seq<char>, fraction: Option<Seq<char>>)
    requires
        text::all_digits(whole),
        match fraction {
            Some(f) => text::all_digits(f) && whole.len() + f.len() > 0,
            None => whole.len() > 0,
        },
    ensures
        is_mantissa(mantissa_text(whole, fraction)),
        forall|i: int|
            0 <= i < mantissa_text(whole, fraction).len() ==> text::is_digit(
                #[trigger] mantissa_text(whole, fraction)[i],
            ) || mantissa_text(whole, fraction)[i] == '.',
        mantissa_text(whole, fraction).len() > 0,
{
    let m = mantissa_text(whole, fraction);
    m.index_of_first_ensures('.');
    match fraction {
        None => {
            if m.contains('.') {
                let i = m.index_of('.');
                assert(text::is_digit(whole[i]));
            }
        },
        Some(f) => {
            let n = whole.len() as int;
            assert(m[n] == '.');
            let i = m.index_of_first('.')->0;
            if i < n {
                assert(m[i] == whole[i]);
                assert(text::is_digit(whole[i]));
            }
            assert(i == n);
            assert(m.take(n) =~= whole);
            assert(m.skip(n + 1) =~= f);
            assert forall|k: int| 0 <= k < m.len() implies text::is_digit(#[trigger] m[k]) || m[k]
                == '.' by {
                if k < n {
                    assert(m[k] == whole[k]);
                } else if k > n {
                    assert(m[k] == f[k - n - 1]);
                }
            }
        },
    }
}

/// Digits, with a point and more digits behind them if there is a fraction.
pub open spec fn mantissa_text(whole: Seq<char>, fraction: Option<Seq<char>>) -> Seq<char> {
    match fraction {
        Some(f) => whole + seq!['.'] + f,
        None => whole,
    }
}

/// What a number is written like is a number, and reads as exactly that text: digits
/// with or without a fraction, a sign in front of them, and an exponent behind them.
pub proof fn law_written_numbers_are_read_as_they_are(
    sign: Seq<char>,
    whole: Seq<char>,
    fraction: Option<Seq<char>>,
    mark: char,
    exponent_sign: Seq<char>,
    exponent: Seq<char>,
)
    requires
        is_sign(sign),
        text::all_digits(whole),
        match fraction {
            Some(f) => text::all_digits(f) && whole.len() + f.len() > 0,
            None => whole.len() > 0,
        },
        mark == 'e' || mark == 'E',
        is_sign(exponent_sign),
        text::all_digits(exponent),
        exponent.len() > 0,
    ensures
        ({
            let plain = sign + mantissa_text(whole, fraction);
            let scaled = plain + seq![mark] + exponent_sign + exponent;
            &&& number_of(plain) == Some(plain)
            &&& number_of(scaled) == Some(scaled)
        }),
{
    let m = mantissa_text(whole, fraction);
    let plain = sign + m;
    lemma_mantissa(whole, fraction);
    lemma_digits_lowered(m);
    assert(text::is_digit(m[0]) || m[0] == '.');
    assert(unsigned_part(plain) =~= m) by {
        if sign.len() > 0 {
            assert(plain.skip(1) =~= m);
        } else {
            assert(plain =~= m);
        }
    }
    let tail = exponent_sign + exponent;
    let scaled = plain + seq![mark] + exponent_sign + exponent;
    let body = m + seq![mark] + tail;
    assert(unsigned_part(scaled) =~= body) by {
        assert(scaled =~= sign + body);
        assert(body[0] == m[0]);
        if sign.len() > 0 {
            assert(scaled.skip(1) =~= body);
        } else {
            assert(scaled =~= body);
        }
    }
    let low = lowered(body);
    let n = m.len() as int;
    low.index_of_first_ensures('e');
    assert(low[n] == text::lower(mark));
    assert(low[n] == 'e');
    let i = low.index_of_first('e')->0;
    if i < n {
        assert(low[i] == text::lower(m[i]));
        assert(text::is_digit(m[i]) || m[i] == '.');
    }
    assert(body.take(n) =~= m);
    assert(body.skip(n + 1) =~= tail);
    assert(text::is_digit(exponent[0]));
    assert(unsigned_part(tail) =~= exponent) by {
        if exponent_sign.len() > 0 {
            assert(tail.skip(1) =~= exponent);
        } else {
            assert(tail =~= exponent);
        }
    }
}

/// A text that is no number is not taken for one: an empty one, a sign alone, and one
/// that begins with something else than a sign, a digit, a point or one of the letters
/// of `inf` and `nan`.
pub proof fn law_other_texts_are_no_numbers(s: Seq<char>)
    requires
        s.len() == 0 || s == seq!['-'] || s == seq!['+'] || !(text::is_digit(s[0]) || seq![
            '+',
            '-',
            '.',
            'i',
            'I',
            'n',
            'N',
        ].contains(s[0])),
    ensures
        number_of(s) is None,
{
    let body = unsigned_part(s);
    let firsts = seq!['+', '-', '.', 'i', 'I', 'n', 'N'];
    assert(firsts[0] == '+' && firsts[1] == '-' && firsts[2] == '.' && firsts[3] == 'i' && firsts[4]
        == 'I' && firsts[5] == 'n' && firsts[6] == 'N');
    reveal_strlit("inf");
    reveal_strlit("infinity");
    reveal_strlit("nan");
    assert("inf"@.len() == 3 && "infinity"@.len() == 8 && "nan"@.len() == 3);
    let low = lowered(body);
    low.index_of_first_ensures('e');
    if s.len() == 0 || s == seq!['-'] || s == seq!['+'] {
        assert(body =~= Seq::<char>::empty());
        body.index_of_first_ensures('.');
    } else {
        assert(body == s);
        assert(low[0] == text::lower(s[0]));
        assert("inf"@[0] == 'i' && "infinity"@[0] == 'i' && "nan"@[0] == 'n');
        if is_decimal(s) {
            match low.index_of_first('e') {
                None => lemma_mantissa_begins(s),
                Some(i) => {
                    lemma_mantissa_begins(s.take(i));
                    assert(s.take(i)[0] == s[0]);
                },
            }
        }
    }
}

proof fn lemma_mantissa_begins(s: Seq<char>)
    requires
        is_mantissa(s),
    ensures
        s.len() > 0,
        text::is_digit(s[0]) || s[0] == '.',
{
    s.index_of_first_ensures('.');
    if let Some(i) = s.index_of_first('.') {
        if i > 0 {
            assert(s.take(i)[0] == s[0]);
        }
    }
}

impl Clone for Number {
    fn clone(&self) -> (r: Number)
        ensures
            r@ == self@,
    {
        proof {
            use_type_invariant(self);
        }
        Number { literal: self.literal.clone() }
    }
}

/// A copy of an optional number.
pub fn copy_number(n: &Option<Number>) -> (r: Option<Number>)
    ensures
        number_opt(r) == number_opt(*n),
{
    match n {
        Some(v) => Some(v.clone()),
        None => None,
    }
}

// ---------------------------------------------------------------------------
// The floating-point number that a literal denotes

/// A floating-point number.
#[derive(Debug, Clone, Copy, PartialEq, Eq, Structural)]
pub enum NumberValue {
    NotANumber,
    Signed { negative: bool, size: Magnitude },
}

/// The digits of a mantissa, without its point.
pub open spec fn mantissa_digits(s: Seq<char>) -> Seq<char> {
    match s.index_of_first('.') {
        None => s,
        Some(i) => s.take(i) + s.skip(i + 1),
    }
}

/// How many digits of a mantissa stand behind its point.
pub open spec fn mantissa_places(s: Seq<char>) -> int {
    match s.index_of_first('.') {
        None => 0,
        Some(i) => s.len() - i - 1,
    }
}

/// The number that an exponent denotes.
pub open spec fn exponent_value(s: Seq<char>) -> int {
    if s.len() > 0 && s[0] == '-' {
        -text::digits_value(unsigned_part(s))
    } else {
        text::digits_value(unsigned_part(s))
    }
}

/// The floating-point number nearest to what a mantissa and an exponent denote.
pub open spec fn scaled_size(mantissa: Seq<char>, exponent: int) -> Magnitude {
    binary64::decimal_magnitude(
        text::digits_value(mantissa_digits(mantissa)) as nat,
        exponent - mantissa_places(mantissa),
    )
}

/// The size of the floating-point number that a decimal number denotes.
pub open spec fn decimal_size(s: Seq<char>) -> Magnitude {
    match lowered(s).index_of_first('e') {
        None => scaled_size(s, 0),
        Some(i) => scaled_size(s.take(i), exponent_value(s.skip(i + 1))),
    }
}

/// The floating-point number that a literal denotes.
pub open spec fn value_of(s: Seq<char>) -> NumberValue {
    let body = unsigned_part(s);
    if lowered(body) == "nan"@ {
        NumberValue::NotANumber
    } else {
        NumberValue::Signed {
            negative: s.len() > 0 && s[0] == '-',
            size: if lowered(body) == "inf"@ || lowered(body) == "infinity"@ {
                Magnitude::Infinite
            } else {
                decimal_size(body)
            },
        }
    }
}

proof fn lemma_mantissa_value(whole: Seq<char>, fraction: Option<Seq<char>>)
    requires
        text::all_digits(whole),
        match fraction {
            Some(f) => text::all_digits(f) && whole.len() + f.len() > 0,
            None => whole.len() > 0,
        },
    ensures
        ({
            let m = mantissa_text(whole, fraction);
            match fraction {
                Some(f) => mantissa_digits(m) == whole + f && mantissa_places(m) == f.len(),
                None => mantissa_digits(m) == whole && mantissa_places(m) == 0,
            }
        }),
{
    let m = mantissa_text(whole, fraction);
    m.index_of_first_ensures('.');
    match fraction {
        None => {
            if m.contains('.') {
                let i = m.index_of('.');
                assert(text::is_digit(whole[i]));
            }
        },
        Some(f) => {
            let n = whole.len() as int;
            assert(m[n] == '.');
            let i = m.index_of_first('.')->0;
            if i < n {
                assert(m[i] == whole[i]);
                assert(text::is_digit(whole[i]));
            }
            assert(m.take(n) =~= whole);
            assert(m.skip(n + 1) =~= f);
        },
    }
}

/// The value of a text that begins like a number, behind a sign.
proof fn lemma_signed_value(sign: Seq<char>, body: Seq<char>)
    requires
        is_sign(sign),
        body.len() > 0,
        text::is_digit(body[0]) || body[0] == '.',
    ensures
        value_of(sign + body) == (NumberValue::Signed {
            negative: sign == seq!['-'],
            size: decimal_size(body),
        }),
{
    let s = sign + body;
    reveal_strlit("inf");
    reveal_strlit("infinity");
    reveal_strlit("nan");
    assert("inf"@[0] == 'i' && "infinity"@[0] == 'i' && "nan"@[0] == 'n');
    assert(unsigned_part(s) =~= body) by {
        if sign.len() > 0 {
            assert(s.skip(1) =~= body);
        } else {
            assert(s =~= body);
        }
    }
    assert(lowered(body)[0] == text::lower(body[0]));
    if sign.len() > 0 {
        assert(s[0] == sign[0]);
        assert(sign == seq!['-'] <==> sign[0] == '-');
    } else {
        assert(s[0] == body[0]);
    }
}

proof fn lemma_scaled_size(m: Seq<char>, mark: char, exponent_sign: Seq<char>, exponent: Seq<char>)
    requires
        forall|i: int| 0 <= i < m.len() ==> text::is_digit(#[trigger] m[i]) || m[i] == '.',
        mark == 'e' || mark == 'E',
        is_sign(exponent_sign),
        text::all_digits(exponent),
        exponent.len() > 0,
    ensures
        decimal_size(m + seq![mark] + (exponent_sign + exponent)) == scaled_size(
            m,
            if exponent_sign == seq!['-'] {
                -text::digits_value(exponent)
            } else {
                text::digits_value(exponent)
            },
        ),
{
    let tail = exponent_sign + exponent;
    let body = m + seq![mark] + tail;
    let low = lowered(body);
    let n = m.len() as int;
    low.index_of_first_ensures('e');
    assert(low[n] == text::lower(mark));
    assert(low[n] == 'e');
    let i = low.index_of_first('e')->0;
    if i < n {
        assert(low[i] == text::lower(m[i]));
        assert(text::is_digit(m[i]) || m[i] == '.');
    }
    assert(body.take(n) =~= m);
    assert(body.skip(n + 1) =~= tail);
    assert(text::is_digit(exponent[0]));
    if exponent_sign.len() > 0 {
        assert(tail.skip(1) =~= exponent);
        assert(tail[0] == exponent_sign[0]);
        assert(exponent_sign == seq!['-'] <==> exponent_sign[0] == '-');
    } else {
        assert(tail =~= exponent);
    }
}

/// What a number is written like stands for its digits, read as one whole number and
/// moved by the places behind the point and by the exponent; a minus sign in front makes
/// it negative.
#[verifier::spinoff_prover]
#[verifier::rlimit(60)]
pub proof fn law_written_numbers_have_their_value(
    sign: Seq<char>,
    whole: Seq<char>,
    fraction: Option<Seq<char>>,
    mark: char,
    exponent_sign: Seq<char>,
    exponent: Seq<char>,
)
    requires
        is_sign(sign),
        text::all_digits(whole),
        match fraction {
            Some(f) => text::all_digits(f) && whole.len() + f.len() > 0,
            None => whole.len() > 0,
        },
        mark == 'e' || mark == 'E',
        is_sign(exponent_sign),
        text::all_digits(exponent),
        exponent.len() > 0,
    ensures
        ({
            let plain = sign + mantissa_text(whole, fraction);
            let scaled = plain + seq![mark] + exponent_sign + exponent;
            let (digits, places) = match fraction {
                Some(f) => (whole + f, f.len() as int),
                None => (whole, 0int),
            };
            let power = if exponent_sign == seq!['-'] {
                -text::digits_value(exponent)
            } else {
                text::digits_value(exponent)
            };
            let n = text::digits_value(digits) as nat;
            &&& value_of(plain) == (NumberValue::Signed {
                negative: sign == seq!['-'],
                size: binary64::decimal_magnitude(n, -places),
            })
            &&& value_of(scaled) == (NumberValue::Signed {
                negative: sign == seq!['-'],
                size: binary64::decimal_magnitude(n, power - places),
            })
        }),
{
    let m = mantissa_text(whole, fraction);
    let tail = exponent_sign + exponent;
    let body = m + seq![mark] + tail;
    lemma_mantissa(whole, fraction);
    assert(decimal_size(m) == scaled_size(m, 0)) by {
        lemma_digits_lowered(m);
    }
    assert(text::is_digit(m[0]) || m[0] == '.');
    assert(value_of(sign + m) == (NumberValue::Signed {
        negative: sign == seq!['-'],
        size: scaled_size(m, 0),
    })) by {
        lemma_signed_value(sign, m);
    }
    lemma_scaled_size(m, mark, exponent_sign, exponent);
    assert(sign + m + seq![mark] + exponent_sign + exponent =~= sign + body);
    assert(body[0] == m[0]);
    lemma_signed_value(sign, body);
    lemma_mantissa_value(whole, fraction);
}

/// Whether two floating-point numbers are equal. Zero has no sign that counts.
pub open spec fn same_value(a: NumberValue, b: NumberValue) -> bool {
    match (a, b) {
        (
            NumberValue::Signed { negative: s, size: m },
            NumberValue::Signed { negative: t, size: n },
        ) => m == n && (s == t || m == (Magnitude::Finite { m: 0, k: 0 })),
        _ => false,
    }
}

fn exponent_number(chars: &Vec<char>) -> (r: i128)
    requires
        is_exponent(chars@),
    ensures
        r == binary64::followed(exponent_value(chars@)),
{
    let digits: Vec<char> = skip_sign(chars);
    let ghost all = digits@;
    let mut v: i128 = 0;
    let mut i: usize = 0;
    assert(all.take(0) =~= Seq::<char>::empty());
    while i < digits.len()
        invariant
            i <= all.len(),
            all == digits@,
            text::all_digits(all),
            v == binary64::followed(text::digits_value(all.take(i as int))),
            0 <= v <= binary64::SCALE_END,
            text::digits_value(all.take(i as int)) >= 0,
        decreases all.len() - i,
    {
        assert(text::is_digit(all[i as int]));
        assert(all.take(i + 1).drop_last() =~= all.take(i as int));
        let d: i128 = (digits[i] as u64 - '0' as u64) as i128;
        let w: i128 = v * 10 + d;
        v = if w > binary64::SCALE_END {
            binary64::SCALE_END
        } else {
            w
        };
        i += 1;
    }
    assert(all.take(all.len() as int) =~= all);
    if chars.len() > 0 && chars[0] == '-' {
        -v
    } else {
        v
    }
}

fn size_of(mantissa: &Vec<char>, exponent: i128, stands_for: Ghost<int>) -> (r: Magnitude)
    requires
        is_mantissa(mantissa@),
        exponent == binary64::followed(stands_for@),
    ensures
        r == scaled_size(mantissa@, stands_for@),
{
    let mut digits: Vec<char> = Vec::new();
    let mut places: usize = 0;
    match find_char(mantissa, '.') {
        None => {
            digits = crate::text::copy_range(mantissa, 0, mantissa.len());
            assert(digits@ =~= mantissa@);
        },
        Some(i) => {
            assert(i < mantissa.len());
            digits = crate::text::copy_range(mantissa, 0, i);
            let mut behind: Vec<char> = crate::text::copy_range(mantissa, i + 1, mantissa.len());
            places = behind.len();
            assert(behind@ =~= mantissa@.skip(i + 1));
            assert(digits@ =~= mantissa@.take(i as int));
            digits.append(&mut behind);
            assert(digits@ =~= mantissa_digits(mantissa@));
        },
    }
    binary64::round_decimal(&digits, places, exponent, stands_for)
}

impl Number {
    /// The floating-point number that the literal denotes.
    pub fn value(&self) -> (r: NumberValue)
        ensures
            r == value_of(self@),
    {
        proof {
            use_type_invariant(self);
        }
        let chars: Vec<char> = to_chars(self.literal.as_str());
        let negative: bool = chars.len() > 0 && chars[0] == '-';
        let body: Vec<char> = skip_sign(&chars);
        let low: Vec<char> = lower_chars(&body);
        let word: String = from_chars(&low, 0, low.len());
        assert(low@.subrange(0, low@.len() as int) =~= low@);
        if crate::text::same(word.as_str(), "nan") {
            return NumberValue::NotANumber;
        }
        if crate::text::same(word.as_str(), "inf") || crate::text::same(word.as_str(), "infinity") {
            return NumberValue::Signed { negative, size: Magnitude::Infinite };
        }
        let size: Magnitude = match find_char(&low, 'e') {
            None => size_of(&body, 0, Ghost(0)),
            Some(i) => {
                let head: Vec<char> = crate::text::copy_range(&body, 0, i);
                let tail: Vec<char> = crate::text::copy_range(&body, i + 1, body.len());
                assert(head@ =~= body@.take(i as int));
                assert(tail@ =~= body@.skip(i + 1));
                let exponent: i128 = exponent_number(&tail);
                size_of(&head, exponent, Ghost(exponent_value(tail@)))
            },
        };
        NumberValue::Signed { negative, size }
    }
}

/// Numbers are equal exactly if none is missing a value, they have the same size, and
/// the same sign unless that size is zero. So equality does not depend on which comes
/// first, a zero equals its negative, and every other number differs from its negative.
pub proof fn law_equal_numbers_have_equal_values(a: NumberValue, b: NumberValue)
    ensures
        same_value(a, b) == same_value(b, a),
        same_value(a, a) <==> a != NumberValue::NotANumber,
        same_value(a, b) && a != b ==> {
            &&& a matches NumberValue::Signed { negative: s, size: m }
            &&& b matches NumberValue::Signed { negative: t, size: n }
            &&& s != t && m == n && m == (Magnitude::Finite { m: 0, k: 0 })
        },
        a == (NumberValue::Signed { negative: true, size: Magnitude::Finite { m: 0, k: 0 } }) && b
            == (NumberValue::Signed {
            negative: false,
            size: Magnitude::Finite { m: 0, k: 0 },
        }) ==> same_value(a, b),
{
}

/// Whether two numbers are the same floating-point number.
pub fn same_number(a: &Number, b: &Number) -> (r: bool)
    ensures
        r == same_value(value_of(a@), value_of(b@)),
{
    match (a.value(), b.value()) {
        (
            NumberValue::Signed { negative: s, size: m },
            NumberValue::Signed { negative: t, size: n },
        ) => m == n && (s == t || m == (Magnitude::Finite { m: 0, k: 0 })),
        _ => false,
    }
}

impl PartialEq for Number {
    fn eq(&self, other: &Number) -> (r: bool) {
        same_number(self, other)
    }
}

impl vstd::std_specs::cmp::PartialEqSpecImpl for Number {
    open spec fn obeys_eq_spec() -> bool {
        true
    }

    open spec fn eq_spec(&self, other: &Number) -> bool {
        same_value(value_of(self@), value_of(other@))
    }
}

} // verus!
