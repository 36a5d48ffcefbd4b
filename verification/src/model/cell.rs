//! A single cell: its coordinates, its value, and the cell itself.
use crate::error;
use crate::error::{Error, ErrorView};
use crate::model::style::{ResolvedStyle, StyleView};
use crate::number::Number;
use crate::text;
use crate::text::{digits_only, digits_up_to, push_decimal, to_chars};
use std::sync::Arc;
use vstd::prelude::*;

verus! {

/// A date and time of day, in calendar fields.
#[derive(Debug, Clone, Copy, PartialEq, Eq, Structural)]
pub struct DateTimeValue {
    pub year: i32,
    pub month: u8,
    pub day: u8,
    pub hour: u8,
    pub minute: u8,
    pub second: u8,
}

/// Cell coordinates, counted from one: `A1` is row 1, column 1.
#[derive(Debug, Clone, Copy, PartialEq, Eq, Hash, PartialOrd, Ord, Structural)]
pub struct CellRef {
    pub row: u32,
    pub col: u32,
}

/// A cell's value.
#[derive(Debug, PartialEq)]
pub enum CellValue {
    /// A number that is no date.
    Number(Number),
    /// A date and time.
    DateTime(DateTimeValue),
    /// A text; cells that refer to one shared string hold the same allocation.
    Text(Arc<String>),
    Boolean(bool),
    /// An error code such as `#DIV/0!`, as it is written.
    Error(String),
}

/// A cell's value as contracts speak of it.
#[verifier::ext_equal]
pub enum ValueView {
    Number(Seq<char>),
    DateTime(DateTimeValue),
    Text(Seq<char>),
    Boolean(bool),
    Error(Seq<char>),
}

impl View for CellValue {
    type V = ValueView;

    open spec fn view(&self) -> ValueView {
        match *self {
            CellValue::Number(n) => ValueView::Number(n@),
            CellValue::DateTime(d) => ValueView::DateTime(d),
            CellValue::Text(t) => ValueView::Text(t@),
            CellValue::Boolean(b) => ValueView::Boolean(b),
            CellValue::Error(e) => ValueView::Error(e@),
        }
    }
}

impl Clone for CellValue {
    fn clone(&self) -> (v: CellValue)
        ensures
            v@ == self@,
    {
        match self {
            CellValue::Number(n) => CellValue::Number(n.clone()),
            CellValue::DateTime(d) => CellValue::DateTime(*d),
            CellValue::Text(t) => CellValue::Text(t.clone()),
            CellValue::Boolean(b) => CellValue::Boolean(*b),
            CellValue::Error(e) => CellValue::Error(e.clone()),
        }
    }
}

/// One entry of a sheet's sparse grid.
#[derive(Debug, PartialEq)]
pub struct Cell {
    /// Absent for a cell that carries formatting only.
    pub value: Option<CellValue>,
    /// Absent for the default style; shared between the cells that have it.
    pub style: Option<Arc<ResolvedStyle>>,
}

/// A cell as contracts speak of it.
#[verifier::ext_equal]
pub struct CellView {
    pub value: Option<ValueView>,
    pub style: Option<StyleView>,
}

impl View for Cell {
    type V = CellView;

    open spec fn view(&self) -> CellView {
        CellView {
            value: match self.value {
                Some(v) => Some(v@),
                None => None,
            },
            style: match self.style {
                Some(s) => Some(s@),
                None => None,
            },
        }
    }
}

/// A cell with neither value nor style.
pub open spec fn blank_cell() -> CellView {
    CellView { value: None, style: None }
}

impl Clone for Cell {
    fn clone(&self) -> (c: Cell)
        ensures
            c@ == self@,
    {
        let value: Option<CellValue> = match &self.value {
            Some(v) => Some(v.clone()),
            None => None,
        };
        let style: Option<Arc<ResolvedStyle>> = match &self.style {
            Some(s) => Some(s.clone()),
            None => None,
        };
        Cell { value, style }
    }
}

/// The letters of a column number: `A` for 1, `Z` for 26, `AA` for 27.
pub open spec fn column_letters(n: nat) -> Seq<char>
    decreases n,
{
    if n == 0 {
        Seq::empty()
    } else {
        column_letters(((n - 1) / 26) as nat).push(('A' as int + (n - 1) % 26) as char)
    }
}

/// The column number that a sequence of letters denotes.
pub open spec fn letters_value(s: Seq<char>) -> int
    decreases s.len(),
{
    if s.len() == 0 {
        0
    } else {
        letters_value(s.drop_last()) * 26 + (s.last() as int - 'A' as int + 1)
    }
}

/// Every character of `s` is an uppercase letter.
pub open spec fn all_upper(s: Seq<char>) -> bool {
    forall|i: int| 0 <= i < s.len() ==> text::is_upper(#[trigger] s[i])
}

/// How many uppercase letters `s` begins with.
pub open spec fn upper_prefix(s: Seq<char>) -> int
    decreases s.len(),
{
    if s.len() > 0 && text::is_upper(s[0]) {
        1 + upper_prefix(s.skip(1))
    } else {
        0
    }
}

/// The coordinates that an `A1`-style text denotes: column letters, then the
/// row in decimal, both within a worksheet's bounds.
pub open spec fn a1_value(s: Seq<char>) -> Option<CellRef> {
    let k = upper_prefix(s);
    let letters = s.take(k);
    let digits = s.skip(k);
    let row = text::digits_value(digits);
    let col = letters_value(letters);
    if k > 0 && digits.len() > 0 && text::all_digits(digits) && 1 <= row <= CellRef::MAX_ROW && col
        <= CellRef::MAX_COL {
        Some(CellRef { row: row as u32, col: col as u32 })
    } else {
        None
    }
}

/// Whether coordinates lie on the grid of a sheet.
pub open spec fn on_grid(r: CellRef) -> bool {
    1 <= r.row <= CellRef::MAX_ROW && 1 <= r.col <= CellRef::MAX_COL
}

/// A text that reads as coordinates reads as coordinates on the sheet.
pub proof fn lemma_a1_value_in_range(s: Seq<char>)
    requires
        a1_value(s) is Some,
    ensures
        1 <= a1_value(s)->0.row <= CellRef::MAX_ROW,
        1 <= a1_value(s)->0.col <= CellRef::MAX_COL,
{
    lemma_upper_prefix(s);
    lemma_letters_value_bounds(s.take(upper_prefix(s)));
}

/// The `A1`-style text of coordinates.
pub open spec fn a1_text(r: CellRef) -> Seq<char> {
    column_letters(r.col as nat) + text::decimal(r.row as nat)
}

proof fn lemma_upper_prefix(s: Seq<char>)
    ensures
        0 <= upper_prefix(s) <= s.len(),
        all_upper(s.take(upper_prefix(s))),
        upper_prefix(s) < s.len() ==> !text::is_upper(s[upper_prefix(s)]),
    decreases s.len(),
{
    if s.len() > 0 && text::is_upper(s[0]) {
        lemma_upper_prefix(s.skip(1));
        let k = upper_prefix(s.skip(1));
        assert forall|i: int| 0 <= i < k + 1 implies text::is_upper(#[trigger] s.take(k + 1)[i]) by {
            if i > 0 {
                assert(text::is_upper(s.skip(1).take(k)[i - 1]));
            }
        }
    }
}

proof fn lemma_upper_prefix_unique(s: Seq<char>, k: int)
    requires
        0 <= k <= s.len(),
        all_upper(s.take(k)),
        k < s.len() ==> !text::is_upper(s[k]),
    ensures
        upper_prefix(s) == k,
    decreases s.len(),
{
    if k > 0 {
        assert(text::is_upper(s.take(k)[0]));
        let t = s.skip(1);
        assert forall|i: int| 0 <= i < k - 1 implies text::is_upper(#[trigger] t.take(k - 1)[i]) by {
            assert(text::is_upper(s.take(k)[i + 1]));
        }
        lemma_upper_prefix_unique(t, k - 1);
    }
}

proof fn lemma_letters_value_bounds(s: Seq<char>)
    requires
        all_upper(s),
    ensures
        letters_value(s) >= 0,
        s.len() > 0 ==> letters_value(s) > 0,
    decreases s.len(),
{
    if s.len() > 0 {
        assert(text::is_upper(s[s.len() - 1]));
        assert forall|i: int| 0 <= i < s.len() - 1 implies text::is_upper(#[trigger] s.drop_last()[i]) by {
            assert(text::is_upper(s[i]));
        }
        lemma_letters_value_bounds(s.drop_last());
    }
}

proof fn lemma_letters_value_mono(s: Seq<char>, k: int)
    requires
        all_upper(s),
        0 <= k <= s.len(),
    ensures
        letters_value(s.take(k)) <= letters_value(s),
    decreases s.len(),
{
    if k == s.len() {
        assert(s.take(k) =~= s);
    } else {
        let t = s.drop_last();
        assert forall|i: int| 0 <= i < t.len() implies text::is_upper(#[trigger] t[i]) by {
            assert(text::is_upper(s[i]));
        }
        assert(text::is_upper(s[s.len() - 1]));
        assert(t.take(k) =~= s.take(k));
        lemma_letters_value_mono(t, k);
        lemma_letters_value_bounds(t);
    }
}

/// Column letters denote the number that they were made from.
pub proof fn lemma_letters_of_column(n: nat)
    ensures
        letters_value(column_letters(n)) == n,
        all_upper(column_letters(n)),
        n > 0 ==> column_letters(n).len() > 0,
    decreases n,
{
    if n > 0 {
        let m = ((n - 1) / 26) as nat;
        lemma_letters_of_column(m);
        let s = column_letters(n);
        assert(s.drop_last() =~= column_letters(m));
        assert forall|i: int| 0 <= i < s.len() implies text::is_upper(#[trigger] s[i]) by {
            if i < s.len() - 1 {
                assert(text::is_upper(column_letters(m)[i]));
            }
        }
        assert(26 * m + (n - 1) % 26 == n - 1);
    }
}

/// Letters are the column letters of the number that they denote.
pub proof fn lemma_column_of_letters(s: Seq<char>)
    requires
        all_upper(s),
    ensures
        column_letters(letters_value(s) as nat) == s,
    decreases s.len(),
{
    lemma_letters_value_bounds(s);
    if s.len() > 0 {
        let t = s.drop_last();
        assert forall|i: int| 0 <= i < t.len() implies text::is_upper(#[trigger] t[i]) by {
            assert(text::is_upper(s[i]));
        }
        lemma_column_of_letters(t);
        lemma_letters_value_bounds(t);
        let v = letters_value(t);
        let d = s.last() as int - 'A' as int;
        assert(text::is_upper(s[s.len() - 1]));
        assert(0 <= d < 26);
        let n = letters_value(s);
        assert(n - 1 == v * 26 + d);
        assert((n - 1) / 26 == v && (n - 1) % 26 == d);
        assert(column_letters(n as nat) =~= s);
    }
}

/// Writing coordinates and reading them back gives the same coordinates, for
/// every cell of a worksheet.
pub proof fn law_from_a1_reads_back_to_a1(r: CellRef)
    requires
        1 <= r.row <= CellRef::MAX_ROW,
        1 <= r.col <= CellRef::MAX_COL,
    ensures
        a1_value(a1_text(r)) == Some(r),
{
    let letters = column_letters(r.col as nat);
    let digits = text::decimal(r.row as nat);
    let s = a1_text(r);
    lemma_letters_of_column(r.col as nat);
    crate::text::lemma_decimal_value(r.row as nat);
    assert(s.take(letters.len() as int) =~= letters);
    assert(s.skip(letters.len() as int) =~= digits);
    assert(text::is_digit(digits[0]));
    assert(s[letters.len() as int] == digits[0]);
    lemma_upper_prefix_unique(s, letters.len() as int);
}

/// A text that reads as coordinates and has no leading zero in its row is
/// exactly what those coordinates are written as.
pub proof fn law_to_a1_writes_back_from_a1(s: Seq<char>)
    requires
        a1_value(s) is Some,
        s[upper_prefix(s)] != '0',
    ensures
        a1_text(a1_value(s)->0) == s,
{
    lemma_upper_prefix(s);
    let k = upper_prefix(s);
    let letters = s.take(k);
    let digits = s.skip(k);
    lemma_column_of_letters(letters);
    lemma_letters_value_bounds(letters);
    lemma_decimal_of_digits(digits);
    assert(digits[0] == s[k]);
    assert(a1_text(a1_value(s)->0) =~= letters + digits);
    assert(letters + digits =~= s);
}

proof fn lemma_decimal_of_digits(s: Seq<char>)
    requires
        text::all_digits(s),
        s.len() > 0,
        s[0] != '0',
    ensures
        text::digits_value(s) > 0,
        text::decimal(text::digits_value(s) as nat) == s,
    decreases s.len(),
{
    assert(text::is_digit(s[0]));
    assert(text::is_digit(s[s.len() - 1]));
    let t = s.drop_last();
    let d = s.last() as int - '0' as int;
    if s.len() == 1 {
        assert(t =~= Seq::<char>::empty());
        assert(text::digits_value(t) == 0);
        assert(text::decimal(d as nat) =~= s);
    } else {
        assert forall|i: int| 0 <= i < t.len() implies text::is_digit(#[trigger] t[i]) by {
            assert(text::is_digit(s[i]));
        }
        lemma_decimal_of_digits(t);
        let v = text::digits_value(t);
        assert(text::digits_value(s) == v * 10 + d);
        assert((v * 10 + d) / 10 == v && (v * 10 + d) % 10 == d);
        assert(text::decimal((v * 10 + d) as nat) =~= s);
    }
}

/// The first 26 columns have one letter each, in the order of the alphabet; a column
/// behind them has the letters of the 26 columns that it belongs to, and one more.
pub proof fn law_columns_go_by_the_alphabet(n: nat, k: nat)
    requires
        1 <= k <= 26,
    ensures
        column_letters(k) == seq![(('A' as u32) + k - 1) as char],
        column_letters(26 * n + k) == column_letters(n).push((('A' as u32) + k - 1) as char),
{
    assert(((26 * n + k) - 1) / 26 == n);
    assert(((26 * n + k) - 1) % 26 == k - 1);
    assert((k - 1) / 26 == 0);
    assert(column_letters(0) =~= Seq::<char>::empty());
}

/// Coordinates can be written and read back exactly if they lie on a sheet of 1 048 576
/// rows and 16 384 columns.
pub proof fn law_sheets_have_their_bounds(r: CellRef)
    ensures
        a1_value(a1_text(r)) is Some <==> 1 <= r.row <= 1_048_576 && 1 <= r.col <= 16_384,
        on_grid(r) <==> 1 <= r.row <= 1_048_576 && 1 <= r.col <= 16_384,
{
    let s = a1_text(r);
    let letters = column_letters(r.col as nat);
    if on_grid(r) {
        law_from_a1_reads_back_to_a1(r);
    } else {
        lemma_letters_of_column(r.col as nat);
        text::lemma_decimal_value(r.row as nat);
        assert(s.take(letters.len() as int) =~= letters);
        assert(s[letters.len() as int] == text::decimal(r.row as nat)[0]);
        assert(text::is_digit(s[letters.len() as int]));
        lemma_upper_prefix_unique(s, letters.len() as int);
        assert(s.skip(letters.len() as int) =~= text::decimal(r.row as nat));
        if r.col == 0 {
            assert(letters =~= Seq::<char>::empty());
        }
    }
}

/// Converts a column number to its letters.
pub fn column_number_to_letters(n: u32) -> (r: String)
    ensures
        r@ == column_letters(n as nat),
{
    let mut out: String = String::new();
    push_column_letters(&mut out, n);
    assert(out@ =~= column_letters(n as nat));
    out
}

fn push_column_letters(out: &mut String, n: u32)
    ensures
        final(out)@ == old(out)@ + column_letters(n as nat),
    decreases n,
{
    if n > 0 {
        push_column_letters(out, (n - 1) / 26);
        let rem: u8 = ((n - 1) % 26) as u8;
        out.push((65 + rem) as char);
    }
    assert(out@ =~= old(out)@ + column_letters(n as nat));
}

/// Converts uppercase column letters to a column number; `None` if the number
/// does not fit.
pub fn column_letters_to_number(letters: &Vec<char>) -> (r: Option<u32>)
    requires
        all_upper(letters@),
    ensures
        match r {
            Some(n) => n == letters_value(letters@),
            None => letters_value(letters@) > u32::MAX,
        },
{
    let mut n: u32 = 0;
    let mut i: usize = 0;
    assert(letters@.take(0) =~= Seq::<char>::empty());
    while i < letters.len()
        invariant
            i <= letters@.len(),
            all_upper(letters@),
            n == letters_value(letters@.take(i as int)),
        decreases letters@.len() - i,
    {
        assert(text::is_upper(letters@[i as int]));
        let digit: u32 = (letters[i] as u32) - ('A' as u32) + 1;
        proof {
            let t = letters@.take(i + 1);
            assert(t.drop_last() =~= letters@.take(i as int));
            lemma_letters_value_mono(letters@, i + 1);
        }
        match n.checked_mul(26) {
            None => {
                return None;
            },
            Some(m) => match m.checked_add(digit) {
                None => {
                    return None;
                },
                Some(v) => {
                    n = v;
                },
            },
        }
        i += 1;
    }
    assert(letters@.take(letters@.len() as int) =~= letters@);
    Some(n)
}

impl CellRef {
    /// The last row of a worksheet.
    pub const MAX_ROW: u32 = 1_048_576;

    /// The last column of a worksheet, `XFD`.
    pub const MAX_COL: u32 = 16_384;

    /// Reads an `A1`-style text: uppercase column letters followed by a decimal
    /// row number, both within a worksheet's bounds.
    pub fn from_a1(s: &str) -> (r: Result<CellRef, Error>)
        ensures
            error::plain_result(r) == (match a1_value(s@) {
                Some(v) => Ok(v),
                None => Err(ErrorView::InvalidCellRef(s@)),
            }),
            r matches Ok(c) ==> 1 <= c.row <= CellRef::MAX_ROW && 1 <= c.col <= CellRef::MAX_COL,
    {
        let chars: Vec<char> = to_chars(s);
        match read_a1(&chars) {
            Some(v) => {
                proof {
                    lemma_a1_value_in_range(s@);
                }
                Ok(v)
            },
            None => Err(Error::InvalidCellRef(s.to_owned())),
        }
    }

    /// Writes the coordinates as an `A1`-style text.
    pub fn to_a1(&self) -> (r: String)
        ensures
            r@ == a1_text(*self),
    {
        let mut out: String = column_number_to_letters(self.col);
        push_decimal(&mut out, self.row as u64);
        out
    }
}

fn read_a1(chars: &Vec<char>) -> (r: Option<CellRef>)
    ensures
        r == a1_value(chars@),
{
    let mut k: usize = 0;
    while k < chars.len() && 'A' <= chars[k] && chars[k] <= 'Z'
        invariant
            k <= chars@.len(),
            all_upper(chars@.take(k as int)),
        decreases chars@.len() - k,
    {
        assert forall|i: int| 0 <= i < k + 1 implies text::is_upper(
            #[trigger] chars@.take(k + 1)[i],
        ) by {
            if i < k {
                assert(text::is_upper(chars@.take(k as int)[i]));
            }
        }
        k += 1;
    }
    proof {
        lemma_upper_prefix_unique(chars@, k as int);
        assert(chars@.subrange(k as int, chars@.len() as int) =~= chars@.skip(k as int));
    }
    if k == 0 || k == chars.len() || !digits_only(chars, k, chars.len()) {
        return None;
    }
    let letters: Vec<char> = crate::text::copy_range(chars, 0, k);
    assert(letters@ =~= chars@.take(k as int));
    proof {
        crate::text::lemma_digits_value_nonneg(chars@.skip(k as int));
        lemma_letters_value_bounds(letters@);
    }
    match (column_letters_to_number(&letters), digits_up_to(chars, k, CellRef::MAX_ROW as u64)) {
        (Some(col), Some(row)) => {
            if row >= 1 && col <= CellRef::MAX_COL {
                Some(CellRef { row: row as u32, col })
            } else {
                None
            }
        },
        _ => None,
    }
}

} // verus!
