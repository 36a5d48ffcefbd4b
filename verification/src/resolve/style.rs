//! Styles: cells that refer to one get it, and numbers under a date format become
//! dates.
use crate::date;
use crate::date::SerialParts;
use crate::error::{Error, ErrorView};
use crate::model::cell::{CellRef, CellValue, CellView, DateTimeValue, ValueView};
use crate::model::sheet;
use crate::model::sheet::{Sheet, SheetView};
use crate::model::style::{ResolvedStyle, StyleSheet, StyleView};
use crate::number::Number;
use crate::parse::worksheet::PendingStyle;
use std::sync::Arc;
use vstd::prelude::*;

verus! {

/// Whether taking a serial apart is possible for every number, and depends on
/// nothing but how the number is written.
pub open spec fn splits<F: Fn(&Number) -> Option<SerialParts>>(split: F) -> bool {
    &&& forall|n: &Number| #[trigger] call_requires(split, (n,))
    &&& forall|n: &Number, m: &Number, a: Option<SerialParts>, b: Option<SerialParts>|
        #![trigger call_ensures(split, (n,), a), call_ensures(split, (m,), b)]
        n@ == m@ && call_ensures(split, (n,), a) && call_ensures(split, (m,), b) ==> a == b
}

/// Whether a number written like `text` may come apart into `parts`.
pub open spec fn comes_apart<F: Fn(&Number) -> Option<SerialParts>>(
    split: F,
    text: Seq<char>,
    parts: Option<SerialParts>,
) -> bool {
    exists|n: &Number| n@ == text && #[trigger] call_ensures(split, (n,), parts)
}

/// How a serial comes apart, by how it is written.
pub open spec fn parts_of<F: Fn(&Number) -> Option<SerialParts>>(
    split: F,
    text: Seq<char>,
) -> Option<SerialParts> {
    choose|a: Option<SerialParts>| comes_apart(split, text, a)
}

/// The value of a cell under a style: a number under a date format becomes a
/// date, unless it is out of range.
pub open spec fn styled_value<F: Fn(&Number) -> Option<SerialParts>>(
    value: Option<ValueView>,
    is_date_time: bool,
    date1904: bool,
    split: F,
) -> Option<ValueView> {
    match value {
        Some(ValueView::Number(n)) => match parts_of(split, n) {
            Some(p) => if is_date_time && date::in_serial_range(p) {
                Some(ValueView::DateTime(date::serial_date_time(p, date1904)))
            } else {
                value
            },
            None => value,
        },
        _ => value,
    }
}

/// A sheet with a style given to the cell that stands for `r`.
pub open spec fn with_styled<F: Fn(&Number) -> Option<SerialParts>>(
    s: SheetView,
    r: CellRef,
    style: StyleView,
    date1904: bool,
    split: F,
) -> SheetView {
    let origin = sheet::origin_of(s.merges, r);
    SheetView {
        cells: s.cells.insert(
            origin,
            CellView {
                value: styled_value(s.cells[origin].value, style.is_date_time, date1904, split),
                style: Some(style),
            },
        ),
        ..s
    }
}

/// What resolving comes to: the sheet as far as it was taken, and what stopped
/// it.
pub open spec fn styles_put<F: Fn(&Number) -> Option<SerialParts>>(
    s: SheetView,
    pending: Seq<PendingStyle>,
    styles: Seq<StyleView>,
    date1904: bool,
    split: F,
) -> (SheetView, Option<ErrorView>)
    decreases pending.len(),
{
    if pending.len() == 0 {
        (s, None)
    } else {
        let entry = pending.last();
        match styles_put(s, pending.drop_last(), styles, date1904, split) {
            (t, Some(e)) => (t, Some(e)),
            (t, None) => if entry.style_id < styles.len() {
                (
                    with_styled(
                        t,
                        entry.cell_ref,
                        styles[entry.style_id as int],
                        date1904,
                        split,
                    ),
                    None,
                )
            } else {
                (t, Some(ErrorView::InvalidStyleId(entry.style_id)))
            },
        }
    }
}

/// Whether an entry is reached: every style ID up to it is defined.
pub open spec fn is_reached(pending: Seq<PendingStyle>, styles_len: nat, i: int) -> bool {
    &&& 0 <= i < pending.len()
    &&& forall|k: int| 0 <= k <= i ==> (#[trigger] pending[k]).style_id < styles_len
}

/// Whether every entry that is reached refers to a cell that exists.
pub open spec fn refer_to_cells(s: SheetView, pending: Seq<PendingStyle>, styles_len: nat) -> bool {
    forall|i: int| #[trigger]
        is_reached(pending, styles_len, i) ==> s.cells.contains_key(
            sheet::origin_of(s.merges, pending[i].cell_ref),
        )
}

/// Giving styles does not change which cells there are.
pub proof fn lemma_styles_put<F: Fn(&Number) -> Option<SerialParts>>(
    s: SheetView,
    pending: Seq<PendingStyle>,
    styles: Seq<StyleView>,
    date1904: bool,
    split: F,
)
    requires
        refer_to_cells(s, pending, styles.len()),
    ensures
        styles_put(s, pending, styles, date1904, split).0.cells.dom() == s.cells.dom(),
        styles_put(s, pending, styles, date1904, split).0 == (SheetView {
            cells: styles_put(s, pending, styles, date1904, split).0.cells,
            ..s
        }),
        styles_put(s, pending, styles, date1904, split).1 is None ==> forall|k: int|
            0 <= k < pending.len() ==> (#[trigger] pending[k]).style_id < styles.len(),
    decreases pending.len(),
{
    if pending.len() > 0 {
        let n = pending.len() - 1;
        let front = pending.drop_last();
        assert(front =~= pending.take(n));
        lemma_prefix_refers(s, pending, styles.len(), n);
        lemma_styles_put(s, front, styles, date1904, split);
        let (t, e) = styles_put(s, front, styles, date1904, split);
        if e is None && pending.last().style_id < styles.len() {
            assert(is_reached(pending, styles.len(), n)) by {
                assert forall|k: int| 0 <= k <= n implies (#[trigger] pending[k]).style_id
                    < styles.len() by {
                    if k < n {
                        assert(front[k] == pending[k]);
                    }
                }
            }
            assert(styles_put(s, pending, styles, date1904, split).0.cells.dom()
                =~= s.cells.dom());
            assert forall|k: int| 0 <= k < pending.len() implies (#[trigger] pending[k]).style_id
                < styles.len() by {
                assert(is_reached(pending, styles.len(), n));
            }
        }
    }
}

/// Once all styles are given, a cell that one entry refers to has that entry's
/// style, and a number in it is a date if the style shows dates.
pub proof fn law_cells_have_the_style_they_refer_to<F: Fn(&Number) -> Option<SerialParts>>(
    s: SheetView,
    pending: Seq<PendingStyle>,
    styles: Seq<StyleView>,
    date1904: bool,
    split: F,
    i: int,
)
    requires
        styles_put(s, pending, styles, date1904, split).1 is None,
        0 <= i < pending.len(),
        forall|j: int|
            0 <= j < pending.len() && j != i ==> sheet::origin_of(
                s.merges,
                (#[trigger] pending[j]).cell_ref,
            ) != sheet::origin_of(s.merges, pending[i].cell_ref),
    ensures
        ({
            let t = styles_put(s, pending, styles, date1904, split).0;
            let origin = sheet::origin_of(s.merges, pending[i].cell_ref);
            let style = styles[pending[i].style_id as int];
            &&& pending[i].style_id < styles.len()
            &&& t.cells.contains_key(origin)
            &&& t.cells[origin] == (CellView {
                value: styled_value(s.cells[origin].value, style.is_date_time, date1904, split),
                style: Some(style),
            })
        }),
    decreases pending.len(),
{
    let front = pending.drop_last();
    assert(pending[pending.len() - 1] == pending.last());
    assert forall|j: int| 0 <= j < front.len() implies #[trigger] front[j] == pending[j] by {}
    if i < front.len() {
        lemma_others_stay(s, front, styles, date1904, split, CellRef { row: 0, col: 0 });
        law_cells_have_the_style_they_refer_to(s, front, styles, date1904, split, i);
    } else {
        let origin = sheet::origin_of(s.merges, pending[i].cell_ref);
        lemma_others_stay(s, front, styles, date1904, split, origin);
    }
}

/// Giving styles takes no cell away and changes nothing but cells.
pub proof fn lemma_cells_stay<F: Fn(&Number) -> Option<SerialParts>>(
    s: SheetView,
    pending: Seq<PendingStyle>,
    styles: Seq<StyleView>,
    date1904: bool,
    split: F,
    r: CellRef,
)
    ensures
        ({
            let t = styles_put(s, pending, styles, date1904, split).0;
            &&& s.cells.contains_key(r) ==> t.cells.contains_key(r)
            &&& t == (SheetView { cells: t.cells, ..s })
        }),
    decreases pending.len(),
{
    if pending.len() > 0 {
        lemma_cells_stay(s, pending.drop_last(), styles, date1904, split, r);
    }
}

/// Giving styles comes to its end exactly if every style ID is defined; the first that
/// is not is what is wrong.
pub proof fn law_the_first_undefined_style_is_told<F: Fn(&Number) -> Option<SerialParts>>(
    s: SheetView,
    pending: Seq<PendingStyle>,
    styles: Seq<StyleView>,
    date1904: bool,
    split: F,
    i: int,
)
    requires
        0 <= i <= pending.len(),
        forall|k: int| 0 <= k < i ==> (#[trigger] pending[k]).style_id < styles.len(),
        i < pending.len() ==> pending[i].style_id >= styles.len(),
    ensures
        styles_put(s, pending, styles, date1904, split).1 == if i == pending.len() {
            None
        } else {
            Some(ErrorView::InvalidStyleId(pending[i].style_id))
        },
    decreases pending.len(),
{
    if pending.len() > 0 {
        let front = pending.drop_last();
        let n = if i == pending.len() {
            i - 1
        } else {
            i
        };
        assert(pending[pending.len() - 1] == pending.last());
        assert forall|k: int| 0 <= k < front.len() implies #[trigger] front[k] == pending[k] by {}
        law_the_first_undefined_style_is_told(s, front, styles, date1904, split, n);
    }
}

/// A number under a format that shows dates or times becomes the date that lies as many
/// days from the beginning of the date system as its whole part says, at the time of
/// day that its seconds say; a whole day of seconds counts as one more day.
pub proof fn law_serials_under_date_formats_become_dates<
    F: Fn(&Number) -> Option<SerialParts>,
>(n: Seq<char>, p: SerialParts, t: DateTimeValue, date1904: bool, split: F)
    requires
        parts_of(split, n) == Some(p),
        0 <= p.day < 2_958_465,
        0 <= p.seconds <= 86_400,
        t.hour < 24,
        t.minute < 60,
        t.second < 60,
        p.seconds == 86_400 ==> t.hour == 0 && t.minute == 0 && t.second == 0,
        p.seconds < 86_400 ==> t.hour * 3600 + t.minute * 60 + t.second == p.seconds,
        date::is_days_from_epoch(
            p.day + if p.seconds == 86_400 {
                1int
            } else {
                0int
            },
            date1904,
            t.year as int,
            t.month as int,
            t.day as int,
        ),
    ensures
        styled_value(Some(ValueView::Number(n)), true, date1904, split) == Some(
            ValueView::DateTime(t),
        ),
{
    let day = p.day + if p.seconds == 86_400 {
        1int
    } else {
        0int
    };
    date::law_serials_count_days(day, date1904, t.year as int, t.month as int, t.day as int);
    let x = t.hour * 3600 + t.minute * 60 + t.second;
    assert(x / 3600 == t.hour && x / 60 % 60 == t.minute && x % 60 == t.second) by {
        let m = t.hour * 60 + t.minute;
        assert(x / 60 == m);
    }
    assert(date::is_serial_date_time(p, date1904, t));
    date::lemma_serial_date_time(p, date1904, t);
}

/// A value stays as it is under a format that shows no dates, if it is no number, and
/// if the number is no serial: before day zero, or past the beginning of 31 December
/// 9999.
pub proof fn law_other_values_stay<F: Fn(&Number) -> Option<SerialParts>>(
    value: Option<ValueView>,
    is_date_time: bool,
    date1904: bool,
    split: F,
)
    requires
        !is_date_time || !(value matches Some(ValueView::Number(_))) || (
        value matches Some(ValueView::Number(n)) && (match parts_of(split, n) {
            None => true,
            Some(p) => p.day < 0 || p.day > 2_958_465 || (p.day == 2_958_465 && p.seconds != 0),
        })),
    ensures
        styled_value(value, is_date_time, date1904, split) == value,
{
}

/// Giving styles leaves the cells alone that no entry refers to.
pub proof fn law_cells_without_a_style_stay<F: Fn(&Number) -> Option<SerialParts>>(
    s: SheetView,
    pending: Seq<PendingStyle>,
    styles: Seq<StyleView>,
    date1904: bool,
    split: F,
    r: CellRef,
)
    ensures
        ({
            let t = styles_put(s, pending, styles, date1904, split).0;
            &&& t.merges == s.merges
            &&& (forall|j: int|
                0 <= j < pending.len() ==> sheet::origin_of(
                    s.merges,
                    (#[trigger] pending[j]).cell_ref,
                ) != r) ==> t.cells[r] == s.cells[r]
        }),
{
    lemma_others_stay(s, pending, styles, date1904, split, r);
}

proof fn lemma_others_stay<F: Fn(&Number) -> Option<SerialParts>>(
    s: SheetView,
    pending: Seq<PendingStyle>,
    styles: Seq<StyleView>,
    date1904: bool,
    split: F,
    r: CellRef,
)
    ensures
        ({
            let t = styles_put(s, pending, styles, date1904, split).0;
            &&& t.merges == s.merges
            &&& (forall|j: int|
                0 <= j < pending.len() ==> sheet::origin_of(
                    s.merges,
                    (#[trigger] pending[j]).cell_ref,
                ) != r) ==> t.cells[r] == s.cells[r]
        }),
    decreases pending.len(),
{
    if pending.len() > 0 {
        let front = pending.drop_last();
        lemma_others_stay(s, front, styles, date1904, split, r);
        assert(pending[pending.len() - 1] == pending.last());
        assert forall|j: int| 0 <= j < front.len() implies #[trigger] front[j] == pending[j] by {}
    }
}

proof fn lemma_prefix_refers(s: SheetView, pending: Seq<PendingStyle>, styles_len: nat, n: int)
    requires
        0 <= n <= pending.len(),
        refer_to_cells(s, pending, styles_len),
    ensures
        refer_to_cells(s, pending.take(n), styles_len),
{
    let front = pending.take(n);
    assert forall|i: int| #[trigger] is_reached(front, styles_len, i) implies s.cells.contains_key(
        sheet::origin_of(s.merges, front[i].cell_ref),
    ) by {
        assert(is_reached(pending, styles_len, i)) by {
            assert forall|k: int| 0 <= k <= i implies (#[trigger] pending[k]).style_id
                < styles_len by {
                assert(front[k] == pending[k]);
            }
        }
    }
}

proof fn lemma_stop_stays<F: Fn(&Number) -> Option<SerialParts>>(
    s: SheetView,
    pending: Seq<PendingStyle>,
    styles: Seq<StyleView>,
    date1904: bool,
    split: F,
    k: int,
)
    requires
        0 <= k <= pending.len(),
        styles_put(s, pending.take(k), styles, date1904, split).1 is Some,
    ensures
        styles_put(s, pending, styles, date1904, split) == styles_put(
            s,
            pending.take(k),
            styles,
            date1904,
            split,
        ),
    decreases pending.len(),
{
    if k == pending.len() {
        assert(pending.take(k) =~= pending);
    } else {
        assert(pending.drop_last().take(k) =~= pending.take(k));
        lemma_stop_stays(s, pending.drop_last(), styles, date1904, split, k);
    }
}

/// The date that a number under a date format stands for, if it stands for one.
pub fn serial_value<F: Fn(&Number) -> Option<SerialParts>>(
    n: &Number,
    date1904: bool,
    split: &F,
) -> (v: Option<CellValue>)
    requires
        splits(*split),
    ensures
        match v {
            Some(v) => styled_value(Some(ValueView::Number(n@)), true, date1904, *split) == Some(v@),
            None => styled_value(Some(ValueView::Number(n@)), true, date1904, *split) == Some(
                ValueView::Number(n@),
            ),
        },
{
    let parts: Option<SerialParts> = split(n);
    assert(comes_apart(*split, n@, parts));
    assert(comes_apart(*split, n@, parts_of(*split, n@)));
    match parts {
        Some(p) => {
            if (0 <= p.day && p.day < date::MAX_SERIAL && 0 <= p.seconds && p.seconds <= 86_400)
                || (p.day == date::MAX_SERIAL && p.seconds == 0) {
                let t = date::serial_to_date_time(p, date1904);
                proof {
                    date::lemma_serial_date_time(p, date1904, t);
                }
                Some(CellValue::DateTime(t))
            } else {
                None
            }
        },
        None => None,
    }
}

/// Gives every cell that refers to a style the style. `split` takes a date serial
/// apart.
pub fn resolve<F: Fn(&Number) -> Option<SerialParts>>(
    sheet: &mut Sheet,
    pending: &Vec<PendingStyle>,
    stylesheet: &StyleSheet,
    date1904: bool,
    split: &F,
) -> (r: Result<(), Error>)
    requires
        old(sheet).wf(),
        splits(*split),
        refer_to_cells(old(sheet)@, pending@, stylesheet@.len()),
    ensures
        final(sheet).wf(),
        final(sheet)@ == styles_put(old(sheet)@, pending@, stylesheet@, date1904, *split).0,
        match styles_put(old(sheet)@, pending@, stylesheet@, date1904, *split).1 {
            Some(f) => r matches Err(e) && e@ == f,
            None => r is Ok,
        },
{
    let ghost start = sheet@;
    let ghost styles = stylesheet@;
    let mut i: usize = 0;
    assert(pending@.take(0) =~= Seq::<PendingStyle>::empty());
    while i < pending.len()
        invariant
            i <= pending@.len(),
            start == old(sheet)@,
            styles == stylesheet@,
            splits(*split),
            sheet.wf(),
            sheet@ == styles_put(start, pending@.take(i as int), styles, date1904, *split).0,
            styles_put(start, pending@.take(i as int), styles, date1904, *split).1 is None,
            refer_to_cells(start, pending@, styles.len()),
        decreases pending@.len() - i,
    {
        let entry: PendingStyle = pending[i];
        let ghost front = pending@.take(i as int);
        let ghost before = sheet@;
        proof {
            assert(pending@.take(i + 1).drop_last() =~= front);
            assert(pending@.take(i + 1).last() == entry);
            lemma_prefix_refers(start, pending@, styles.len(), i as int);
            lemma_styles_put(start, front, styles, date1904, *split);
        }
        let style: Arc<ResolvedStyle> = match stylesheet.get(entry.style_id) {
            Some(s) => s.clone(),
            None => {
                proof {
                    lemma_stop_stays(start, pending@, styles, date1904, *split, i + 1);
                }
                return Err(Error::InvalidStyleId(entry.style_id));
            },
        };
        let ghost origin = sheet::origin_of(start.merges, entry.cell_ref);
        assert(is_reached(pending@, styles.len(), i as int)) by {
            assert forall|k: int| 0 <= k <= i implies (#[trigger] pending@[k]).style_id
                < styles.len() by {
                if k < i {
                    assert(front[k] == pending@[k]);
                }
            }
        }
        assert(before.cells.dom().contains(origin)) by {
            assert(start.cells.dom().contains(origin));
        }
        let mut converted: Option<CellValue> = None;
        if style.is_date_time {
            if let Some(c) = sheet.get(entry.cell_ref) {
                if let Some(CellValue::Number(n)) = &c.value {
                    converted = serial_value(n, date1904, split);
                }
            }
        }
        let ghost value = styled_value(
            before.cells[origin].value,
            style@.is_date_time,
            date1904,
            *split,
        );
        assert(match converted {
            Some(v) => value == Some(v@),
            None => value == before.cells[origin].value,
        });
        if let Some(v) = converted {
            let done: bool = sheet.set_value(entry.cell_ref, v);
        }
        let done: bool = sheet.set_style(entry.cell_ref, style);
        assert(sheet@ =~= with_styled(before, entry.cell_ref, style@, date1904, *split)) by {
            assert(sheet@.cells =~= with_styled(
                before,
                entry.cell_ref,
                style@,
                date1904,
                *split,
            ).cells);
        }
        i += 1;
    }
    assert(pending@.take(i as int) =~= pending@);
    Ok(())
}

} // verus!
