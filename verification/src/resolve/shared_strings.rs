//! Shared strings: cells that refer to one get its text.
use crate::error::{Error, ErrorView};
use crate::model::cell::{CellRef, CellValue, ValueView};
use crate::model::sheet;
use crate::model::sheet::{Sheet, SheetView};
use crate::parse::shared_strings::SharedStringTable;
use crate::parse::worksheet::PendingSharedString;
use vstd::prelude::*;

verus! {

/// What resolving comes to: the sheet as far as it was taken, and what stopped
/// it.
pub open spec fn texts_put(
    s: SheetView,
    pending: Seq<PendingSharedString>,
    table: Seq<Seq<char>>,
) -> (SheetView, Option<ErrorView>)
    decreases pending.len(),
{
    if pending.len() == 0 {
        (s, None)
    } else {
        let entry = pending.last();
        match texts_put(s, pending.drop_last(), table) {
            (t, Some(e)) => (t, Some(e)),
            (t, None) => if entry.index < table.len() {
                (
                    sheet::with_value(
                        t,
                        sheet::origin_of(t.merges, entry.cell_ref),
                        ValueView::Text(table[entry.index as int]),
                    ),
                    None,
                )
            } else {
                (
                    t,
                    Some(
                        ErrorView::SharedStringIndexOutOfBounds {
                            index: entry.index,
                            len: table.len() as usize,
                        },
                    ),
                )
            },
        }
    }
}

/// Whether an entry is reached: every index up to it is in the table.
pub open spec fn is_reached(pending: Seq<PendingSharedString>, table_len: nat, i: int) -> bool {
    &&& 0 <= i < pending.len()
    &&& forall|k: int| 0 <= k <= i ==> (#[trigger] pending[k]).index < table_len
}

/// Whether every entry that is reached refers to a cell that exists.
pub open spec fn refer_to_cells(
    s: SheetView,
    pending: Seq<PendingSharedString>,
    table_len: nat,
) -> bool {
    forall|i: int| #[trigger]
        is_reached(pending, table_len, i) ==> s.cells.contains_key(
            sheet::origin_of(s.merges, pending[i].cell_ref),
        )
}

/// Resolving texts does not change which cells there are.
pub proof fn lemma_texts_put(
    s: SheetView,
    pending: Seq<PendingSharedString>,
    table: Seq<Seq<char>>,
)
    requires
        refer_to_cells(s, pending, table.len()),
    ensures
        texts_put(s, pending, table).0.merges == s.merges,
        texts_put(s, pending, table).0.cells.dom() == s.cells.dom(),
        texts_put(s, pending, table).0 == (SheetView {
            cells: texts_put(s, pending, table).0.cells,
            ..s
        }),
        texts_put(s, pending, table).1 is None ==> forall|k: int|
            0 <= k < pending.len() ==> (#[trigger] pending[k]).index < table.len(),
    decreases pending.len(),
{
    if pending.len() > 0 {
        let front = pending.drop_last();
        assert forall|i: int| #[trigger] is_reached(front, table.len(), i) implies
            s.cells.contains_key(sheet::origin_of(s.merges, front[i].cell_ref)) by {
            assert(is_reached(pending, table.len(), i)) by {
                assert forall|k: int| 0 <= k <= i implies (#[trigger] pending[k]).index
                    < table.len() by {
                    assert(front[k] == pending[k]);
                }
            }
        }
        lemma_texts_put(s, front, table);
        let (t, e) = texts_put(s, front, table);
        let n = pending.len() - 1;
        if e is None && pending.last().index < table.len() {
            assert(is_reached(pending, table.len(), n)) by {
                assert forall|k: int| 0 <= k <= n implies (#[trigger] pending[k]).index
                    < table.len() by {
                    if k < n {
                        assert(front[k] == pending[k]);
                    }
                }
            }
            assert(texts_put(s, pending, table).0.cells.dom() =~= s.cells.dom());
            assert forall|k: int| 0 <= k < pending.len() implies (#[trigger] pending[k]).index
                < table.len() by {
                assert(is_reached(pending, table.len(), n));
            }
        }
    }
}

/// Once all shared strings are resolved, a cell holds the text that the last
/// reference to it names.
pub proof fn law_cells_hold_the_text_they_refer_to(
    s: SheetView,
    pending: Seq<PendingSharedString>,
    table: Seq<Seq<char>>,
    i: int,
)
    requires
        texts_put(s, pending, table).1 is None,
        0 <= i < pending.len(),
        forall|j: int|
            i < j < pending.len() ==> sheet::origin_of(
                s.merges,
                (#[trigger] pending[j]).cell_ref,
            ) != sheet::origin_of(s.merges, pending[i].cell_ref),
    ensures
        ({
            let t = texts_put(s, pending, table).0;
            let origin = sheet::origin_of(s.merges, pending[i].cell_ref);
            &&& pending[i].index < table.len()
            &&& t.cells.contains_key(origin)
            &&& t.cells[origin].value == Some(ValueView::Text(table[pending[i].index as int]))
        }),
    decreases pending.len(),
{
    let front = pending.drop_last();
    lemma_merges_stay(s, front, table);
    if i < front.len() {
        assert(front[i] == pending[i]);
        assert forall|j: int| i < j < front.len() implies sheet::origin_of(
            s.merges,
            (#[trigger] front[j]).cell_ref,
        ) != sheet::origin_of(s.merges, front[i].cell_ref) by {
            assert(front[j] == pending[j]);
        }
        law_cells_hold_the_text_they_refer_to(s, front, table, i);
        assert(pending[pending.len() - 1] == pending.last());
    }
}

/// Resolving shared strings leaves the cells alone that nothing refers to, and the
/// styles of all.
pub proof fn law_other_cells_keep_their_text(
    s: SheetView,
    pending: Seq<PendingSharedString>,
    table: Seq<Seq<char>>,
    r: CellRef,
)
    ensures
        ({
            let t = texts_put(s, pending, table).0;
            &&& t.merges == s.merges
            &&& t.cells[r].style == s.cells[r].style
            &&& (forall|j: int|
                0 <= j < pending.len() ==> sheet::origin_of(
                    s.merges,
                    (#[trigger] pending[j]).cell_ref,
                ) != r) ==> t.cells[r] == s.cells[r]
        }),
    decreases pending.len(),
{
    if pending.len() > 0 {
        let front = pending.drop_last();
        law_other_cells_keep_their_text(s, front, table, r);
        assert(pending[pending.len() - 1] == pending.last());
        assert forall|j: int| 0 <= j < front.len() implies #[trigger] front[j] == pending[j] by {}
    }
}

/// Resolving shared strings takes no cell away and changes nothing but cells.
pub proof fn lemma_cells_stay(
    s: SheetView,
    pending: Seq<PendingSharedString>,
    table: Seq<Seq<char>>,
    r: CellRef,
)
    ensures
        ({
            let t = texts_put(s, pending, table).0;
            &&& s.cells.contains_key(r) ==> t.cells.contains_key(r)
            &&& t == (SheetView { cells: t.cells, ..s })
        }),
    decreases pending.len(),
{
    if pending.len() > 0 {
        lemma_cells_stay(s, pending.drop_last(), table, r);
    }
}

/// Resolving shared strings comes to its end exactly if every index is in the table;
/// the first that is not is what is wrong.
pub proof fn law_the_first_bad_index_is_told(
    s: SheetView,
    pending: Seq<PendingSharedString>,
    table: Seq<Seq<char>>,
    i: int,
)
    requires
        0 <= i <= pending.len(),
        forall|k: int| 0 <= k < i ==> (#[trigger] pending[k]).index < table.len(),
        i < pending.len() ==> pending[i].index >= table.len(),
    ensures
        texts_put(s, pending, table).1 == if i == pending.len() {
            None
        } else {
            Some(
                ErrorView::SharedStringIndexOutOfBounds {
                    index: pending[i].index,
                    len: table.len() as usize,
                },
            )
        },
    decreases pending.len(),
{
    if pending.len() > 0 {
        let front = pending.drop_last();
        let n = if i == pending.len() {
            i - 1
        } else {
            i
        };
        assert(pending[pending.len() - 1] == pending.last());
        assert forall|k: int| 0 <= k < front.len() implies #[trigger] front[k] == pending[k] by {}
        law_the_first_bad_index_is_told(s, front, table, n);
    }
}

proof fn lemma_merges_stay(
    s: SheetView,
    pending: Seq<PendingSharedString>,
    table: Seq<Seq<char>>,
)
    ensures
        texts_put(s, pending, table).0.merges == s.merges,
    decreases pending.len(),
{
    if pending.len() > 0 {
        lemma_merges_stay(s, pending.drop_last(), table);
    }
}

proof fn lemma_stop_stays(
    s: SheetView,
    pending: Seq<PendingSharedString>,
    table: Seq<Seq<char>>,
    k: int,
)
    requires
        0 <= k <= pending.len(),
        texts_put(s, pending.take(k), table).1 is Some,
    ensures
        texts_put(s, pending, table) == texts_put(s, pending.take(k), table),
    decreases pending.len(),
{
    if k == pending.len() {
        assert(pending.take(k) =~= pending);
    } else {
        assert(pending.drop_last().take(k) =~= pending.take(k));
        lemma_stop_stays(s, pending.drop_last(), table, k);
    }
}

/// Gives every cell that refers to a shared string its text.
pub fn resolve(
    sheet: &mut Sheet,
    pending: &Vec<PendingSharedString>,
    table: &SharedStringTable,
) -> (r: Result<(), Error>)
    requires
        old(sheet).wf(),
        refer_to_cells(old(sheet)@, pending@, table@.len()),
    ensures
        final(sheet).wf(),
        final(sheet)@ == texts_put(old(sheet)@, pending@, table@).0,
        match texts_put(old(sheet)@, pending@, table@).1 {
            Some(f) => r matches Err(e) && e@ == f,
            None => r is Ok,
        },
{
    let ghost start = sheet@;
    let mut i: usize = 0;
    assert(pending@.take(0) =~= Seq::<PendingSharedString>::empty());
    while i < pending.len()
        invariant
            i <= pending@.len(),
            start == old(sheet)@,
            sheet.wf(),
            sheet@ == texts_put(start, pending@.take(i as int), table@).0,
            texts_put(start, pending@.take(i as int), table@).1 is None,
            refer_to_cells(start, pending@, table@.len()),
        decreases pending@.len() - i,
    {
        let entry: PendingSharedString = pending[i];
        let ghost front = pending@.take(i as int);
        proof {
            assert(pending@.take(i + 1).drop_last() =~= front);
            assert(pending@.take(i + 1).last() == entry);
            lemma_prefix_reached(start, pending@, table@, i as int);
            lemma_texts_put(start, front, table@);
        }
        match table.get(entry.index) {
            Some(t) => {
                assert(is_reached(pending@, table@.len(), i as int)) by {
                    assert forall|k: int| 0 <= k <= i implies (#[trigger] pending@[k]).index
                        < table@.len() by {
                        if k < i {
                            assert(front[k] == pending@[k]);
                        }
                    }
                }
                let value: CellValue = CellValue::Text(t.clone());
                let done: bool = sheet.set_value(entry.cell_ref, value);
                assert(done) by {
                    assert(start.cells.dom().contains(
                        sheet::origin_of(start.merges, entry.cell_ref),
                    ));
                }
            },
            None => {
                proof {
                    lemma_stop_stays(start, pending@, table@, i + 1);
                }
                return Err(
                    Error::SharedStringIndexOutOfBounds { index: entry.index, len: table.len() },
                );
            },
        }
        i += 1;
    }
    assert(pending@.take(i as int) =~= pending@);
    Ok(())
}

proof fn lemma_prefix_reached(
    s: SheetView,
    pending: Seq<PendingSharedString>,
    table: Seq<Seq<char>>,
    n: int,
)
    requires
        0 <= n <= pending.len(),
        refer_to_cells(s, pending, table.len()),
    ensures
        refer_to_cells(s, pending.take(n), table.len()),
{
    let front = pending.take(n);
    assert forall|i: int| #[trigger] is_reached(front, table.len(), i) implies s.cells.contains_key(
        sheet::origin_of(s.merges, front[i].cell_ref),
    ) by {
        assert(is_reached(pending, table.len(), i)) by {
            assert forall|k: int| 0 <= k <= i implies (#[trigger] pending[k]).index
                < table.len() by {
                assert(front[k] == pending[k]);
            }
        }
    }
}

} // verus!
