//! What the elements of a worksheet part come to, and that nothing else does.
use crate::error::ErrorView;
use crate::model::cell;
use crate::model::cell::{CellRef, CellView, DateTimeValue, ValueView};
use crate::model::range::RangeView;
use crate::model::region::MergedRegion;
use crate::model::sheet::SheetView;
use crate::number;
use crate::parse::part;
use crate::parse::rich_text;
use crate::parse::worksheet;
use crate::parse::worksheet::{
    LeafView, OpenView, PendingLinkView, PendingSharedString, PendingStyle, WorksheetParser,
    WorksheetState, WorksheetView,
};
use crate::parse::xml;
use crate::parse::xml::{EventView, TagView};
use crate::text;
use vstd::prelude::*;

verus! {

// ---------------------------------------------------------------------------
// Where elements count

/// Whether an event opens an element that carries a cell's text.
pub open spec fn opens_text(ev: EventView) -> bool {
    ev matches EventView::Start(tag) && (tag.name == "v"@ || tag.name == "is"@ || tag.name == "f"@)
}

/// Whether an end tag of the given name comes behind an event.
pub open spec fn closed_behind(events: Seq<EventView>, j: int, name: Seq<char>) -> bool {
    exists|k: int| j < k < events.len() && #[trigger] events[k] == EventView::End(name)
}

/// Whether every element that carries a cell's text has been closed.
pub open spec fn outside_text(events: Seq<EventView>) -> bool {
    forall|j: int|
        0 <= j < events.len() && opens_text(#[trigger] events[j]) ==> closed_behind(
            events,
            j,
            events[j]->Start_0.name,
        )
}

/// Whether a leaf that is open was opened at `j`, and nothing closed it since.
spec fn holds_open(events: Seq<EventView>, leaf: LeafView, j: int) -> bool {
    &&& 0 <= j < events.len()
    &&& opens_text(events[j])
    &&& leaf is Inline ==> events[j]->Start_0.name == "is"@
    &&& forall|k: int|
        j < k < events.len() ==> if leaf is Inline {
            #[trigger] events[k] != EventView::End("is"@)
        } else {
            !(#[trigger] events[k] is End)
        }
}

proof fn lemma_open_leaf(start: WorksheetState, events: Seq<EventView>, path: Seq<char>)
    requires
        start.leaf is None,
    ensures
        part::state_after::<WorksheetParser>(start, events, path) matches Ok(st) ==> (
        st.leaf matches Some(leaf) ==> exists|j: int| #[trigger] holds_open(events, leaf, j)),
    decreases events.len(),
{
    if events.len() > 0 {
        let front = events.drop_last();
        let ev = events.last();
        lemma_open_leaf(start, front, path);
        if part::state_after::<WorksheetParser>(start, events, path) is Ok {
            let before = part::state_after::<WorksheetParser>(start, front, path)->Ok_0;
            let after = part::state_after::<WorksheetParser>(start, events, path)->Ok_0;
            assert(worksheet::worksheet_step(before, ev, path) == Ok::<WorksheetState, ErrorView>(after));
            if after.leaf is Some {
                match before.leaf {
                    Some(leaf) => {
                        let j = choose|j: int| #[trigger] holds_open(front, leaf, j);
                        assert(leaf is Inline == after.leaf->0 is Inline);
                        assert(events[j] == front[j]);
                        assert(holds_open(events, after.leaf->0, j)) by {
                            assert forall|k: int| j < k < events.len() implies if after.leaf->0 is Inline {
                                #[trigger] events[k] != EventView::End("is"@)
                            } else {
                                !(#[trigger] events[k] is End)
                            } by {
                                if k < front.len() {
                                    assert(events[k] == front[k]);
                                } else {
                                    assert(events[k] == ev);
                                }
                            }
                        }
                    },
                    None => {
                        assert(events[events.len() - 1] == ev);
                        assert(holds_open(events, after.leaf->0, events.len() - 1));
                    },
                }
            }
        }
    }
}

proof fn lemma_no_leaf(start: WorksheetState, events: Seq<EventView>, path: Seq<char>)
    requires
        start.leaf is None,
        outside_text(events),
    ensures
        part::state_after::<WorksheetParser>(start, events, path) matches Ok(st) ==> st.leaf is None,
{
    lemma_open_leaf(start, events, path);
    if let Ok(st) = part::state_after::<WorksheetParser>(start, events, path) {
        if let Some(leaf) = st.leaf {
            let j = choose|j: int| #[trigger] holds_open(events, leaf, j);
            let name = events[j]->Start_0.name;
            assert(closed_behind(events, j, name));
            let k = choose|k: int|
                j < k < events.len() && #[trigger] events[k] == EventView::End(name);
            assert(events[k] is End);
        }
    }
}

/// Names of elements and types of cells that are told apart.
proof fn lemma_names()
    ensures
        "c"@ != "row"@,
        "v"@ != "row"@,
        "v"@ != "c"@,
        "is"@ != "row"@,
        "is"@ != "c"@,
        "is"@ != "v"@,
        "f"@ != "row"@,
        "f"@ != "c"@,
        "f"@ != "v"@,
        "f"@ != "is"@,
        "mergeCell"@ != "row"@,
        "mergeCell"@ != "c"@,
        "mergeCell"@ != "v"@,
        "mergeCell"@ != "is"@,
        "mergeCell"@ != "f"@,
        "sheetFormatPr"@ != "row"@,
        "sheetFormatPr"@ != "c"@,
        "sheetFormatPr"@ != "v"@,
        "sheetFormatPr"@ != "is"@,
        "sheetFormatPr"@ != "f"@,
        "sheetFormatPr"@ != "mergeCell"@,
        "col"@ != "row"@,
        "col"@ != "c"@,
        "col"@ != "v"@,
        "col"@ != "is"@,
        "col"@ != "f"@,
        "col"@ != "mergeCell"@,
        "col"@ != "sheetFormatPr"@,
        "drawing"@ != "row"@,
        "drawing"@ != "c"@,
        "drawing"@ != "v"@,
        "drawing"@ != "is"@,
        "drawing"@ != "f"@,
        "drawing"@ != "mergeCell"@,
        "drawing"@ != "sheetFormatPr"@,
        "drawing"@ != "col"@,
        "hyperlink"@ != "row"@,
        "hyperlink"@ != "c"@,
        "hyperlink"@ != "v"@,
        "hyperlink"@ != "is"@,
        "hyperlink"@ != "f"@,
        "hyperlink"@ != "mergeCell"@,
        "hyperlink"@ != "sheetFormatPr"@,
        "hyperlink"@ != "col"@,
        "hyperlink"@ != "drawing"@,
        "inlineStr"@ != "s"@,
        "n"@ != "s"@,
        "n"@ != "inlineStr"@,
        "b"@ != "s"@,
        "b"@ != "inlineStr"@,
        "b"@ != "n"@,
        "e"@ != "s"@,
        "e"@ != "inlineStr"@,
        "e"@ != "n"@,
        "e"@ != "b"@,
        "d"@ != "s"@,
        "d"@ != "inlineStr"@,
        "d"@ != "n"@,
        "d"@ != "b"@,
        "d"@ != "e"@,
{
    reveal_strlit("c");
    reveal_strlit("row");
    reveal_strlit("v");
    reveal_strlit("is");
    reveal_strlit("f");
    reveal_strlit("mergeCell");
    reveal_strlit("sheetFormatPr");
    reveal_strlit("col");
    reveal_strlit("drawing");
    reveal_strlit("hyperlink");
    reveal_strlit("inlineStr");
    reveal_strlit("s");
    reveal_strlit("n");
    reveal_strlit("b");
    reveal_strlit("e");
    reveal_strlit("d");
    assert("c"@.len() == 1
        && "row"@.len() == 3
        && "v"@.len() == 1
        && "is"@.len() == 2
        && "f"@.len() == 1
        && "mergeCell"@.len() == 9
        && "sheetFormatPr"@.len() == 13
        && "col"@.len() == 3
        && "drawing"@.len() == 7
        && "hyperlink"@.len() == 9
        && "inlineStr"@.len() == 9
        && "s"@.len() == 1
        && "n"@.len() == 1
        && "b"@.len() == 1
        && "e"@.len() == 1
        && "d"@.len() == 1);
    assert("v"@[0] != "c"@[0]
        && "f"@[0] != "c"@[0]
        && "f"@[0] != "v"@[0]
        && "col"@[0] != "row"@[0]
        && "hyperlink"@[0] != "mergeCell"@[0]
        && "n"@[0] != "s"@[0]
        && "b"@[0] != "s"@[0]
        && "b"@[0] != "n"@[0]
        && "e"@[0] != "s"@[0]
        && "e"@[0] != "n"@[0]
        && "e"@[0] != "b"@[0]
        && "d"@[0] != "s"@[0]
        && "d"@[0] != "n"@[0]
        && "d"@[0] != "b"@[0]
        && "d"@[0] != "e"@[0]);
}

/// Whether an event is the tag of an element of the given name.
pub open spec fn is_element(ev: EventView, name: Seq<char>) -> bool {
    match ev {
        EventView::Start(tag) | EventView::Empty(tag) => tag.name == name,
        _ => false,
    }
}

/// What may come of one more event: each list is added to by elements of one name.
pub open spec fn adds(w: WorksheetView, v: WorksheetView, ev: EventView) -> bool {
    &&& w.merge_regions.is_prefix_of(v.merge_regions)
    &&& w.pending_hyperlinks.is_prefix_of(v.pending_hyperlinks)
    &&& w.col_width_ranges.is_prefix_of(v.col_width_ranges)
    &&& w.pending_shared_strings.is_prefix_of(v.pending_shared_strings)
    &&& w.pending_styles.is_prefix_of(v.pending_styles)
    &&& !is_element(ev, "mergeCell"@) ==> v.merge_regions == w.merge_regions
    &&& !is_element(ev, "hyperlink"@) ==> v.pending_hyperlinks == w.pending_hyperlinks
    &&& !is_element(ev, "col"@) ==> v.col_width_ranges == w.col_width_ranges
    &&& !is_element(ev, "sheetFormatPr"@) ==> v.default_col_width == w.default_col_width
    &&& !is_element(ev, "drawing"@) ==> v.drawing_r_id == w.drawing_r_id
    &&& ev != EventView::End("c"@) && !is_element(ev, "c"@) ==> {
        &&& v.sheet == w.sheet
        &&& v.pending_shared_strings == w.pending_shared_strings
        &&& v.pending_styles == w.pending_styles
    }
}

/// What one event does to a reading besides.
spec fn moves_on(st: WorksheetState, t: WorksheetState) -> bool {
    &&& t.cell_count <= st.cell_count + 1
    &&& t.max_cells == st.max_cells
    &&& t.date1904 == st.date1904
}

proof fn lemma_flushed_adds(st: WorksheetState, c: OpenView, ev: EventView, path: Seq<char>)
    requires
        ev == EventView::End("c"@) || is_element(ev, "c"@),
    ensures
        worksheet::flushed(st, c, path) matches Ok(t) ==> adds(st.out, t.out, ev) && moves_on(st, t),
{
    lemma_names();
}

proof fn lemma_leaf_adds(st: WorksheetState, leaf: LeafView, ev: EventView, path: Seq<char>)
    ensures
        worksheet::leaf_event(st, leaf, ev, path) matches Ok(t) ==> adds(st.out, t.out, ev)
            && moves_on(st, t),
{
}

proof fn lemma_sheet_tag_adds(st: WorksheetState, tag: TagView, empty: bool, path: Seq<char>)
    ensures
        worksheet::sheet_tag(st, tag, path) matches Ok(t) ==> adds(
            st.out,
            t.out,
            xml::element(tag, empty),
        ) && moves_on(st, t),
{
    lemma_names();
}

proof fn lemma_body_adds(st: WorksheetState, tag: TagView, empty: bool, path: Seq<char>)
    ensures
        worksheet::body_tag(st, tag, empty, path) matches Ok(t) ==> adds(
            st.out,
            t.out,
            xml::element(tag, empty),
        ) && moves_on(st, t),
{
    lemma_sheet_tag_adds(st, tag, empty, path);
    if tag.name == "c"@ {
        if let Ok(c) = worksheet::opened_cell(st, tag, path) {
            let at = WorksheetState { cur_col: c.cell_ref.col, ..st };
            lemma_flushed_adds(at, c, xml::element(tag, empty), path);
        }
    }
}

proof fn lemma_step_adds(st: WorksheetState, ev: EventView, path: Seq<char>)
    ensures
        worksheet::worksheet_step(st, ev, path) matches Ok(t) ==> adds(st.out, t.out, ev)
            && moves_on(st, t),
{
    match st.leaf {
        Some(leaf) => lemma_leaf_adds(st, leaf, ev, path),
        None => match ev {
            EventView::Start(tag) => lemma_body_adds(st, tag, false, path),
            EventView::Empty(tag) => lemma_body_adds(st, tag, true, path),
            EventView::End(name) => {
                if name == "c"@ && st.cur is Some {
                    lemma_flushed_adds(WorksheetState { cur: None, ..st }, st.cur->0, ev, path);
                }
            },
            _ => {},
        },
    }
}

proof fn lemma_count(start: WorksheetState, events: Seq<EventView>, path: Seq<char>)
    ensures
        part::state_after::<WorksheetParser>(start, events, path) matches Ok(st) ==> {
            &&& st.cell_count <= start.cell_count + events.len()
            &&& st.max_cells == start.max_cells
            &&& st.date1904 == start.date1904
        },
    decreases events.len(),
{
    if events.len() > 0 {
        lemma_count(start, events.drop_last(), path);
        if let Ok(st) = part::state_after::<WorksheetParser>(start, events.drop_last(), path) {
            lemma_step_adds(st, events.last(), path);
        }
    }
}

/// What holds before the event that a law is about.
proof fn lemma_before(
    events: Seq<EventView>,
    path: Seq<char>,
    s: SheetView,
    date1904: bool,
    max_cells: usize,
)
    requires
        outside_text(events),
    ensures
        part::state_after::<WorksheetParser>(
            worksheet::no_worksheet(s, date1904, max_cells),
            events,
            path,
        ) matches Ok(st) ==> {
            &&& st.leaf is None
            &&& st.cell_count <= events.len()
            &&& st.max_cells == max_cells
            &&& st.date1904 == date1904
            &&& worksheet::worksheet_of(events, path, s, date1904, max_cells) == Ok::<
                WorksheetView,
                ErrorView,
            >(st.out)
        },
{
    let start = worksheet::no_worksheet(s, date1904, max_cells);
    lemma_no_leaf(start, events, path);
    lemma_count(start, events, path);
}

// ---------------------------------------------------------------------------
// Merged ranges, hyperlinks, column widths, the drawing

proof fn lemma_a1_has_no_colon(r: CellRef)
    ensures
        !cell::a1_text(r).contains(':'),
{
    let letters = cell::column_letters(r.col as nat);
    let digits = text::decimal(r.row as nat);
    cell::lemma_letters_of_column(r.col as nat);
    text::lemma_decimal_value(r.row as nat);
    if cell::a1_text(r).contains(':') {
        let i = cell::a1_text(r).index_of(':');
        if i < letters.len() {
            assert(text::is_upper(letters[i]));
        } else {
            assert(text::is_digit(digits[i - letters.len()]));
        }
    }
}

/// The text of an area: its two corners with a colon between.
pub open spec fn area_text(a: CellRef, b: CellRef) -> Seq<char> {
    cell::a1_text(a) + seq![':'] + cell::a1_text(b)
}

proof fn lemma_area_text(a: CellRef, b: CellRef)
    requires
        cell::on_grid(a),
        cell::on_grid(b),
    ensures
        area_text(a, b).index_of_first(':') == Some(cell::a1_text(a).len() as int),
        area_text(a, b).take(cell::a1_text(a).len() as int) == cell::a1_text(a),
        area_text(a, b).skip(cell::a1_text(a).len() as int + 1) == cell::a1_text(b),
        cell::a1_value(cell::a1_text(a)) == Some(a),
        cell::a1_value(cell::a1_text(b)) == Some(b),
        cell::a1_text(a).index_of_first(':') is None,
{
    let s = area_text(a, b);
    let n = cell::a1_text(a).len() as int;
    lemma_a1_has_no_colon(a);
    cell::law_from_a1_reads_back_to_a1(a);
    cell::law_from_a1_reads_back_to_a1(b);
    s.index_of_first_ensures(':');
    cell::a1_text(a).index_of_first_ensures(':');
    assert(s[n] == ':');
    let i = s.index_of_first(':')->0;
    if i < n {
        assert(cell::a1_text(a)[i] == s[i]);
    }
    assert(s.take(n) =~= cell::a1_text(a));
    assert(s.skip(n + 1) =~= cell::a1_text(b));
}

/// Every `mergeCell` element whose `ref` attribute is an area adds that area to the
/// merged ranges, behind those that came before it, and changes nothing else.
pub proof fn law_merged_ranges_are_read(
    events: Seq<EventView>,
    tag: TagView,
    empty: bool,
    a: CellRef,
    b: CellRef,
    path: Seq<char>,
    s: SheetView,
    date1904: bool,
    max_cells: usize,
)
    requires
        outside_text(events),
        tag.name == "mergeCell"@,
        xml::states(tag.attrs, "ref"@, area_text(a, b)),
        cell::on_grid(a),
        cell::on_grid(b),
    ensures
        worksheet::worksheet_of(events, path, s, date1904, max_cells) matches Ok(w)
            ==> worksheet::worksheet_of(
            events.push(xml::element(tag, empty)),
            path,
            s,
            date1904,
            max_cells,
        ) == Ok::<WorksheetView, ErrorView>(
            WorksheetView {
                merge_regions: w.merge_regions.push(MergedRegion { start: a, end: b }),
                ..w
            },
        ),
{
    let start = worksheet::no_worksheet(s, date1904, max_cells);
    lemma_before(events, path, s, date1904, max_cells);
    part::lemma_one_more::<WorksheetParser>(start, events, xml::element(tag, empty), path);
    xml::law_attributes_are_found_by_name(tag.attrs, path, "ref"@, area_text(a, b));
    lemma_area_text(a, b);
    lemma_names();
}

/// A merged range is added whatever its corners are written like, as long as each can be
/// read.
pub proof fn law_merged_ranges_are_read_as_written(
    events: Seq<EventView>,
    tag: TagView,
    empty: bool,
    first: Seq<char>,
    last: Seq<char>,
    a: CellRef,
    b: CellRef,
    path: Seq<char>,
    s: SheetView,
    date1904: bool,
    max_cells: usize,
)
    requires
        outside_text(events),
        tag.name == "mergeCell"@,
        xml::states(tag.attrs, "ref"@, first + seq![':'] + last),
        !first.contains(':'),
        cell::a1_value(first) == Some(a),
        cell::a1_value(last) == Some(b),
    ensures
        worksheet::worksheet_of(events, path, s, date1904, max_cells) matches Ok(w)
            ==> worksheet::worksheet_of(
            events.push(xml::element(tag, empty)),
            path,
            s,
            date1904,
            max_cells,
        ) == Ok::<WorksheetView, ErrorView>(
            WorksheetView {
                merge_regions: w.merge_regions.push(MergedRegion { start: a, end: b }),
                ..w
            },
        ),
{
    let start = worksheet::no_worksheet(s, date1904, max_cells);
    let t = first + seq![':'] + last;
    lemma_before(events, path, s, date1904, max_cells);
    part::lemma_one_more::<WorksheetParser>(start, events, xml::element(tag, empty), path);
    xml::law_attributes_are_found_by_name(tag.attrs, path, "ref"@, t);
    t.index_of_first_ensures(':');
    assert(t[first.len() as int] == ':');
    let i = t.index_of_first(':')->0;
    if i < first.len() {
        assert(t[i] == first[i]);
        assert(first.contains(first[i]));
    }
    assert(t.take(first.len() as int) =~= first);
    assert(t.skip(first.len() as int + 1) =~= last);
    lemma_names();
}

/// Each list of what a worksheet says is added to by elements of one name only, and
/// never loses what it had. Cells come with the end of a `c` element.
#[verifier::spinoff_prover]
#[verifier::rlimit(60)]
pub proof fn law_elements_add_to_their_own_list(
    events: Seq<EventView>,
    ev: EventView,
    path: Seq<char>,
    s: SheetView,
    date1904: bool,
    max_cells: usize,
)
    ensures
        ({
            let before = worksheet::worksheet_of(events, path, s, date1904, max_cells);
            let after = worksheet::worksheet_of(events.push(ev), path, s, date1904, max_cells);
            after matches Ok(v) ==> before is Ok && adds(before->Ok_0, v, ev)
        }),
{
    let start = worksheet::no_worksheet(s, date1904, max_cells);
    part::lemma_one_more::<WorksheetParser>(start, events, ev, path);
    if let Ok(st) = part::state_after::<WorksheetParser>(start, events, path) {
        lemma_step_adds(st, ev, path);
    }
}

proof fn lemma_lists_grow(
    events: Seq<EventView>,
    k: int,
    path: Seq<char>,
    s: SheetView,
    date1904: bool,
    max_cells: usize,
)
    requires
        0 <= k <= events.len(),
        worksheet::worksheet_of(events, path, s, date1904, max_cells) is Ok,
    ensures
        ({
            let before = worksheet::worksheet_of(events.take(k), path, s, date1904, max_cells);
            let w = worksheet::worksheet_of(events, path, s, date1904, max_cells)->Ok_0;
            &&& before is Ok
            &&& before->Ok_0.merge_regions.is_prefix_of(w.merge_regions)
            &&& before->Ok_0.pending_hyperlinks.is_prefix_of(w.pending_hyperlinks)
            &&& before->Ok_0.col_width_ranges.is_prefix_of(w.col_width_ranges)
        }),
    decreases events.len(),
{
    if k == events.len() {
        assert(events.take(k) =~= events);
    } else {
        let front = events.drop_last();
        assert(front.push(events.last()) =~= events);
        law_elements_add_to_their_own_list(
            front,
            events.last(),
            path,
            s,
            date1904,
            max_cells,
        );
        assert(front.take(k) =~= events.take(k));
        lemma_lists_grow(front, k, path, s, date1904, max_cells);
    }
}

proof fn lemma_last_stays<T>(front: Seq<T>, x: T, all: Seq<T>)
    requires
        front.push(x).is_prefix_of(all),
    ensures
        all.contains(x),
{
    assert(front.push(x)[front.len() as int] == x);
    assert(all[front.len() as int] == x);
}

/// A worksheet that is read has every area that one of its `mergeCell` elements states
/// among its merged ranges, wherever the element stands and whatever its shape.
pub proof fn law_no_merged_range_is_left_out(
    events: Seq<EventView>,
    i: int,
    tag: TagView,
    empty: bool,
    a: CellRef,
    b: CellRef,
    path: Seq<char>,
    s: SheetView,
    date1904: bool,
    max_cells: usize,
)
    requires
        0 <= i < events.len(),
        outside_text(events.take(i)),
        events[i] == xml::element(tag, empty),
        tag.name == "mergeCell"@,
        xml::states(tag.attrs, "ref"@, area_text(a, b)),
        cell::on_grid(a),
        cell::on_grid(b),
    ensures
        worksheet::worksheet_of(events, path, s, date1904, max_cells) matches Ok(w)
            ==> w.merge_regions.contains(MergedRegion { start: a, end: b }),
{
    let all = worksheet::worksheet_of(events, path, s, date1904, max_cells);
    if all is Ok {
        let front = events.take(i);
        lemma_lists_grow(events, i, path, s, date1904, max_cells);
        lemma_lists_grow(events, i + 1, path, s, date1904, max_cells);
        law_merged_ranges_are_read(front, tag, empty, a, b, path, s, date1904, max_cells);
        assert(front.push(events[i]) =~= events.take(i + 1));
        let w = worksheet::worksheet_of(front, path, s, date1904, max_cells)->Ok_0;
        lemma_last_stays(
            w.merge_regions,
            MergedRegion { start: a, end: b },
            all->Ok_0.merge_regions,
        );
    }
}

/// A worksheet that is read has every hyperlink that one of its `hyperlink` elements
/// states.
pub proof fn law_no_hyperlink_is_left_out(
    events: Seq<EventView>,
    i: int,
    tag: TagView,
    empty: bool,
    link: PendingLinkView,
    path: Seq<char>,
    s: SheetView,
    date1904: bool,
    max_cells: usize,
)
    requires
        0 <= i < events.len(),
        outside_text(events.take(i)),
        events[i] == xml::element(tag, empty),
        tag.name == "hyperlink"@,
        xml::states(tag.attrs, "ref"@, area_text(link.start, link.end)) || (link.start == link.end
            && xml::states(tag.attrs, "ref"@, cell::a1_text(link.start))),
        cell::on_grid(link.start),
        cell::on_grid(link.end),
        xml::states_opt(tag.attrs, "r:id"@, link.r_id),
        xml::states_opt(tag.attrs, "location"@, link.location),
        xml::states_opt(tag.attrs, "tooltip"@, link.tooltip),
    ensures
        worksheet::worksheet_of(events, path, s, date1904, max_cells) matches Ok(w)
            ==> w.pending_hyperlinks.contains(link),
{
    let all = worksheet::worksheet_of(events, path, s, date1904, max_cells);
    if all is Ok {
        let front = events.take(i);
        lemma_lists_grow(events, i, path, s, date1904, max_cells);
        lemma_lists_grow(events, i + 1, path, s, date1904, max_cells);
        law_hyperlinks_are_read(front, tag, empty, link, path, s, date1904, max_cells);
        assert(front.push(events[i]) =~= events.take(i + 1));
        let w = worksheet::worksheet_of(front, path, s, date1904, max_cells)->Ok_0;
        lemma_last_stays(w.pending_hyperlinks, link, all->Ok_0.pending_hyperlinks);
    }
}

/// Every `hyperlink` element adds a hyperlink over the cell, or the area, of its `ref`
/// attribute, with the identifier, location and tooltip that it states, and changes
/// nothing else.
pub proof fn law_hyperlinks_are_read(
    events: Seq<EventView>,
    tag: TagView,
    empty: bool,
    link: PendingLinkView,
    path: Seq<char>,
    s: SheetView,
    date1904: bool,
    max_cells: usize,
)
    requires
        outside_text(events),
        tag.name == "hyperlink"@,
        xml::states(tag.attrs, "ref"@, area_text(link.start, link.end)) || (link.start == link.end
            && xml::states(tag.attrs, "ref"@, cell::a1_text(link.start))),
        cell::on_grid(link.start),
        cell::on_grid(link.end),
        xml::states_opt(tag.attrs, "r:id"@, link.r_id),
        xml::states_opt(tag.attrs, "location"@, link.location),
        xml::states_opt(tag.attrs, "tooltip"@, link.tooltip),
    ensures
        worksheet::worksheet_of(events, path, s, date1904, max_cells) matches Ok(w)
            ==> worksheet::worksheet_of(
            events.push(xml::element(tag, empty)),
            path,
            s,
            date1904,
            max_cells,
        ) == Ok::<WorksheetView, ErrorView>(
            WorksheetView { pending_hyperlinks: w.pending_hyperlinks.push(link), ..w },
        ),
{
    let start = worksheet::no_worksheet(s, date1904, max_cells);
    lemma_before(events, path, s, date1904, max_cells);
    part::lemma_one_more::<WorksheetParser>(start, events, xml::element(tag, empty), path);
    xml::law_attributes_are_found_by_name(
        tag.attrs,
        path,
        "ref"@,
        area_text(link.start, link.end),
    );
    xml::law_attributes_are_found_by_name(tag.attrs, path, "ref"@, cell::a1_text(link.start));
    xml::lemma_attribute(tag.attrs, path, "r:id"@, link.r_id);
    xml::lemma_attribute(tag.attrs, path, "location"@, link.location);
    xml::lemma_attribute(tag.attrs, path, "tooltip"@, link.tooltip);
    lemma_area_text(link.start, link.end);
    lemma_names();
}

/// Every `col` element that states a width gives that width to the columns from `min`
/// to `max`; one that states none changes nothing.
pub proof fn law_column_widths_are_read(
    events: Seq<EventView>,
    tag: TagView,
    empty: bool,
    range: RangeView,
    path: Seq<char>,
    s: SheetView,
    date1904: bool,
    max_cells: usize,
)
    requires
        outside_text(events),
        tag.name == "col"@,
    ensures
        ({
            let before = worksheet::worksheet_of(events, path, s, date1904, max_cells);
            let after = worksheet::worksheet_of(
                events.push(xml::element(tag, empty)),
                path,
                s,
                date1904,
                max_cells,
            );
            before matches Ok(w) ==> {
                &&& xml::all_named_otherwise(tag.attrs, "width"@) ==> after == before
                &&& xml::states(tag.attrs, "min"@, text::decimal(range.min as nat)) && xml::states(
                    tag.attrs,
                    "max"@,
                    text::decimal(range.max as nat),
                ) && xml::states(tag.attrs, "width"@, range.size) && number::is_float_literal(
                    range.size,
                ) ==> after == Ok::<WorksheetView, ErrorView>(
                    WorksheetView { col_width_ranges: w.col_width_ranges.push(range), ..w },
                )
            }
        }),
{
    let start = worksheet::no_worksheet(s, date1904, max_cells);
    lemma_before(events, path, s, date1904, max_cells);
    part::lemma_one_more::<WorksheetParser>(start, events, xml::element(tag, empty), path);
    let min = text::decimal(range.min as nat);
    let max = text::decimal(range.max as nat);
    xml::law_attributes_are_found_by_name(tag.attrs, path, "width"@, range.size);
    xml::law_attributes_are_found_by_name(tag.attrs, path, "min"@, min);
    xml::law_attributes_are_found_by_name(tag.attrs, path, "max"@, max);
    text::law_decimal_notation_reads_back(range.min as nat, u32::MAX as int);
    text::law_decimal_notation_reads_back(range.max as nat, u32::MAX as int);
    lemma_names();
}

/// The last `sheetFormatPr` element that states a default column width, and the last
/// `drawing` element, are what counts.
pub proof fn law_default_width_and_drawing_are_read(
    events: Seq<EventView>,
    tag: TagView,
    empty: bool,
    value: Seq<char>,
    path: Seq<char>,
    s: SheetView,
    date1904: bool,
    max_cells: usize,
)
    requires
        outside_text(events),
    ensures
        ({
            let before = worksheet::worksheet_of(events, path, s, date1904, max_cells);
            let after = worksheet::worksheet_of(
                events.push(xml::element(tag, empty)),
                path,
                s,
                date1904,
                max_cells,
            );
            before matches Ok(w) ==> {
                &&& tag.name == "sheetFormatPr"@ && xml::all_named_otherwise(
                    tag.attrs,
                    "defaultColWidth"@,
                ) ==> after == before
                &&& tag.name == "sheetFormatPr"@ && xml::states(
                    tag.attrs,
                    "defaultColWidth"@,
                    value,
                ) && number::is_float_literal(value) ==> after == Ok::<WorksheetView, ErrorView>(
                    WorksheetView { default_col_width: Some(value), ..w },
                )
                &&& tag.name == "drawing"@ && xml::states(tag.attrs, "r:id"@, value) ==> after
                    == Ok::<WorksheetView, ErrorView>(
                    WorksheetView { drawing_r_id: Some(value), ..w },
                )
            }
        }),
{
    let start = worksheet::no_worksheet(s, date1904, max_cells);
    lemma_before(events, path, s, date1904, max_cells);
    part::lemma_one_more::<WorksheetParser>(start, events, xml::element(tag, empty), path);
    xml::law_attributes_are_found_by_name(tag.attrs, path, "defaultColWidth"@, value);
    xml::law_attributes_are_found_by_name(tag.attrs, path, "r:id"@, value);
    lemma_names();
}

// ---------------------------------------------------------------------------
// Cells

/// The events of a cell with a value element.
pub open spec fn value_cell(tag: TagView, v: TagView, body: Seq<EventView>) -> Seq<EventView> {
    seq![EventView::Start(tag), EventView::Start(v)] + body + seq![
        EventView::End("v"@),
        EventView::End("c"@),
    ]
}

/// The events of a cell with an inline string.
pub open spec fn inline_cell(tag: TagView, is: TagView, inside: Seq<EventView>) -> Seq<EventView> {
    seq![EventView::Start(tag), EventView::Start(is)] + inside + seq![
        EventView::End("is"@),
        EventView::End("c"@),
    ]
}

proof fn lemma_value_text(
    st: WorksheetState,
    so_far: Seq<char>,
    body: Seq<EventView>,
    path: Seq<char>,
)
    requires
        st.leaf == Some(LeafView::Value(so_far)),
        xml::carried_text(body) is Some,
    ensures
        part::state_after::<WorksheetParser>(st, body, path) == Ok::<WorksheetState, ErrorView>(
            WorksheetState {
                leaf: Some(LeafView::Value(so_far + xml::carried_text(body)->0)),
                ..st
            },
        ),
    decreases body.len(),
{
    if body.len() == 0 {
        assert(so_far + Seq::<char>::empty() =~= so_far);
    } else {
        let front = body.drop_last();
        lemma_value_text(st, so_far, front, path);
        let before = so_far + xml::carried_text(front)->0;
        let added = match body.last() {
            EventView::Text(Some(t)) => t,
            EventView::Ref(r) => xml::reference_text(r)->0,
            _ => Seq::empty(),
        };
        assert(xml::carried_text(body)->0 =~= xml::carried_text(front)->0 + added);
        assert(before + added =~= so_far + xml::carried_text(body)->0);
    }
}

#[verifier::spinoff_prover]
#[verifier::rlimit(60)]
proof fn lemma_value_cell(
    st: WorksheetState,
    tag: TagView,
    v: TagView,
    body: Seq<EventView>,
    c: OpenView,
    path: Seq<char>,
)
    requires
        st.leaf is None,
        tag.name == "c"@,
        v.name == "v"@,
        xml::carried_text(body) is Some,
        worksheet::opened_cell(st, tag, path) == Ok::<OpenView, ErrorView>(c),
    ensures
        part::state_after::<WorksheetParser>(st, value_cell(tag, v, body), path)
            == worksheet::flushed(
            WorksheetState { cur: None, cur_col: c.cell_ref.col, ..st },
            OpenView { value: xml::carried_text(body), ..c },
            path,
        ),
{
    let open = seq![EventView::Start(tag), EventView::Start(v)];
    let close = seq![EventView::End("v"@), EventView::End("c"@)];
    let t = xml::carried_text(body)->0;
    lemma_names();
    part::lemma_continued::<WorksheetParser>(st, open + body, close, path);
    part::lemma_continued::<WorksheetParser>(st, open, body, path);
    let at = WorksheetState { cur: Some(c), cur_col: c.cell_ref.col, ..st };
    part::lemma_step_at::<WorksheetParser>(st, open, path, 0);
    part::lemma_step_at::<WorksheetParser>(st, open, path, 1);
    assert(part::state_after::<WorksheetParser>(st, open.take(1), path) == Ok::<
        WorksheetState,
        ErrorView,
    >(at));
    let ready = WorksheetState { leaf: Some(LeafView::Value(Seq::empty())), ..at };
    assert(part::state_after::<WorksheetParser>(st, open, path) == Ok::<WorksheetState, ErrorView>(
        ready,
    ));
    lemma_value_text(ready, Seq::empty(), body, path);
    assert(Seq::<char>::empty() + t =~= t);
    let full = WorksheetState { leaf: Some(LeafView::Value(t)), ..at };
    part::lemma_step_at::<WorksheetParser>(full, close, path, 0);
    part::lemma_step_at::<WorksheetParser>(full, close, path, 1);
    let filled = WorksheetState { cur: Some(OpenView { value: Some(t), ..c }), ..at };
    assert(part::state_after::<WorksheetParser>(full, close.take(1), path) == Ok::<
        WorksheetState,
        ErrorView,
    >(filled));
}

proof fn lemma_inline_gathers(
    st: WorksheetState,
    rich: rich_text::RichView,
    inside: Seq<EventView>,
    path: Seq<char>,
)
    requires
        st.leaf == Some(LeafView::Inline(rich)),
        forall|i: int|
            0 <= i < inside.len() ==> !rich_text::ends_rich_text(#[trigger] inside[i]) && !(
            inside[i] is DocType) && !(inside[i] is Failure) && !(inside[i] is OverCap),
        rich_text::gathered(rich, inside, path) is Ok,
    ensures
        part::state_after::<WorksheetParser>(st, inside, path) == Ok::<WorksheetState, ErrorView>(
            WorksheetState {
                leaf: Some(LeafView::Inline(rich_text::gathered(rich, inside, path)->Ok_0)),
                ..st
            },
        ),
    decreases inside.len(),
{
    if inside.len() > 0 {
        let front = inside.drop_last();
        assert forall|i: int| 0 <= i < front.len() implies !rich_text::ends_rich_text(
            #[trigger] front[i],
        ) && !(front[i] is DocType) && !(front[i] is Failure) && !(front[i] is OverCap) by {
            assert(front[i] == inside[i]);
        }
        assert(inside[inside.len() - 1] == inside.last());
        lemma_inline_gathers(st, rich, front, path);
    }
}

#[verifier::spinoff_prover]
#[verifier::rlimit(60)]
proof fn lemma_inline_cell(
    st: WorksheetState,
    tag: TagView,
    is: TagView,
    inside: Seq<EventView>,
    t: Seq<char>,
    c: OpenView,
    path: Seq<char>,
)
    requires
        st.leaf is None,
        tag.name == "c"@,
        is.name == "is"@,
        rich_text::adds_text(inside, t),
        worksheet::opened_cell(st, tag, path) == Ok::<OpenView, ErrorView>(c),
    ensures
        part::state_after::<WorksheetParser>(st, inline_cell(tag, is, inside), path)
            == worksheet::flushed(
            WorksheetState { cur: None, cur_col: c.cell_ref.col, ..st },
            OpenView { inline: Some(rich_text::restored(t)), ..c },
            path,
        ),
{
    let open = seq![EventView::Start(tag), EventView::Start(is)];
    let close = seq![EventView::End("is"@), EventView::End("c"@)];
    lemma_names();
    part::lemma_continued::<WorksheetParser>(st, open + inside, close, path);
    part::lemma_continued::<WorksheetParser>(st, open, inside, path);
    let at = WorksheetState { cur: Some(c), cur_col: c.cell_ref.col, ..st };
    let item = rich_text::no_rich_text();
    part::lemma_step_at::<WorksheetParser>(st, open, path, 0);
    part::lemma_step_at::<WorksheetParser>(st, open, path, 1);
    assert(part::state_after::<WorksheetParser>(st, open.take(1), path) == Ok::<
        WorksheetState,
        ErrorView,
    >(at));
    let ready = WorksheetState { leaf: Some(LeafView::Inline(item)), ..at };
    assert(part::state_after::<WorksheetParser>(st, open, path) == Ok::<WorksheetState, ErrorView>(
        ready,
    ));
    assert(rich_text::is_between(item));
    assert(rich_text::gathered(item, inside, path) is Ok);
    lemma_inline_gathers(ready, item, inside, path);
    let gathered = rich_text::gathered(item, inside, path)->Ok_0;
    assert(gathered.text =~= t);
    let full = WorksheetState { leaf: Some(LeafView::Inline(gathered)), ..at };
    part::lemma_step_at::<WorksheetParser>(full, close, path, 0);
    part::lemma_step_at::<WorksheetParser>(full, close, path, 1);
    rich_text::lemma_end_of_item(gathered, path);
    let filled = WorksheetState {
        cur: Some(OpenView { inline: Some(rich_text::restored(t)), ..c }),
        ..at
    };
    assert(part::state_after::<WorksheetParser>(full, close.take(1), path) == Ok::<
        WorksheetState,
        ErrorView,
    >(filled));
}

/// Whether a text is another one with white space around it.
pub open spec fn is_with_margins(t: Seq<char>, core: Seq<char>) -> bool {
    &&& text::has_no_margin(core)
    &&& exists|before: Seq<char>, after: Seq<char>|
        text::all_white(before) && text::all_white(after) && t == #[trigger] (before + core + after)
}

/// Whether the fields of a date and time have values that a calendar and a clock have.
pub open spec fn has_clock_fields(t: DateTimeValue) -> bool {
    0 <= t.year && 1 <= t.month <= 12 && 1 <= t.day <= 31 && t.hour <= 23 && t.minute <= 59
        && t.second <= 59
}

/// What the text of a cell's value element means, by the type that the cell states. A
/// number is what stands there, sign and all, without the white space around it.
pub open spec fn means(kind: Option<Seq<char>>, t: Seq<char>, value: ValueView) -> bool {
    match value {
        ValueView::Number(n) => (kind is None || kind == Some("n"@)) && number::is_float_literal(n)
            && is_with_margins(t, n),
        ValueView::Boolean(b) => kind == Some("b"@) && b == (t == seq!['1']),
        ValueView::Error(e) => kind == Some("e"@) && e == t,
        ValueView::DateTime(d) => kind == Some("d"@) && t == crate::json::date_time_text(d)
            && has_clock_fields(d),
        ValueView::Text(x) => kind is Some && kind != Some("n"@) && kind != Some("b"@) && kind
            != Some("e"@) && kind != Some("d"@) && kind != Some("s"@) && kind != Some("inlineStr"@)
            && x == t,
    }
}

proof fn lemma_means(c: OpenView, value: ValueView, path: Seq<char>, date1904: bool)
    requires
        c.value is Some,
        means(c.cell_type, c.value->0, value),
    ensures
        worksheet::cell_value(c, path, date1904) == Ok::<Option<ValueView>, ErrorView>(Some(value)),
{
    lemma_names();
    let t = c.value->0;
    match value {
        ValueView::Number(n) => {
            let (before, after) = choose|before: Seq<char>, after: Seq<char>|
                text::all_white(before) && text::all_white(after) && t == #[trigger] (before + n
                    + after);
            text::law_trimming_takes_off_margins(before, n, after);
        },
        ValueView::Boolean(_) => {
            reveal_strlit("1");
            assert("1"@ =~= seq!['1']);
        },
        ValueView::DateTime(d) => {
            crate::json::law_written_dates_read_back(d, date1904);
        },
        _ => {},
    }
}

/// A worksheet with one more cell, which may refer to a style.
pub open spec fn with_read_cell(
    w: WorksheetView,
    r: CellRef,
    value: Option<ValueView>,
    style: Option<u32>,
) -> WorksheetView {
    WorksheetView {
        sheet: SheetView {
            cells: w.sheet.cells.insert(r, CellView { value, style: None }),
            max_row: if w.sheet.max_row >= r.row {
                w.sheet.max_row
            } else {
                r.row
            },
            max_col: if w.sheet.max_col >= r.col {
                w.sheet.max_col
            } else {
                r.col
            },
            ..w.sheet
        },
        pending_styles: match style {
            Some(id) => w.pending_styles.push(PendingStyle { cell_ref: r, style_id: id }),
            None => w.pending_styles,
        },
        ..w
    }
}

/// The text of an optional number in decimal notation.
pub open spec fn decimal_opt(n: Option<u32>) -> Option<Seq<char>> {
    match n {
        Some(n) => Some(text::decimal(n as nat)),
        None => None,
    }
}

/// Whether a `c` element states coordinates, a type and a style.
pub open spec fn states_cell(
    tag: TagView,
    r: CellRef,
    kind: Option<Seq<char>>,
    style: Option<u32>,
) -> bool {
    &&& tag.name == "c"@
    &&& cell::on_grid(r)
    &&& xml::states(tag.attrs, "r"@, cell::a1_text(r))
    &&& xml::states_opt(tag.attrs, "t"@, kind)
    &&& xml::states_opt(tag.attrs, "s"@, decimal_opt(style))
}

proof fn lemma_opened(
    st: WorksheetState,
    tag: TagView,
    r: CellRef,
    kind: Option<Seq<char>>,
    style: Option<u32>,
    path: Seq<char>,
)
    requires
        states_cell(tag, r, kind, style),
    ensures
        worksheet::opened_cell(st, tag, path) == Ok::<OpenView, ErrorView>(
            OpenView { cell_ref: r, cell_type: kind, style_id: style, value: None, inline: None },
        ),
{
    xml::law_attributes_are_found_by_name(tag.attrs, path, "r"@, cell::a1_text(r));
    xml::lemma_attribute(tag.attrs, path, "t"@, kind);
    xml::lemma_attribute(tag.attrs, path, "s"@, decimal_opt(style));
    cell::law_from_a1_reads_back_to_a1(r);
    if let Some(id) = style {
        text::law_decimal_notation_reads_back(id as nat, u32::MAX as int);
    }
}

/// A cell with a value element is put on the sheet where it says, with the value that
/// its text means for the type that it states: numbers keep their text, sign included,
/// `1` is true and any other truth value false, errors and other texts stay as they
/// are written, and dates are those that were written down. The style that it refers
/// to is noted.
pub proof fn law_cells_hold_the_value_they_state(
    events: Seq<EventView>,
    tag: TagView,
    v: TagView,
    body: Seq<EventView>,
    r: CellRef,
    kind: Option<Seq<char>>,
    style: Option<u32>,
    value: ValueView,
    path: Seq<char>,
    s: SheetView,
    date1904: bool,
    max_cells: usize,
)
    requires
        outside_text(events),
        events.len() < max_cells,
        states_cell(tag, r, kind, style),
        v.name == "v"@,
        xml::carried_text(body) is Some,
        means(kind, xml::carried_text(body)->0, value),
    ensures
        worksheet::worksheet_of(events, path, s, date1904, max_cells) matches Ok(w)
            ==> worksheet::worksheet_of(
            events + value_cell(tag, v, body),
            path,
            s,
            date1904,
            max_cells,
        ) == Ok::<WorksheetView, ErrorView>(with_read_cell(w, r, Some(value), style)),
{
    let start = worksheet::no_worksheet(s, date1904, max_cells);
    lemma_before(events, path, s, date1904, max_cells);
    part::lemma_continued::<WorksheetParser>(start, events, value_cell(tag, v, body), path);
    lemma_names();
    if let Ok(st) = part::state_after::<WorksheetParser>(start, events, path) {
        lemma_opened(st, tag, r, kind, style, path);
        let c = OpenView {
            cell_ref: r,
            cell_type: kind,
            style_id: style,
            value: None,
            inline: None,
        };
        lemma_value_cell(st, tag, v, body, c, path);
        lemma_means(OpenView { value: xml::carried_text(body), ..c }, value, path, date1904);
    }
}

/// A cell of the shared string type has no value yet, and the index that its text
/// states, with or without white space around it, is noted for it.
pub proof fn law_shared_cells_refer_to_their_string(
    events: Seq<EventView>,
    tag: TagView,
    v: TagView,
    body: Seq<EventView>,
    r: CellRef,
    index: usize,
    style: Option<u32>,
    path: Seq<char>,
    s: SheetView,
    date1904: bool,
    max_cells: usize,
)
    requires
        outside_text(events),
        events.len() < max_cells,
        states_cell(tag, r, Some("s"@), style),
        v.name == "v"@,
        xml::carried_text(body) is Some,
        is_with_margins(xml::carried_text(body)->0, text::decimal(index as nat)),
    ensures
        worksheet::worksheet_of(events, path, s, date1904, max_cells) matches Ok(w)
            ==> worksheet::worksheet_of(
            events + value_cell(tag, v, body),
            path,
            s,
            date1904,
            max_cells,
        ) == Ok::<WorksheetView, ErrorView>(
            WorksheetView {
                pending_shared_strings: w.pending_shared_strings.push(
                    PendingSharedString { cell_ref: r, index },
                ),
                ..with_read_cell(w, r, None, style)
            },
        ),
{
    let start = worksheet::no_worksheet(s, date1904, max_cells);
    let core = text::decimal(index as nat);
    lemma_before(events, path, s, date1904, max_cells);
    part::lemma_continued::<WorksheetParser>(start, events, value_cell(tag, v, body), path);
    lemma_names();
    if let Ok(st) = part::state_after::<WorksheetParser>(start, events, path) {
        lemma_opened(st, tag, r, Some("s"@), style, path);
        let c = OpenView {
            cell_ref: r,
            cell_type: Some("s"@),
            style_id: style,
            value: None,
            inline: None,
        };
        lemma_value_cell(st, tag, v, body, c, path);
        let t = xml::carried_text(body)->0;
        let (before, after) = choose|before: Seq<char>, after: Seq<char>|
            text::all_white(before) && text::all_white(after) && t == #[trigger] (before + core
                + after);
        text::law_trimming_takes_off_margins(before, core, after);
        text::law_decimal_notation_reads_back(index as nat, usize::MAX as int);
    }
}

/// A cell with an inline string holds the text that its runs add up to, with carriage
/// returns restored.
pub proof fn law_inline_cells_hold_their_text(
    events: Seq<EventView>,
    tag: TagView,
    is: TagView,
    inside: Seq<EventView>,
    t: Seq<char>,
    r: CellRef,
    style: Option<u32>,
    path: Seq<char>,
    s: SheetView,
    date1904: bool,
    max_cells: usize,
)
    requires
        outside_text(events),
        events.len() < max_cells,
        states_cell(tag, r, Some("inlineStr"@), style),
        is.name == "is"@,
        rich_text::adds_text(inside, t),
    ensures
        worksheet::worksheet_of(events, path, s, date1904, max_cells) matches Ok(w)
            ==> worksheet::worksheet_of(
            events + inline_cell(tag, is, inside),
            path,
            s,
            date1904,
            max_cells,
        ) == Ok::<WorksheetView, ErrorView>(
            with_read_cell(w, r, Some(ValueView::Text(rich_text::restored(t))), style),
        ),
{
    let start = worksheet::no_worksheet(s, date1904, max_cells);
    lemma_before(events, path, s, date1904, max_cells);
    part::lemma_continued::<WorksheetParser>(start, events, inline_cell(tag, is, inside), path);
    lemma_names();
    if let Ok(st) = part::state_after::<WorksheetParser>(start, events, path) {
        lemma_opened(st, tag, r, Some("inlineStr"@), style, path);
        let c = OpenView {
            cell_ref: r,
            cell_type: Some("inlineStr"@),
            style_id: style,
            value: None,
            inline: None,
        };
        lemma_inline_cell(st, tag, is, inside, t, c, path);
    }
}

/// A cell without content is put on the sheet, blank, if it refers to a style, and
/// leaves no trace otherwise.
pub proof fn law_cells_without_content_keep_their_style(
    events: Seq<EventView>,
    tag: TagView,
    r: CellRef,
    kind: Option<Seq<char>>,
    style: Option<u32>,
    path: Seq<char>,
    s: SheetView,
    date1904: bool,
    max_cells: usize,
)
    requires
        outside_text(events),
        events.len() < max_cells,
        states_cell(tag, r, kind, style),
        kind != Some("s"@),
    ensures
        worksheet::worksheet_of(events, path, s, date1904, max_cells) matches Ok(w)
            ==> worksheet::worksheet_of(
            events.push(EventView::Empty(tag)),
            path,
            s,
            date1904,
            max_cells,
        ) == Ok::<WorksheetView, ErrorView>(
            if style is Some {
                with_read_cell(w, r, None, style)
            } else {
                w
            },
        ),
{
    let start = worksheet::no_worksheet(s, date1904, max_cells);
    lemma_before(events, path, s, date1904, max_cells);
    part::lemma_one_more::<WorksheetParser>(start, events, EventView::Empty(tag), path);
    lemma_names();
    if let Ok(st) = part::state_after::<WorksheetParser>(start, events, path) {
        lemma_opened(st, tag, r, kind, style, path);
    }
}

/// Whether a `c` element states a type and a style, and no coordinates.
pub open spec fn states_next_cell(
    tag: TagView,
    kind: Option<Seq<char>>,
    style: Option<u32>,
) -> bool {
    &&& tag.name == "c"@
    &&& xml::all_named_otherwise(tag.attrs, "r"@)
    &&& xml::states_opt(tag.attrs, "t"@, kind)
    &&& xml::states_opt(tag.attrs, "s"@, decimal_opt(style))
}

proof fn lemma_opened_next(
    st: WorksheetState,
    tag: TagView,
    kind: Option<Seq<char>>,
    style: Option<u32>,
    path: Seq<char>,
)
    requires
        states_next_cell(tag, kind, style),
        1 <= st.cur_row,
        st.cur_col < CellRef::MAX_COL,
    ensures
        worksheet::opened_cell(st, tag, path) == Ok::<OpenView, ErrorView>(
            OpenView {
                cell_ref: CellRef { row: st.cur_row, col: (st.cur_col + 1) as u32 },
                cell_type: kind,
                style_id: style,
                value: None,
                inline: None,
            },
        ),
{
    xml::lemma_attribute(tag.attrs, path, "r"@, None);
    xml::lemma_attribute(tag.attrs, path, "t"@, kind);
    xml::lemma_attribute(tag.attrs, path, "s"@, decimal_opt(style));
    if let Some(id) = style {
        text::law_decimal_notation_reads_back(id as nat, u32::MAX as int);
    }
}

proof fn lemma_value_put(
    st: WorksheetState,
    tag: TagView,
    v: TagView,
    body: Seq<EventView>,
    c: OpenView,
    value: ValueView,
    path: Seq<char>,
)
    requires
        st.leaf is None,
        st.cell_count < st.max_cells,
        tag.name == "c"@,
        v.name == "v"@,
        xml::carried_text(body) is Some,
        worksheet::opened_cell(st, tag, path) == Ok::<OpenView, ErrorView>(c),
        c.value is None,
        c.inline is None,
        means(c.cell_type, xml::carried_text(body)->0, value),
    ensures
        part::state_after::<WorksheetParser>(st, value_cell(tag, v, body), path) == Ok::<
            WorksheetState,
            ErrorView,
        >(
            WorksheetState {
                out: with_read_cell(st.out, c.cell_ref, Some(value), c.style_id),
                cell_count: (st.cell_count + 1) as usize,
                cur: None,
                cur_col: c.cell_ref.col,
                ..st
            },
        ),
{
    lemma_names();
    lemma_value_cell(st, tag, v, body, c, path);
    lemma_means(OpenView { value: xml::carried_text(body), ..c }, value, path, st.date1904);
}

/// A `row` element: its row, stated or not.
pub open spec fn states_row(tag: TagView, row: Option<u32>) -> bool {
    tag.name == "row"@ && xml::states_opt(tag.attrs, "r"@, decimal_opt(row))
}

proof fn lemma_row_tag(st: WorksheetState, tag: TagView, row: Option<u32>, path: Seq<char>)
    requires
        st.leaf is None,
        states_row(tag, row),
        match row {
            Some(n) => 1 <= n <= CellRef::MAX_ROW,
            None => st.cur_row < CellRef::MAX_ROW,
        },
    ensures
        part::state_after::<WorksheetParser>(st, seq![EventView::Start(tag)], path) == Ok::<
            WorksheetState,
            ErrorView,
        >(
            WorksheetState {
                cur_row: match row {
                    Some(n) => n,
                    None => (st.cur_row + 1) as u32,
                },
                cur_col: 0,
                ..st
            },
        ),
{
    let events = seq![EventView::Start(tag)];
    part::lemma_step_at::<WorksheetParser>(st, events, path, 0);
    assert(events.take(1) =~= events);
    xml::lemma_attribute(tag.attrs, path, "r"@, decimal_opt(row));
    if let Some(n) = row {
        text::law_decimal_notation_reads_back(n as nat, u32::MAX as int);
    }
}

/// A cell that states no coordinates comes into the first column of the row that the
/// row element states, and one behind another cell into the column next to that one.
#[verifier::spinoff_prover]
#[verifier::rlimit(60)]
pub proof fn law_cells_follow_one_another(
    events: Seq<EventView>,
    row: TagView,
    n: u32,
    first: TagView,
    second: TagView,
    v: TagView,
    body: Seq<EventView>,
    kind: Option<Seq<char>>,
    style: Option<u32>,
    value: ValueView,
    path: Seq<char>,
    s: SheetView,
    date1904: bool,
    max_cells: usize,
)
    requires
        outside_text(events),
        events.len() + 1 < max_cells,
        states_row(row, Some(n)),
        1 <= n <= CellRef::MAX_ROW,
        states_next_cell(first, kind, style),
        states_next_cell(second, kind, style),
        v.name == "v"@,
        xml::carried_text(body) is Some,
        means(kind, xml::carried_text(body)->0, value),
    ensures
        worksheet::worksheet_of(events, path, s, date1904, max_cells) matches Ok(w)
            ==> worksheet::worksheet_of(
            events + (seq![EventView::Start(row)] + value_cell(first, v, body) + value_cell(
                second,
                v,
                body,
            )),
            path,
            s,
            date1904,
            max_cells,
        ) == Ok::<WorksheetView, ErrorView>(
            with_read_cell(
                with_read_cell(w, CellRef { row: n, col: 1 }, Some(value), style),
                CellRef { row: n, col: 2 },
                Some(value),
                style,
            ),
        ),
{
    let start = worksheet::no_worksheet(s, date1904, max_cells);
    let a = seq![EventView::Start(row)];
    let b = value_cell(first, v, body);
    let c = value_cell(second, v, body);
    lemma_before(events, path, s, date1904, max_cells);
    part::lemma_continued::<WorksheetParser>(start, events, a + b + c, path);
    if let Ok(st) = part::state_after::<WorksheetParser>(start, events, path) {
        part::lemma_continued::<WorksheetParser>(st, a + b, c, path);
        part::lemma_continued::<WorksheetParser>(st, a, b, path);
        lemma_row_tag(st, row, Some(n), path);
        let st1 = WorksheetState { cur_row: n, cur_col: 0, ..st };
        lemma_opened_next(st1, first, kind, style, path);
        let c1 = worksheet::opened_cell(st1, first, path)->Ok_0;
        lemma_value_put(st1, first, v, body, c1, value, path);
        let st2 = part::state_after::<WorksheetParser>(st1, b, path)->Ok_0;
        lemma_opened_next(st2, second, kind, style, path);
        let c2 = worksheet::opened_cell(st2, second, path)->Ok_0;
        lemma_value_put(st2, second, v, body, c2, value, path);
    }
}

/// A cell that states no coordinates, behind one that does, comes into the column next
/// to it, and into the row of the row element.
#[verifier::spinoff_prover]
#[verifier::rlimit(60)]
pub proof fn law_cells_follow_stated_ones(
    events: Seq<EventView>,
    row: TagView,
    n: u32,
    first: TagView,
    r: CellRef,
    second: TagView,
    v: TagView,
    body: Seq<EventView>,
    kind: Option<Seq<char>>,
    style: Option<u32>,
    value: ValueView,
    path: Seq<char>,
    s: SheetView,
    date1904: bool,
    max_cells: usize,
)
    requires
        outside_text(events),
        events.len() + 1 < max_cells,
        states_row(row, Some(n)),
        1 <= n <= CellRef::MAX_ROW,
        states_cell(first, r, kind, style),
        r.col < CellRef::MAX_COL,
        states_next_cell(second, kind, style),
        v.name == "v"@,
        xml::carried_text(body) is Some,
        means(kind, xml::carried_text(body)->0, value),
    ensures
        worksheet::worksheet_of(events, path, s, date1904, max_cells) matches Ok(w)
            ==> worksheet::worksheet_of(
            events + (seq![EventView::Start(row)] + value_cell(first, v, body) + value_cell(
                second,
                v,
                body,
            )),
            path,
            s,
            date1904,
            max_cells,
        ) == Ok::<WorksheetView, ErrorView>(
            with_read_cell(
                with_read_cell(w, r, Some(value), style),
                CellRef { row: n, col: (r.col + 1) as u32 },
                Some(value),
                style,
            ),
        ),
{
    let start = worksheet::no_worksheet(s, date1904, max_cells);
    let a = seq![EventView::Start(row)];
    let b = value_cell(first, v, body);
    let c = value_cell(second, v, body);
    lemma_before(events, path, s, date1904, max_cells);
    part::lemma_continued::<WorksheetParser>(start, events, a + b + c, path);
    if let Ok(st) = part::state_after::<WorksheetParser>(start, events, path) {
        part::lemma_continued::<WorksheetParser>(st, a + b, c, path);
        part::lemma_continued::<WorksheetParser>(st, a, b, path);
        lemma_row_tag(st, row, Some(n), path);
        let st1 = WorksheetState { cur_row: n, cur_col: 0, ..st };
        lemma_opened(st1, first, r, kind, style, path);
        let c1 = worksheet::opened_cell(st1, first, path)->Ok_0;
        lemma_value_put(st1, first, v, body, c1, value, path);
        let st2 = part::state_after::<WorksheetParser>(st1, b, path)->Ok_0;
        lemma_opened_next(st2, second, kind, style, path);
        let c2 = worksheet::opened_cell(st2, second, path)->Ok_0;
        lemma_value_put(st2, second, v, body, c2, value, path);
    }
}

/// A row element that states no row is the row below the last one.
#[verifier::spinoff_prover]
#[verifier::rlimit(60)]
pub proof fn law_rows_follow_one_another(
    events: Seq<EventView>,
    first: TagView,
    n: u32,
    second: TagView,
    tag: TagView,
    v: TagView,
    body: Seq<EventView>,
    kind: Option<Seq<char>>,
    style: Option<u32>,
    value: ValueView,
    path: Seq<char>,
    s: SheetView,
    date1904: bool,
    max_cells: usize,
)
    requires
        outside_text(events),
        events.len() < max_cells,
        states_row(first, Some(n)),
        1 <= n < CellRef::MAX_ROW,
        states_row(second, None),
        states_next_cell(tag, kind, style),
        v.name == "v"@,
        xml::carried_text(body) is Some,
        means(kind, xml::carried_text(body)->0, value),
    ensures
        worksheet::worksheet_of(events, path, s, date1904, max_cells) matches Ok(w)
            ==> worksheet::worksheet_of(
            events + (seq![EventView::Start(first)] + seq![EventView::Start(second)] + value_cell(
                tag,
                v,
                body,
            )),
            path,
            s,
            date1904,
            max_cells,
        ) == Ok::<WorksheetView, ErrorView>(
            with_read_cell(w, CellRef { row: (n + 1) as u32, col: 1 }, Some(value), style),
        ),
{
    let start = worksheet::no_worksheet(s, date1904, max_cells);
    let a = seq![EventView::Start(first)];
    let b = seq![EventView::Start(second)];
    let c = value_cell(tag, v, body);
    lemma_before(events, path, s, date1904, max_cells);
    part::lemma_continued::<WorksheetParser>(start, events, a + b + c, path);
    if let Ok(st) = part::state_after::<WorksheetParser>(start, events, path) {
        part::lemma_continued::<WorksheetParser>(st, a + b, c, path);
        part::lemma_continued::<WorksheetParser>(st, a, b, path);
        lemma_row_tag(st, first, Some(n), path);
        let st1 = WorksheetState { cur_row: n, cur_col: 0, ..st };
        lemma_row_tag(st1, second, None, path);
        let st2 = WorksheetState { cur_row: (n + 1) as u32, cur_col: 0, ..st };
        lemma_opened_next(st2, tag, kind, style, path);
        let c2 = worksheet::opened_cell(st2, tag, path)->Ok_0;
        lemma_value_put(st2, tag, v, body, c2, value, path);
    }
}

// ---------------------------------------------------------------------------
// Formulas, and what is malformed

/// The events of a cell with a formula in front of its value element.
pub open spec fn formula_cell(
    tag: TagView,
    f: TagView,
    formula: Seq<EventView>,
    v: TagView,
    body: Seq<EventView>,
) -> Seq<EventView> {
    seq![EventView::Start(tag)] + (seq![EventView::Start(f)] + formula + seq![
        EventView::End("f"@),
    ]) + (seq![EventView::Start(v)] + body + seq![EventView::End("v"@), EventView::End("c"@)])
}

proof fn lemma_formula_text(
    st: WorksheetState,
    so_far: Seq<char>,
    body: Seq<EventView>,
    path: Seq<char>,
)
    requires
        st.leaf == Some(LeafView::Formula(so_far)),
        xml::carried_text(body) is Some,
    ensures
        part::state_after::<WorksheetParser>(st, body, path) == Ok::<WorksheetState, ErrorView>(
            WorksheetState {
                leaf: Some(LeafView::Formula(so_far + xml::carried_text(body)->0)),
                ..st
            },
        ),
    decreases body.len(),
{
    if body.len() == 0 {
        assert(so_far + Seq::<char>::empty() =~= so_far);
    } else {
        let front = body.drop_last();
        lemma_formula_text(st, so_far, front, path);
        let before = so_far + xml::carried_text(front)->0;
        let added = match body.last() {
            EventView::Text(Some(t)) => t,
            EventView::Ref(r) => xml::reference_text(r)->0,
            _ => Seq::empty(),
        };
        assert(xml::carried_text(body)->0 =~= xml::carried_text(front)->0 + added);
        assert(before + added =~= so_far + xml::carried_text(body)->0);
    }
}

/// A formula that a cell states does not count: the cell is what it would be without it.
#[verifier::spinoff_prover]
#[verifier::rlimit(60)]
pub proof fn law_formulas_do_not_count(
    st: WorksheetState,
    tag: TagView,
    f: TagView,
    formula: Seq<EventView>,
    v: TagView,
    body: Seq<EventView>,
    path: Seq<char>,
)
    requires
        st.leaf is None,
        tag.name == "c"@,
        f.name == "f"@,
        xml::carried_text(formula) is Some,
        v.name == "v"@,
    ensures
        part::state_after::<WorksheetParser>(st, formula_cell(tag, f, formula, v, body), path)
            == part::state_after::<WorksheetParser>(st, value_cell(tag, v, body), path),
{
    let first = seq![EventView::Start(tag)];
    let opening = seq![EventView::Start(f)];
    let closing = seq![EventView::End("f"@)];
    let aside = opening + formula + closing;
    let rest = seq![EventView::Start(v)] + body + seq![EventView::End("v"@), EventView::End("c"@)];
    lemma_names();
    assert(value_cell(tag, v, body) =~= first + rest);
    part::lemma_continued::<WorksheetParser>(st, first, rest, path);
    part::lemma_continued::<WorksheetParser>(st, first + aside, rest, path);
    part::lemma_continued::<WorksheetParser>(st, first, aside, path);
    part::lemma_step_at::<WorksheetParser>(st, first, path, 0);
    if let Ok(at) = part::state_after::<WorksheetParser>(st, first, path) {
        assert(at.cur is Some && at.leaf is None);
        part::lemma_continued::<WorksheetParser>(at, opening + formula, closing, path);
        part::lemma_continued::<WorksheetParser>(at, opening, formula, path);
        part::lemma_step_at::<WorksheetParser>(at, opening, path, 0);
        let ready = WorksheetState { leaf: Some(LeafView::Formula(Seq::empty())), ..at };
        assert(part::state_after::<WorksheetParser>(at, opening, path) == Ok::<
            WorksheetState,
            ErrorView,
        >(ready));
        lemma_formula_text(ready, Seq::empty(), formula, path);
        let t = Seq::<char>::empty() + xml::carried_text(formula)->0;
        let full = WorksheetState { leaf: Some(LeafView::Formula(t)), ..at };
        part::lemma_step_at::<WorksheetParser>(full, closing, path, 0);
        assert(part::state_after::<WorksheetParser>(full, closing, path) == Ok::<
            WorksheetState,
            ErrorView,
        >(at));
    }
}

/// A cell whose text is not what its type asks for is not read: one of the number type,
/// or of none, that is no number; one of the date type that is no date; and one of the
/// shared string type that is no index.
pub proof fn law_malformed_values_are_told(
    events: Seq<EventView>,
    tag: TagView,
    v: TagView,
    body: Seq<EventView>,
    r: CellRef,
    kind: Option<Seq<char>>,
    style: Option<u32>,
    core: Seq<char>,
    path: Seq<char>,
    s: SheetView,
    date1904: bool,
    max_cells: usize,
)
    requires
        outside_text(events),
        events.len() < max_cells,
        states_cell(tag, r, kind, style),
        v.name == "v"@,
        xml::carried_text(body) is Some,
        is_with_margins(xml::carried_text(body)->0, core),
        ({
            ||| (kind is None || kind == Some("n"@)) && number::number_of(core) is None
            ||| kind == Some("s"@) && text::unsigned_value(core, usize::MAX as int) is None
            ||| kind == Some("d"@) && crate::parse::iso8601::iso_value(
                xml::carried_text(body)->0,
                date1904,
            ) is None
        }),
    ensures
        worksheet::worksheet_of(
            events + value_cell(tag, v, body),
            path,
            s,
            date1904,
            max_cells,
        ) is Err,
{
    let start = worksheet::no_worksheet(s, date1904, max_cells);
    lemma_before(events, path, s, date1904, max_cells);
    part::lemma_continued::<WorksheetParser>(start, events, value_cell(tag, v, body), path);
    lemma_names();
    let t = xml::carried_text(body)->0;
    let (before, after) = choose|before: Seq<char>, after: Seq<char>|
        text::all_white(before) && text::all_white(after) && t == #[trigger] (before + core
            + after);
    text::law_trimming_takes_off_margins(before, core, after);
    if let Ok(st) = part::state_after::<WorksheetParser>(start, events, path) {
        lemma_opened(st, tag, r, kind, style, path);
        let c = OpenView {
            cell_ref: r,
            cell_type: kind,
            style_id: style,
            value: None,
            inline: None,
        };
        lemma_value_cell(st, tag, v, body, c, path);
    }
}

/// Coordinates that cannot be read are told, wherever they stand: in a cell, in either
/// corner of a merged range, or in a hyperlink.
pub proof fn law_malformed_references_are_told(
    events: Seq<EventView>,
    tag: TagView,
    empty: bool,
    t: Seq<char>,
    path: Seq<char>,
    s: SheetView,
    date1904: bool,
    max_cells: usize,
)
    requires
        outside_text(events),
        cell::a1_value(t) is None,
        !t.contains(':'),
        ({
            ||| tag.name == "c"@ && xml::states(tag.attrs, "r"@, t)
            ||| tag.name == "hyperlink"@ && xml::states(tag.attrs, "ref"@, t)
            ||| tag.name == "mergeCell"@ && xml::states(tag.attrs, "ref"@, t)
            ||| tag.name == "mergeCell"@ && exists|other: Seq<char>| #[trigger]
                xml::states(tag.attrs, "ref"@, t + seq![':'] + other)
        }),
    ensures
        worksheet::worksheet_of(
            events.push(xml::element(tag, empty)),
            path,
            s,
            date1904,
            max_cells,
        ) is Err,
{
    let start = worksheet::no_worksheet(s, date1904, max_cells);
    lemma_before(events, path, s, date1904, max_cells);
    part::lemma_one_more::<WorksheetParser>(start, events, xml::element(tag, empty), path);
    lemma_names();
    t.index_of_first_ensures(':');
    if tag.name == "c"@ {
        xml::law_attributes_are_found_by_name(tag.attrs, path, "r"@, t);
    } else if xml::states(tag.attrs, "ref"@, t) {
        xml::law_attributes_are_found_by_name(tag.attrs, path, "ref"@, t);
    } else {
        let other = choose|other: Seq<char>| #[trigger]
            xml::states(tag.attrs, "ref"@, t + seq![':'] + other);
        let both = t + seq![':'] + other;
        xml::law_attributes_are_found_by_name(tag.attrs, path, "ref"@, both);
        both.index_of_first_ensures(':');
        assert(both[t.len() as int] == ':');
        let i = both.index_of_first(':')->0;
        if i < t.len() {
            assert(both[i] == t[i]);
            assert(t.contains(t[i]));
        }
        assert(both.take(t.len() as int) =~= t);
    }
}

/// Rows are numbered from 1 to 1 048 576; an element that says otherwise is told.
pub proof fn law_rows_have_their_bounds(
    events: Seq<EventView>,
    tag: TagView,
    empty: bool,
    n: u32,
    path: Seq<char>,
    s: SheetView,
    date1904: bool,
    max_cells: usize,
)
    requires
        outside_text(events),
        tag.name == "row"@,
        xml::states(tag.attrs, "r"@, text::decimal(n as nat)),
    ensures
        worksheet::worksheet_of(events, path, s, date1904, max_cells) is Ok ==> (
        worksheet::worksheet_of(
            events.push(xml::element(tag, empty)),
            path,
            s,
            date1904,
            max_cells,
        ) is Ok <==> 1 <= n <= 1_048_576),
{
    let start = worksheet::no_worksheet(s, date1904, max_cells);
    lemma_before(events, path, s, date1904, max_cells);
    part::lemma_one_more::<WorksheetParser>(start, events, xml::element(tag, empty), path);
    lemma_names();
    xml::law_attributes_are_found_by_name(tag.attrs, path, "r"@, text::decimal(n as nat));
    text::law_decimal_notation_reads_back(n as nat, u32::MAX as int);
}

} // verus!
