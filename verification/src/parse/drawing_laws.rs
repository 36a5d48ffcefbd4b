//! What the elements of a drawing part come to.
use crate::error::ErrorView;
use crate::model::cell::CellRef;
use crate::model::sheet::{AnchorMarker, ImageAnchor, ImageExtent};
use crate::parse::drawing;
use crate::parse::drawing::{
    AnchorState, DrawingParser, DrawingState, GroupContext, MarkerField, MarkerState,
    PendingImageView, Placement,
};
use crate::parse::part;
use crate::parse::xml;
use crate::parse::xml::{EventView, TagView};
use crate::text;
use vstd::prelude::*;

verus! {

/// Names of elements that are told apart.
proof fn lemma_names()
    ensures
        "to"@ != "from"@,
        "pic"@ != "from"@,
        "pic"@ != "to"@,
        "spPr"@ != "from"@,
        "spPr"@ != "to"@,
        "spPr"@ != "pic"@,
        "grpSp"@ != "from"@,
        "grpSp"@ != "to"@,
        "grpSp"@ != "pic"@,
        "grpSp"@ != "spPr"@,
        "grpSpPr"@ != "from"@,
        "grpSpPr"@ != "to"@,
        "grpSpPr"@ != "pic"@,
        "grpSpPr"@ != "spPr"@,
        "grpSpPr"@ != "grpSp"@,
        "blip"@ != "from"@,
        "blip"@ != "to"@,
        "blip"@ != "pic"@,
        "blip"@ != "spPr"@,
        "blip"@ != "grpSp"@,
        "blip"@ != "grpSpPr"@,
        "hlinkClick"@ != "from"@,
        "hlinkClick"@ != "to"@,
        "hlinkClick"@ != "pic"@,
        "hlinkClick"@ != "spPr"@,
        "hlinkClick"@ != "grpSp"@,
        "hlinkClick"@ != "grpSpPr"@,
        "hlinkClick"@ != "blip"@,
        "col"@ != "from"@,
        "col"@ != "to"@,
        "col"@ != "pic"@,
        "col"@ != "spPr"@,
        "col"@ != "grpSp"@,
        "col"@ != "grpSpPr"@,
        "col"@ != "blip"@,
        "col"@ != "hlinkClick"@,
        "colOff"@ != "from"@,
        "colOff"@ != "to"@,
        "colOff"@ != "pic"@,
        "colOff"@ != "spPr"@,
        "colOff"@ != "grpSp"@,
        "colOff"@ != "grpSpPr"@,
        "colOff"@ != "blip"@,
        "colOff"@ != "hlinkClick"@,
        "colOff"@ != "col"@,
        "row"@ != "from"@,
        "row"@ != "to"@,
        "row"@ != "pic"@,
        "row"@ != "spPr"@,
        "row"@ != "grpSp"@,
        "row"@ != "grpSpPr"@,
        "row"@ != "blip"@,
        "row"@ != "hlinkClick"@,
        "row"@ != "col"@,
        "row"@ != "colOff"@,
        "rowOff"@ != "from"@,
        "rowOff"@ != "to"@,
        "rowOff"@ != "pic"@,
        "rowOff"@ != "spPr"@,
        "rowOff"@ != "grpSp"@,
        "rowOff"@ != "grpSpPr"@,
        "rowOff"@ != "blip"@,
        "rowOff"@ != "hlinkClick"@,
        "rowOff"@ != "col"@,
        "rowOff"@ != "colOff"@,
        "rowOff"@ != "row"@,
        "off"@ != "from"@,
        "off"@ != "to"@,
        "off"@ != "pic"@,
        "off"@ != "spPr"@,
        "off"@ != "grpSp"@,
        "off"@ != "grpSpPr"@,
        "off"@ != "blip"@,
        "off"@ != "hlinkClick"@,
        "off"@ != "col"@,
        "off"@ != "colOff"@,
        "off"@ != "row"@,
        "off"@ != "rowOff"@,
        "ext"@ != "from"@,
        "ext"@ != "to"@,
        "ext"@ != "pic"@,
        "ext"@ != "spPr"@,
        "ext"@ != "grpSp"@,
        "ext"@ != "grpSpPr"@,
        "ext"@ != "blip"@,
        "ext"@ != "hlinkClick"@,
        "ext"@ != "col"@,
        "ext"@ != "colOff"@,
        "ext"@ != "row"@,
        "ext"@ != "rowOff"@,
        "ext"@ != "off"@,
        "chOff"@ != "from"@,
        "chOff"@ != "to"@,
        "chOff"@ != "pic"@,
        "chOff"@ != "spPr"@,
        "chOff"@ != "grpSp"@,
        "chOff"@ != "grpSpPr"@,
        "chOff"@ != "blip"@,
        "chOff"@ != "hlinkClick"@,
        "chOff"@ != "col"@,
        "chOff"@ != "colOff"@,
        "chOff"@ != "row"@,
        "chOff"@ != "rowOff"@,
        "chOff"@ != "off"@,
        "chOff"@ != "ext"@,
        "chExt"@ != "from"@,
        "chExt"@ != "to"@,
        "chExt"@ != "pic"@,
        "chExt"@ != "spPr"@,
        "chExt"@ != "grpSp"@,
        "chExt"@ != "grpSpPr"@,
        "chExt"@ != "blip"@,
        "chExt"@ != "hlinkClick"@,
        "chExt"@ != "col"@,
        "chExt"@ != "colOff"@,
        "chExt"@ != "row"@,
        "chExt"@ != "rowOff"@,
        "chExt"@ != "off"@,
        "chExt"@ != "ext"@,
        "chExt"@ != "chOff"@,
        "twoCellAnchor"@ != "from"@,
        "twoCellAnchor"@ != "to"@,
        "twoCellAnchor"@ != "pic"@,
        "twoCellAnchor"@ != "spPr"@,
        "twoCellAnchor"@ != "grpSp"@,
        "twoCellAnchor"@ != "grpSpPr"@,
        "twoCellAnchor"@ != "blip"@,
        "twoCellAnchor"@ != "hlinkClick"@,
        "twoCellAnchor"@ != "col"@,
        "twoCellAnchor"@ != "colOff"@,
        "twoCellAnchor"@ != "row"@,
        "twoCellAnchor"@ != "rowOff"@,
        "twoCellAnchor"@ != "off"@,
        "twoCellAnchor"@ != "ext"@,
        "twoCellAnchor"@ != "chOff"@,
        "twoCellAnchor"@ != "chExt"@,
        "oneCellAnchor"@ != "from"@,
        "oneCellAnchor"@ != "to"@,
        "oneCellAnchor"@ != "pic"@,
        "oneCellAnchor"@ != "spPr"@,
        "oneCellAnchor"@ != "grpSp"@,
        "oneCellAnchor"@ != "grpSpPr"@,
        "oneCellAnchor"@ != "blip"@,
        "oneCellAnchor"@ != "hlinkClick"@,
        "oneCellAnchor"@ != "col"@,
        "oneCellAnchor"@ != "colOff"@,
        "oneCellAnchor"@ != "row"@,
        "oneCellAnchor"@ != "rowOff"@,
        "oneCellAnchor"@ != "off"@,
        "oneCellAnchor"@ != "ext"@,
        "oneCellAnchor"@ != "chOff"@,
        "oneCellAnchor"@ != "chExt"@,
        "oneCellAnchor"@ != "twoCellAnchor"@,
{
    reveal_strlit("to");
    reveal_strlit("from");
    reveal_strlit("pic");
    reveal_strlit("spPr");
    reveal_strlit("grpSp");
    reveal_strlit("grpSpPr");
    reveal_strlit("blip");
    reveal_strlit("hlinkClick");
    reveal_strlit("col");
    reveal_strlit("colOff");
    reveal_strlit("row");
    reveal_strlit("rowOff");
    reveal_strlit("off");
    reveal_strlit("ext");
    reveal_strlit("chOff");
    reveal_strlit("chExt");
    reveal_strlit("twoCellAnchor");
    reveal_strlit("oneCellAnchor");
    assert("to"@.len() == 2
        && "from"@.len() == 4
        && "pic"@.len() == 3
        && "spPr"@.len() == 4
        && "grpSp"@.len() == 5
        && "grpSpPr"@.len() == 7
        && "blip"@.len() == 4
        && "hlinkClick"@.len() == 10
        && "col"@.len() == 3
        && "colOff"@.len() == 6
        && "row"@.len() == 3
        && "rowOff"@.len() == 6
        && "off"@.len() == 3
        && "ext"@.len() == 3
        && "chOff"@.len() == 5
        && "chExt"@.len() == 5
        && "twoCellAnchor"@.len() == 13
        && "oneCellAnchor"@.len() == 13);
    assert("spPr"@[0] != "from"@[0]
        && "blip"@[0] != "from"@[0]
        && "blip"@[0] != "spPr"@[0]
        && "col"@[0] != "pic"@[0]
        && "row"@[0] != "pic"@[0]
        && "row"@[0] != "col"@[0]
        && "rowOff"@[0] != "colOff"@[0]
        && "off"@[0] != "pic"@[0]
        && "off"@[0] != "col"@[0]
        && "off"@[0] != "row"@[0]
        && "ext"@[0] != "pic"@[0]
        && "ext"@[0] != "col"@[0]
        && "ext"@[0] != "row"@[0]
        && "ext"@[0] != "off"@[0]
        && "chOff"@[0] != "grpSp"@[0]
        && "chExt"@[0] != "grpSp"@[0]
        && "chExt"@[2] != "chOff"@[2]
        && "oneCellAnchor"@[0] != "twoCellAnchor"@[0]);
}

proof fn lemma_step<P: Fn(&Vec<GroupContext>, (i64, i64), (i64, i64)) -> Placement>(
    st: DrawingState<P>,
    events: Seq<EventView>,
    path: Seq<char>,
    k: int,
)
    requires
        0 <= k < events.len(),
        xml::event_fault(events[k], path) is None,
    ensures
        part::state_after::<DrawingParser<'_, P>>(st, events.take(0), path) == Ok::<
            DrawingState<P>,
            ErrorView,
        >(st),
        events.take(events.len() as int) == events,
        part::state_after::<DrawingParser<'_, P>>(st, events.take(k + 1), path)
            == match part::state_after::<DrawingParser<'_, P>>(st, events.take(k), path) {
            Ok(s) => drawing::drawing_step(s, events[k], path),
            Err(e) => Err(e),
        },
{
    part::lemma_step_at::<DrawingParser<'_, P>>(st, events, path, k);
}

/// The events of an element that holds a text.
pub open spec fn text_element(tag: TagView, t: Seq<char>) -> Seq<EventView> {
    seq![EventView::Start(tag), EventView::Text(Some(t)), EventView::End(tag.name)]
}

#[verifier::spinoff_prover]
#[verifier::rlimit(60)]
proof fn lemma_field<P: Fn(&Vec<GroupContext>, (i64, i64), (i64, i64)) -> Placement>(
    st: DrawingState<P>,
    a: AnchorState,
    m: MarkerState,
    tag: TagView,
    f: MarkerField,
    t: Seq<char>,
    path: Seq<char>,
)
    requires
        st.anchor == Some(a),
        a.marker == Some(m),
        m.leaf is None,
        drawing::field_of(tag.name) == Some(f),
        drawing::with_field(MarkerState { leaf: None, ..m }, f, t, path) is Ok,
    ensures
        part::state_after::<DrawingParser<'_, P>>(st, text_element(tag, t), path) == Ok::<
            DrawingState<P>,
            ErrorView,
        >(
            DrawingState {
                anchor: Some(
                    AnchorState {
                        marker: Some(drawing::with_field(m, f, t, path)->Ok_0),
                        ..a
                    },
                ),
                ..st
            },
        ),
{
    let events = text_element(tag, t);
    lemma_names();
    lemma_step(st, events, path, 0);
    lemma_step(st, events, path, 1);
    lemma_step(st, events, path, 2);
    let none = Seq::<char>::empty();
    assert(none + t =~= t);
    let open = MarkerState { leaf: Some((f, none)), ..m };
    let st1 = DrawingState { anchor: Some(AnchorState { marker: Some(open), ..a }), ..st };
    assert(part::state_after::<DrawingParser<'_, P>>(st, events.take(1), path) == Ok::<
        DrawingState<P>,
        ErrorView,
    >(st1));
    let full = MarkerState { leaf: Some((f, t)), ..m };
    let st2 = DrawingState { anchor: Some(AnchorState { marker: Some(full), ..a }), ..st };
    assert(part::state_after::<DrawingParser<'_, P>>(st, events.take(2), path) == Ok::<
        DrawingState<P>,
        ErrorView,
    >(st2));
    assert(drawing::with_field(full, f, t, path) == drawing::with_field(m, f, t, path));
}

/// The tags of a marker: of itself and of its four children.
pub struct MarkerTags {
    pub marker: TagView,
    pub col: TagView,
    pub col_off: TagView,
    pub row: TagView,
    pub row_off: TagView,
}

/// Whether tags are those of a marker.
pub open spec fn are_marker_tags(t: MarkerTags) -> bool {
    &&& t.marker.name == "from"@ || t.marker.name == "to"@
    &&& t.col.name == "col"@
    &&& t.col_off.name == "colOff"@
    &&& t.row.name == "row"@
    &&& t.row_off.name == "rowOff"@
}

/// The events of a marker at a column and row, which count from zero, with two offsets.
pub open spec fn marker_events(
    t: MarkerTags,
    col: u32,
    col_off: i64,
    row: u32,
    row_off: i64,
) -> Seq<EventView> {
    seq![EventView::Start(t.marker)] + text_element(t.col, text::decimal(col as nat))
        + text_element(t.col_off, text::signed_decimal(col_off as int)) + text_element(
        t.row,
        text::decimal(row as nat),
    ) + text_element(t.row_off, text::signed_decimal(row_off as int)) + seq![
        EventView::End(t.marker.name),
    ]
}

/// A marker stands for the cell one below and one to the right of what its row and
/// column say, which count from zero, and for the offsets that it states.
#[verifier::spinoff_prover]
#[verifier::rlimit(60)]
pub proof fn law_markers_count_from_zero<
    P: Fn(&Vec<GroupContext>, (i64, i64), (i64, i64)) -> Placement,
>(
    st: DrawingState<P>,
    a: AnchorState,
    t: MarkerTags,
    col: u32,
    col_off: i64,
    row: u32,
    row_off: i64,
    path: Seq<char>,
)
    requires
        st.anchor == Some(a),
        a.marker is None,
        are_marker_tags(t),
        row < CellRef::MAX_ROW,
        col < CellRef::MAX_COL,
    ensures
        ({
            let at = AnchorMarker {
                cell: CellRef { row: (row + 1) as u32, col: (col + 1) as u32 },
                col_off,
                row_off,
            };
            part::state_after::<DrawingParser<'_, P>>(
                st,
                marker_events(t, col, col_off, row, row_off),
                path,
            ) == Ok::<DrawingState<P>, ErrorView>(
                DrawingState {
                    anchor: Some(
                        if t.marker.name == "to"@ {
                            AnchorState { to: Some(at), ..a }
                        } else {
                            AnchorState { from: Some(at), ..a }
                        },
                    ),
                    ..st
                },
            )
        }),
{
    let e0 = seq![EventView::Start(t.marker)];
    let e1 = text_element(t.col, text::decimal(col as nat));
    let e2 = text_element(t.col_off, text::signed_decimal(col_off as int));
    let e3 = text_element(t.row, text::decimal(row as nat));
    let e4 = text_element(t.row_off, text::signed_decimal(row_off as int));
    let e5 = seq![EventView::End(t.marker.name)];
    let is_to = t.marker.name == "to"@;
    lemma_names();
    text::lemma_decimal_has_no_margin(col as nat);
    text::lemma_decimal_has_no_margin(row as nat);
    text::law_decimal_notation_reads_back(col as nat, u32::MAX as int);
    text::law_decimal_notation_reads_back(row as nat, u32::MAX as int);
    lemma_signed(col_off);
    lemma_signed(row_off);
    part::lemma_continued::<DrawingParser<'_, P>>(st, e0 + e1 + e2 + e3 + e4, e5, path);
    part::lemma_continued::<DrawingParser<'_, P>>(st, e0 + e1 + e2 + e3, e4, path);
    part::lemma_continued::<DrawingParser<'_, P>>(st, e0 + e1 + e2, e3, path);
    part::lemma_continued::<DrawingParser<'_, P>>(st, e0 + e1, e2, path);
    part::lemma_continued::<DrawingParser<'_, P>>(st, e0, e1, path);
    let m0 = drawing::no_marker(is_to);
    let a0 = AnchorState { marker: Some(m0), ..a };
    let s0 = DrawingState { anchor: Some(a0), ..st };
    lemma_step(st, e0, path, 0);
    assert(part::state_after::<DrawingParser<'_, P>>(st, e0, path) == Ok::<
        DrawingState<P>,
        ErrorView,
    >(s0));
    let m1 = MarkerState { col: Some(col), ..m0 };
    let a1 = AnchorState { marker: Some(m1), ..a };
    let s1 = DrawingState { anchor: Some(a1), ..st };
    lemma_field(s0, a0, m0, t.col, MarkerField::Col, text::decimal(col as nat), path);
    let m2 = MarkerState { col_off: Some(col_off), ..m1 };
    let a2 = AnchorState { marker: Some(m2), ..a };
    let s2 = DrawingState { anchor: Some(a2), ..st };
    lemma_field(
        s1,
        a1,
        m1,
        t.col_off,
        MarkerField::ColOff,
        text::signed_decimal(col_off as int),
        path,
    );
    let m3 = MarkerState { row: Some(row), ..m2 };
    let a3 = AnchorState { marker: Some(m3), ..a };
    let s3 = DrawingState { anchor: Some(a3), ..st };
    lemma_field(s2, a2, m2, t.row, MarkerField::Row, text::decimal(row as nat), path);
    let m4 = MarkerState { row_off: Some(row_off), ..m3 };
    let a4 = AnchorState { marker: Some(m4), ..a };
    let s4 = DrawingState { anchor: Some(a4), ..st };
    lemma_field(
        s3,
        a3,
        m3,
        t.row_off,
        MarkerField::RowOff,
        text::signed_decimal(row_off as int),
        path,
    );
    lemma_step(s4, e5, path, 0);
}

proof fn lemma_signed(n: i64)
    ensures
        text::trim(text::signed_decimal(n as int)) == text::signed_decimal(n as int),
        text::signed_value(text::signed_decimal(n as int)) == Some(n as int),
{
    let d = text::signed_decimal(n as int);
    let none = Seq::<char>::empty();
    text::law_signed_notation_reads_back(n as int);
    text::law_trimming_takes_off_margins(none, d, none);
    assert(none + d + none =~= d);
}

/// Whether an element states two numbers.
pub open spec fn states_pair(tag: TagView, a: Seq<char>, x: i64, b: Seq<char>, y: i64) -> bool {
    &&& xml::states(tag.attrs, a, text::signed_decimal(x as int))
    &&& xml::states(tag.attrs, b, text::signed_decimal(y as int))
}

proof fn lemma_pair(tag: TagView, a: Seq<char>, x: i64, b: Seq<char>, y: i64, path: Seq<char>)
    requires
        states_pair(tag, a, x, b, y),
    ensures
        drawing::pair_attr(tag, path, a, b) == Ok::<(i64, i64), ErrorView>((x, y)),
{
    lemma_signed(x);
    lemma_signed(y);
    xml::law_attributes_are_found_by_name(tag.attrs, path, a, text::signed_decimal(x as int));
    xml::law_attributes_are_found_by_name(tag.attrs, path, b, text::signed_decimal(y as int));
}

/// The `ext` element of an anchor, outside its pictures and groups, is the size of what
/// it anchors.
pub proof fn law_anchors_have_the_size_they_state<
    P: Fn(&Vec<GroupContext>, (i64, i64), (i64, i64)) -> Placement,
>(st: DrawingState<P>, a: AnchorState, tag: TagView, cx: i64, cy: i64, path: Seq<char>)
    requires
        st.anchor == Some(a),
        a.marker is None,
        !a.in_pic && !a.in_sp_pr && !a.in_grp_sp_pr,
        tag.name == "ext"@,
        states_pair(tag, "cx"@, cx, "cy"@, cy),
    ensures
        part::state_after::<DrawingParser<'_, P>>(st, seq![EventView::Empty(tag)], path) == Ok::<
            DrawingState<P>,
            ErrorView,
        >(
            DrawingState {
                anchor: Some(AnchorState { ext: Some(ImageExtent { cx, cy }), ..a }),
                ..st
            },
        ),
{
    lemma_names();
    lemma_pair(tag, "cx"@, cx, "cy"@, cy, path);
    lemma_step(st, seq![EventView::Empty(tag)], path, 0);
}

/// The events of a picture: its data and its hyperlink.
pub open spec fn pic_events(pic: TagView, blip: TagView, link: TagView, empty: bool) -> Seq<
    EventView,
> {
    seq![
        EventView::Start(pic),
        xml::element(blip, empty),
        xml::element(link, empty),
        EventView::End("pic"@),
    ]
}

/// A picture that is in no group sits where its anchor says: between the two markers of
/// an anchor with two cells, and at the first marker with the size of the anchor
/// otherwise. It has the identifiers of its own data and hyperlink, and goes behind the
/// pictures that were there.
#[verifier::spinoff_prover]
#[verifier::rlimit(60)]
pub proof fn law_pictures_sit_where_their_anchor_says<
    P: Fn(&Vec<GroupContext>, (i64, i64), (i64, i64)) -> Placement,
>(
    st: DrawingState<P>,
    a: AnchorState,
    from: AnchorMarker,
    to: AnchorMarker,
    ext: ImageExtent,
    pic: TagView,
    blip: TagView,
    id: Seq<char>,
    link: TagView,
    link_id: Option<Seq<char>>,
    empty: bool,
    path: Seq<char>,
)
    requires
        st.anchor == Some(a),
        a.marker is None,
        a.groups.len() == 0,
        a.from == Some(from),
        a.is_two_cell ==> a.to == Some(to),
        !a.is_two_cell ==> a.ext == Some(ext),
        pic.name == "pic"@,
        blip.name == "blip"@,
        xml::states(blip.attrs, "r:embed"@, id),
        link.name == "hlinkClick"@,
        xml::states_opt(link.attrs, "r:id"@, link_id),
    ensures
        part::state_after::<DrawingParser<'_, P>>(st, pic_events(pic, blip, link, empty), path)
            matches Ok(t) && t.images == st.images.push(
            PendingImageView {
                anchor: if a.is_two_cell {
                    ImageAnchor::TwoCell { from, to }
                } else {
                    ImageAnchor::OneCell { from, ext }
                },
                embed_r_id: id,
                hyperlink_r_id: link_id,
            },
        ) && (t.anchor matches Some(b) && b.from == a.from && b.to == a.to && b.ext == a.ext
            && b.groups == a.groups && b.is_two_cell == a.is_two_cell && b.marker is None
            && !b.in_pic),
{
    let events = pic_events(pic, blip, link, empty);
    lemma_names();
    xml::law_attributes_are_found_by_name(blip.attrs, path, "r:embed"@, id);
    xml::lemma_attribute(link.attrs, path, "r:id"@, link_id);
    lemma_step(st, events, path, 0);
    lemma_step(st, events, path, 1);
    lemma_step(st, events, path, 2);
    lemma_step(st, events, path, 3);
    let a1 = AnchorState { in_pic: true, ..a };
    let s1 = DrawingState { anchor: Some(a1), ..st };
    assert(part::state_after::<DrawingParser<'_, P>>(st, events.take(1), path) == Ok::<
        DrawingState<P>,
        ErrorView,
    >(s1));
    let a2 = AnchorState { embed_r_id: Some(id), ..a1 };
    let s2 = DrawingState { anchor: Some(a2), ..st };
    assert(part::state_after::<DrawingParser<'_, P>>(st, events.take(2), path) == Ok::<
        DrawingState<P>,
        ErrorView,
    >(s2));
    let a3 = AnchorState { hyperlink_r_id: link_id, ..a2 };
    let s3 = DrawingState { anchor: Some(a3), ..st };
    assert(part::state_after::<DrawingParser<'_, P>>(st, events.take(3), path) == Ok::<
        DrawingState<P>,
        ErrorView,
    >(s3));
}

/// A picture in groups sits at the first marker of its anchor, moved by the offset and
/// with the size that its groups, its own position and its own size come to.
pub proof fn law_grouped_pictures_sit_where_their_groups_say<
    P: Fn(&Vec<GroupContext>, (i64, i64), (i64, i64)) -> Placement,
>(
    st: DrawingState<P>,
    a: AnchorState,
    from: AnchorMarker,
    id: Seq<char>,
    dx: i64,
    dy: i64,
    cx: i64,
    cy: i64,
    path: Seq<char>,
)
    requires
        st.anchor == Some(a),
        a.marker is None,
        a.groups.len() > 0,
        a.from == Some(from),
        a.embed_r_id == Some(id),
        drawing::grouped_pic(st.place, a.groups, path, a.pic_off, a.pic_ext) == Ok::<
            (i64, i64, i64, i64),
            ErrorView,
        >((dx, dy, cx, cy)),
        i64::MIN <= from.col_off + dx <= i64::MAX,
        i64::MIN <= from.row_off + dy <= i64::MAX,
    ensures
        part::state_after::<DrawingParser<'_, P>>(st, seq![EventView::End("pic"@)], path)
            matches Ok(t) && t.images == st.images.push(
            PendingImageView {
                anchor: ImageAnchor::OneCell {
                    from: AnchorMarker {
                        cell: from.cell,
                        col_off: (from.col_off + dx) as i64,
                        row_off: (from.row_off + dy) as i64,
                    },
                    ext: ImageExtent { cx: cx, cy: cy },
                },
                embed_r_id: id,
                hyperlink_r_id: a.hyperlink_r_id,
            },
        ),
{
    lemma_names();
    lemma_step(st, seq![EventView::End("pic"@)], path, 0);
}

/// A picture without data is none.
pub proof fn law_pictures_without_data_do_not_count<
    P: Fn(&Vec<GroupContext>, (i64, i64), (i64, i64)) -> Placement,
>(st: DrawingState<P>, a: AnchorState, path: Seq<char>)
    requires
        st.anchor == Some(a),
        a.marker is None,
        a.embed_r_id is None,
    ensures
        part::state_after::<DrawingParser<'_, P>>(st, seq![EventView::End("pic"@)], path)
            matches Ok(t) && t.images == st.images,
{
    lemma_names();
    lemma_step(st, seq![EventView::End("pic"@)], path, 0);
}

/// An anchor opens with nothing in it, with one or two cells as its element says, and
/// ends with its element.
#[verifier::spinoff_prover]
#[verifier::rlimit(60)]
pub proof fn law_anchors_open_and_end<
    P: Fn(&Vec<GroupContext>, (i64, i64), (i64, i64)) -> Placement,
>(st: DrawingState<P>, tag: TagView, a: AnchorState, path: Seq<char>)
    requires
        tag.name == "twoCellAnchor"@ || tag.name == "oneCellAnchor"@,
        a.marker is None,
        a.groups.len() == 0,
    ensures
        part::state_after::<DrawingParser<'_, P>>(
            DrawingState { anchor: None, ..st },
            seq![EventView::Start(tag)],
            path,
        ) == Ok::<DrawingState<P>, ErrorView>(
            DrawingState {
                anchor: Some(
                    AnchorState {
                        is_two_cell: tag.name == "twoCellAnchor"@,
                        from: None,
                        to: None,
                        ext: None,
                        groups: Seq::empty(),
                        in_pic: false,
                        in_sp_pr: false,
                        in_grp_sp_pr: false,
                        embed_r_id: None,
                        hyperlink_r_id: None,
                        pic_off: (0, 0),
                        pic_ext: (0, 0),
                        marker: None,
                    },
                ),
                ..st
            },
        ),
        part::state_after::<DrawingParser<'_, P>>(
            DrawingState { anchor: Some(a), ..st },
            seq![EventView::End(tag.name)],
            path,
        ) == Ok::<DrawingState<P>, ErrorView>(DrawingState { anchor: None, ..st }),
{
    lemma_names();
    lemma_step(
        DrawingState { anchor: None, ..st },
        seq![EventView::Start(tag)],
        path,
        0,
    );
    lemma_step(
        DrawingState { anchor: Some(a), ..st },
        seq![EventView::End(tag.name)],
        path,
        0,
    );
}

/// Whether properties of a group state its place, its size, and those that its children
/// count in.
pub open spec fn states_group(
    off: TagView,
    ext: TagView,
    ch_off: TagView,
    ch_ext: TagView,
    g: GroupContext,
) -> bool {
    &&& off.name == "off"@ && states_pair(off, "x"@, g.off_x, "y"@, g.off_y)
    &&& ext.name == "ext"@ && states_pair(ext, "cx"@, g.ext_cx, "cy"@, g.ext_cy)
    &&& ch_off.name == "chOff"@ && states_pair(ch_off, "x"@, g.ch_off_x, "y"@, g.ch_off_y)
    &&& ch_ext.name == "chExt"@ && states_pair(ch_ext, "cx"@, g.ch_ext_cx, "cy"@, g.ch_ext_cy)
}

/// A group opens within those that are open, with the place and size that its properties
/// state, and what its children count in; its end leaves the groups as they were.
#[verifier::spinoff_prover]
#[verifier::rlimit(60)]
pub proof fn law_groups_are_read<
    P: Fn(&Vec<GroupContext>, (i64, i64), (i64, i64)) -> Placement,
>(
    st: DrawingState<P>,
    a: AnchorState,
    grp: TagView,
    pr: TagView,
    off: TagView,
    ext: TagView,
    ch_off: TagView,
    ch_ext: TagView,
    g: GroupContext,
    path: Seq<char>,
)
    requires
        st.anchor == Some(a),
        a.marker is None,
        a.groups.len() < 64,
        !a.in_grp_sp_pr,
        grp.name == "grpSp"@,
        pr.name == "grpSpPr"@,
        states_group(off, ext, ch_off, ch_ext, g),
    ensures
        ({
            let inside = DrawingState {
                anchor: Some(AnchorState { groups: a.groups.push(g), ..a }),
                ..st
            };
            &&& part::state_after::<DrawingParser<'_, P>>(
                st,
                seq![
                    EventView::Start(grp),
                    EventView::Start(pr),
                    EventView::Empty(off),
                    EventView::Empty(ext),
                    EventView::Empty(ch_off),
                    EventView::Empty(ch_ext),
                    EventView::End("grpSpPr"@),
                ],
                path,
            ) == Ok::<DrawingState<P>, ErrorView>(inside)
            &&& part::state_after::<DrawingParser<'_, P>>(
                inside,
                seq![EventView::End("grpSp"@)],
                path,
            ) == Ok::<DrawingState<P>, ErrorView>(st)
        }),
{
    let events = seq![
        EventView::Start(grp),
        EventView::Start(pr),
        EventView::Empty(off),
        EventView::Empty(ext),
        EventView::Empty(ch_off),
        EventView::Empty(ch_ext),
        EventView::End("grpSpPr"@),
    ];
    let close = seq![EventView::End("grpSp"@)];
    lemma_names();
    lemma_pair(off, "x"@, g.off_x, "y"@, g.off_y, path);
    lemma_pair(ext, "cx"@, g.ext_cx, "cy"@, g.ext_cy, path);
    lemma_pair(ch_off, "x"@, g.ch_off_x, "y"@, g.ch_off_y, path);
    lemma_pair(ch_ext, "cx"@, g.ch_ext_cx, "cy"@, g.ch_ext_cy, path);
    let n = a.groups.len() as int;
    let g0 = drawing::no_group();
    let a1 = AnchorState { groups: a.groups.push(g0), ..a };
    let a2 = AnchorState { in_grp_sp_pr: true, ..a1 };
    let g3 = GroupContext { off_x: g.off_x, off_y: g.off_y, ..g0 };
    let a3 = AnchorState { groups: a.groups.push(g3), ..a2 };
    let g4 = GroupContext { ext_cx: g.ext_cx, ext_cy: g.ext_cy, ..g3 };
    let a4 = AnchorState { groups: a.groups.push(g4), ..a2 };
    let g5 = GroupContext { ch_off_x: g.ch_off_x, ch_off_y: g.ch_off_y, ..g4 };
    let a5 = AnchorState { groups: a.groups.push(g5), ..a2 };
    let a6 = AnchorState { groups: a.groups.push(g), ..a2 };
    let inside = DrawingState {
        anchor: Some(AnchorState { groups: a.groups.push(g), ..a }),
        ..st
    };
    assert(a.groups.push(g0).update(n, g3) =~= a.groups.push(g3));
    assert(a.groups.push(g3).update(n, g4) =~= a.groups.push(g4));
    assert(a.groups.push(g4).update(n, g5) =~= a.groups.push(g5));
    assert(a.groups.push(g5).update(n, g) =~= a.groups.push(g));
    assert(a.groups.push(g).drop_last() =~= a.groups);
    assert(drawing::drawing_step(st, EventView::Start(grp), path) == Ok::<
        DrawingState<P>,
        ErrorView,
    >(DrawingState { anchor: Some(a1), ..st }));
    let s1 = DrawingState { anchor: Some(a1), ..st };
    let s2 = DrawingState { anchor: Some(a2), ..st };
    let s3 = DrawingState { anchor: Some(a3), ..st };
    let s4 = DrawingState { anchor: Some(a4), ..st };
    let s5 = DrawingState { anchor: Some(a5), ..st };
    let s6 = DrawingState { anchor: Some(a6), ..st };
    assert(drawing::drawing_step(s1, EventView::Start(pr), path) == Ok::<
        DrawingState<P>,
        ErrorView,
    >(s2));
    assert(drawing::drawing_step(s2, EventView::Empty(off), path) == Ok::<
        DrawingState<P>,
        ErrorView,
    >(s3));
    assert(drawing::drawing_step(s3, EventView::Empty(ext), path) == Ok::<
        DrawingState<P>,
        ErrorView,
    >(s4));
    assert(drawing::drawing_step(s4, EventView::Empty(ch_off), path) == Ok::<
        DrawingState<P>,
        ErrorView,
    >(s5));
    assert(drawing::drawing_step(s5, EventView::Empty(ch_ext), path) == Ok::<
        DrawingState<P>,
        ErrorView,
    >(s6));
    assert(drawing::drawing_step(s6, EventView::End("grpSpPr"@), path) == Ok::<
        DrawingState<P>,
        ErrorView,
    >(inside));
    lemma_step(st, events, path, 0);
    lemma_step(st, events, path, 1);
    lemma_step(st, events, path, 2);
    lemma_step(st, events, path, 3);
    lemma_step(st, events, path, 4);
    lemma_step(st, events, path, 5);
    lemma_step(st, events, path, 6);
    lemma_step(inside, close, path, 0);
}

/// The properties of a picture in a group state its position and size there.
#[verifier::spinoff_prover]
#[verifier::rlimit(60)]
pub proof fn law_grouped_pictures_have_their_place<
    P: Fn(&Vec<GroupContext>, (i64, i64), (i64, i64)) -> Placement,
>(
    st: DrawingState<P>,
    a: AnchorState,
    pr: TagView,
    off: TagView,
    ext: TagView,
    at: (i64, i64),
    size: (i64, i64),
    path: Seq<char>,
)
    requires
        st.anchor == Some(a),
        a.marker is None,
        a.in_pic,
        a.groups.len() > 0,
        !a.in_grp_sp_pr,
        pr.name == "spPr"@,
        off.name == "off"@,
        ext.name == "ext"@,
        ({
            let (x, y) = at;
            let (cx, cy) = size;
            states_pair(off, "x"@, x, "y"@, y) && states_pair(ext, "cx"@, cx, "cy"@, cy)
        }),
    ensures
        part::state_after::<DrawingParser<'_, P>>(
            st,
            seq![
                EventView::Start(pr),
                EventView::Empty(off),
                EventView::Empty(ext),
                EventView::End("spPr"@),
            ],
            path,
        ) == Ok::<DrawingState<P>, ErrorView>(
            DrawingState {
                anchor: Some(AnchorState { pic_off: at, pic_ext: size, in_sp_pr: false, ..a }),
                ..st
            },
        ),
{
    let events = seq![
        EventView::Start(pr),
        EventView::Empty(off),
        EventView::Empty(ext),
        EventView::End("spPr"@),
    ];
    let (x, y) = at;
    let (cx, cy) = size;
    lemma_names();
    lemma_pair(off, "x"@, x, "y"@, y, path);
    lemma_pair(ext, "cx"@, cx, "cy"@, cy, path);
    let a1 = AnchorState { in_sp_pr: true, ..a };
    let a2 = AnchorState { pic_off: at, ..a1 };
    let a3 = AnchorState { pic_ext: size, ..a2 };
    let s1 = DrawingState { anchor: Some(a1), ..st };
    let s2 = DrawingState { anchor: Some(a2), ..st };
    let s3 = DrawingState { anchor: Some(a3), ..st };
    assert(drawing::drawing_step(st, EventView::Start(pr), path) == Ok::<
        DrawingState<P>,
        ErrorView,
    >(s1));
    assert(drawing::drawing_step(s1, EventView::Empty(off), path) == Ok::<
        DrawingState<P>,
        ErrorView,
    >(s2));
    assert(drawing::drawing_step(s2, EventView::Empty(ext), path) == Ok::<
        DrawingState<P>,
        ErrorView,
    >(s3));
    lemma_step(st, events, path, 0);
    lemma_step(st, events, path, 1);
    lemma_step(st, events, path, 2);
    lemma_step(st, events, path, 3);
}

/// Groups are nested no deeper than 64.
pub proof fn law_groups_nest_no_deeper<
    P: Fn(&Vec<GroupContext>, (i64, i64), (i64, i64)) -> Placement,
>(st: DrawingState<P>, a: AnchorState, grp: TagView, path: Seq<char>)
    requires
        st.anchor == Some(a),
        a.marker is None,
        grp.name == "grpSp"@,
    ensures
        part::state_after::<DrawingParser<'_, P>>(st, seq![EventView::Start(grp)], path) is Ok
            <==> a.groups.len() < 64,
{
    lemma_names();
    lemma_step(st, seq![EventView::Start(grp)], path, 0);
}

/// A picture with data must have its place: the first marker in every case, and, outside
/// groups, the second marker in an anchor with two cells, the size in one with one.
pub proof fn law_pictures_need_their_place<
    P: Fn(&Vec<GroupContext>, (i64, i64), (i64, i64)) -> Placement,
>(st: DrawingState<P>, a: AnchorState, path: Seq<char>)
    requires
        st.anchor == Some(a),
        a.marker is None,
        a.embed_r_id is Some,
    ensures
        ({
            let after = part::state_after::<DrawingParser<'_, P>>(
                st,
                seq![EventView::End("pic"@)],
                path,
            );
            &&& a.from is None ==> after is Err
            &&& a.groups.len() == 0 && a.is_two_cell && a.to is None ==> after is Err
            &&& a.groups.len() == 0 && !a.is_two_cell && a.ext is None ==> after is Err
        }),
{
    lemma_names();
    lemma_step(st, seq![EventView::End("pic"@)], path, 0);
}

} // verus!
