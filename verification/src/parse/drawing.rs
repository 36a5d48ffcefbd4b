//! A drawing part: the pictures that are anchored to cells, in groups or not.
use crate::container::data::PartData;
use crate::error;
use crate::error::{Error, ErrorView};
use crate::model::cell::CellRef;
use crate::model::sheet::{AnchorMarker, ImageAnchor, ImageExtent};
use crate::parse::part;
use crate::parse::part::PartParser;
use crate::parse::rich_text;
use crate::parse::xml;
use crate::parse::xml::{EventView, TagView, XmlEvent, XmlTag};
use crate::text;
use vstd::prelude::*;

verus! {

/// How deep groups may be nested.
pub const MAX_GROUP_NESTING_DEPTH: usize = 64;

/// A picture whose relationships are still identifiers.
#[derive(Debug, Clone, PartialEq, Eq)]
pub struct PendingImage {
    pub anchor: ImageAnchor,
    pub embed_r_id: String,
    pub hyperlink_r_id: Option<String>,
}

/// A pending picture as contracts speak of it.
#[verifier::ext_equal]
pub struct PendingImageView {
    pub anchor: ImageAnchor,
    pub embed_r_id: Seq<char>,
    pub hyperlink_r_id: Option<Seq<char>>,
}

impl View for PendingImage {
    type V = PendingImageView;

    open spec fn view(&self) -> PendingImageView {
        PendingImageView {
            anchor: self.anchor,
            embed_r_id: self.embed_r_id@,
            hyperlink_r_id: text::text_opt(self.hyperlink_r_id),
        }
    }
}

/// The views of a list of pending pictures.
pub open spec fn pending_image_views(images: Seq<PendingImage>) -> Seq<PendingImageView> {
    images.map_values(|i: PendingImage| i@)
}

/// A group's place in what encloses it, and the coordinates that its children
/// are in.
#[derive(Debug, Clone, Copy, PartialEq, Eq, Structural)]
pub struct GroupContext {
    pub off_x: i64,
    pub off_y: i64,
    pub ext_cx: i64,
    pub ext_cy: i64,
    pub ch_off_x: i64,
    pub ch_off_y: i64,
    pub ch_ext_cx: i64,
    pub ch_ext_cy: i64,
}

/// A group about which nothing has been said yet.
pub open spec fn no_group() -> GroupContext {
    GroupContext {
        off_x: 0,
        off_y: 0,
        ext_cx: 0,
        ext_cy: 0,
        ch_off_x: 0,
        ch_off_y: 0,
        ch_ext_cx: 0,
        ch_ext_cy: 0,
    }
}

impl Default for GroupContext {
    fn default() -> (g: GroupContext)
        ensures
            g == no_group(),
    {
        GroupContext {
            off_x: 0,
            off_y: 0,
            ext_cx: 0,
            ext_cy: 0,
            ch_off_x: 0,
            ch_off_y: 0,
            ch_ext_cx: 0,
            ch_ext_cy: 0,
        }
    }
}

// ---------------------------------------------------------------------------
// Placing a picture that is in groups

/// The largest coordinate, in English Metric Units, that a picture in groups may
/// come to have. It lies far beyond the last row and column of a sheet.
pub const MAX_PLAUSIBLE_EMU: i64 = 1_000_000_000_000;

/// Where a picture in groups comes to lie: its offset from the anchor's position
/// and its size.
#[derive(Debug, Clone, Copy, PartialEq, Eq, Structural)]
pub enum Placement {
    At { dx: i64, dy: i64, cx: i64, cy: i64 },
    /// A coordinate is no finite number.
    NonFinite,
    /// A coordinate is larger than any sheet.
    TooLarge,
}

/// Whether placing is possible for every picture, and depends on nothing but the
/// groups around the picture, its position and its size.
pub open spec fn places<P: Fn(&Vec<GroupContext>, (i64, i64), (i64, i64)) -> Placement>(
    place: P,
) -> bool {
    &&& forall|g: &Vec<GroupContext>, off: (i64, i64), ext: (i64, i64)| #[trigger]
        call_requires(place, (g, off, ext))
    &&& forall|
        g: &Vec<GroupContext>,
        h: &Vec<GroupContext>,
        off: (i64, i64),
        ext: (i64, i64),
        a: Placement,
        b: Placement,
    |
        #![trigger call_ensures(place, (g, off, ext), a), call_ensures(place, (h, off, ext), b)]
        g@ == h@ && call_ensures(place, (g, off, ext), a) && call_ensures(place, (h, off, ext), b)
            ==> a == b
}

/// Whether a picture may come to lie at `p`.
pub open spec fn may_lie<P: Fn(&Vec<GroupContext>, (i64, i64), (i64, i64)) -> Placement>(
    place: P,
    groups: Seq<GroupContext>,
    off: (i64, i64),
    ext: (i64, i64),
    p: Placement,
) -> bool {
    exists|g: &Vec<GroupContext>|
        g@ == groups && #[trigger] call_ensures(place, (g, off, ext), p)
}

/// Where a picture comes to lie.
pub open spec fn placement_of<P: Fn(&Vec<GroupContext>, (i64, i64), (i64, i64)) -> Placement>(
    place: P,
    groups: Seq<GroupContext>,
    off: (i64, i64),
    ext: (i64, i64),
) -> Placement {
    choose|p: Placement| may_lie(place, groups, off, ext, p)
}

/// Whether a group's own coordinates have no extent.
pub open spec fn is_flat(g: GroupContext) -> bool {
    g.ch_ext_cx == 0 || g.ch_ext_cy == 0
}

/// The groups with the outermost one lying where its anchor does: its own offset
/// does not count.
pub open spec fn at_anchor(groups: Seq<GroupContext>) -> Seq<GroupContext> {
    if groups.len() > 0 {
        groups.update(0, GroupContext { off_x: 0, off_y: 0, ..groups[0] })
    } else {
        groups
    }
}

/// Whether a coordinate is one that a sheet may have.
pub open spec fn is_plausible(v: i64) -> bool {
    -MAX_PLAUSIBLE_EMU <= v <= MAX_PLAUSIBLE_EMU
}

/// A placement, unless one of its coordinates is larger than any sheet.
pub open spec fn bounded(p: Placement) -> Placement {
    match p {
        Placement::At { dx, dy, cx, cy } => if is_plausible(dx) && is_plausible(dy)
            && is_plausible(cx) && is_plausible(cy) {
            p
        } else {
            Placement::TooLarge
        },
        _ => p,
    }
}

/// The offset and size of a picture in groups, outermost group first. The offset
/// is counted from where the outermost group begins.
pub open spec fn grouped_pic<P: Fn(&Vec<GroupContext>, (i64, i64), (i64, i64)) -> Placement>(
    place: P,
    groups: Seq<GroupContext>,
    path: Seq<char>,
    off: (i64, i64),
    ext: (i64, i64),
) -> Result<(i64, i64, i64, i64), ErrorView> {
    if exists|i: int| 0 <= i < groups.len() && is_flat(#[trigger] groups[i]) {
        Err(ErrorView::InvalidPackage("drawing group chExt has zero dimension in "@ + path))
    } else {
        match bounded(placement_of(place, at_anchor(groups), off, ext)) {
            Placement::NonFinite => Err(
                ErrorView::InvalidPackage(
                    "drawing group transform produced a non-finite coordinate in "@ + path,
                ),
            ),
            Placement::TooLarge => Err(
                ErrorView::InvalidPackage(
                    "drawing group transform produced an implausibly large coordinate in "@ + path,
                ),
            ),
            Placement::At { dx, dy, cx, cy } => Ok((dx, dy, cx, cy)),
        }
    }
}

/// Where the outermost group lies has no say in where a picture in it comes to lie,
/// counted from there.
pub proof fn law_outermost_offset_has_no_say<
    P: Fn(&Vec<GroupContext>, (i64, i64), (i64, i64)) -> Placement,
>(
    place: P,
    groups: Seq<GroupContext>,
    others: Seq<GroupContext>,
    path: Seq<char>,
    off: (i64, i64),
    ext: (i64, i64),
)
    requires
        groups.len() == others.len(),
        groups.len() > 0 ==> others[0] == (GroupContext {
            off_x: others[0].off_x,
            off_y: others[0].off_y,
            ..groups[0]
        }),
        forall|i: int| 0 < i < groups.len() ==> #[trigger] groups[i] == others[i],
    ensures
        grouped_pic(place, groups, path, off, ext) == grouped_pic(place, others, path, off, ext),
{
    assert(at_anchor(groups) =~= at_anchor(others));
    assert forall|i: int| 0 <= i < groups.len() implies is_flat(#[trigger] groups[i]) == is_flat(
        others[i],
    ) by {}
    assert forall|i: int| 0 <= i < others.len() implies is_flat(#[trigger] others[i]) == is_flat(
        groups[i],
    ) by {}
}

/// A picture in groups has coordinates that a sheet may have, or is an error; none
/// of its coordinates is cut down to fit.
pub proof fn law_grouped_pictures_are_plausible<
    P: Fn(&Vec<GroupContext>, (i64, i64), (i64, i64)) -> Placement,
>(
    place: P,
    groups: Seq<GroupContext>,
    path: Seq<char>,
    off: (i64, i64),
    ext: (i64, i64),
)
    ensures
        grouped_pic(place, groups, path, off, ext) matches Ok((dx, dy, cx, cy)) ==> {
            &&& is_plausible(dx) && is_plausible(dy) && is_plausible(cx) && is_plausible(cy)
            &&& placement_of(place, at_anchor(groups), off, ext) == Placement::At { dx, dy, cx, cy }
        },
        (exists|i: int| 0 <= i < groups.len() && is_flat(#[trigger] groups[i])) ==> grouped_pic(
            place,
            groups,
            path,
            off,
            ext,
        ) matches Err(ErrorView::InvalidPackage(_)),
{
}

fn plausible(v: i64) -> (r: bool)
    ensures
        r == is_plausible(v),
{
    -MAX_PLAUSIBLE_EMU <= v && v <= MAX_PLAUSIBLE_EMU
}

/// Works out the offset and size of a picture in groups, outermost group first.
/// `place` is asked about groups of which the outermost lies where its anchor does.
pub fn resolve_grouped_pic<P: Fn(&Vec<GroupContext>, (i64, i64), (i64, i64)) -> Placement>(
    groups: &Vec<GroupContext>,
    path: &str,
    pic_off: (i64, i64),
    pic_ext: (i64, i64),
    place: &P,
) -> (r: Result<(i64, i64, i64, i64), Error>)
    requires
        places(*place),
    ensures
        error::plain_result(r) == grouped_pic(*place, groups@, path@, pic_off, pic_ext),
        r matches Ok((dx, dy, cx, cy)) ==> is_plausible(dx) && is_plausible(dy) && is_plausible(cx)
            && is_plausible(cy),
{
    let mut anchored: Vec<GroupContext> = Vec::new();
    let mut i: usize = 0;
    while i < groups.len()
        invariant
            i <= groups@.len(),
            forall|k: int| 0 <= k < i ==> !is_flat(#[trigger] groups@[k]),
            anchored@ == at_anchor(groups@).take(i as int),
        decreases groups@.len() - i,
    {
        if groups[i].ch_ext_cx == 0 || groups[i].ch_ext_cy == 0 {
            assert(is_flat(groups@[i as int]));
            return Err(
                Error::InvalidPackage(
                    text::join2("drawing group chExt has zero dimension in ", path),
                ),
            );
        }
        let g: GroupContext = groups[i];
        if i == 0 {
            anchored.push(GroupContext { off_x: 0, off_y: 0, ..g });
        } else {
            anchored.push(g);
        }
        i += 1;
        assert(anchored@ =~= at_anchor(groups@).take(i as int));
    }
    assert(anchored@ =~= at_anchor(groups@));
    let p: Placement = place(&anchored, pic_off, pic_ext);
    assert(may_lie(*place, anchored@, pic_off, pic_ext, p));
    assert(may_lie(
        *place,
        anchored@,
        pic_off,
        pic_ext,
        placement_of(*place, anchored@, pic_off, pic_ext),
    ));
    let too_large: bool = match p {
        Placement::At { dx, dy, cx, cy } => !plausible(dx) || !plausible(dy) || !plausible(cx)
            || !plausible(cy),
        Placement::TooLarge => true,
        Placement::NonFinite => false,
    };
    if too_large {
        return Err(
            Error::InvalidPackage(
                text::join2(
                    "drawing group transform produced an implausibly large coordinate in ",
                    path,
                ),
            ),
        );
    }
    match p {
        Placement::At { dx, dy, cx, cy } => Ok((dx, dy, cx, cy)),
        _ => Err(
            Error::InvalidPackage(
                text::join2("drawing group transform produced a non-finite coordinate in ", path),
            ),
        ),
    }
}

// ---------------------------------------------------------------------------
// Markers

/// A child of a marker.
#[derive(Debug, Clone, Copy, PartialEq, Eq, Structural)]
pub enum MarkerField {
    Col,
    ColOff,
    Row,
    RowOff,
}

/// A marker being read.
pub struct MarkerReader {
    /// Whether it is the second marker of its anchor.
    pub is_to: bool,
    pub col: Option<u32>,
    pub col_off: Option<i64>,
    pub row: Option<u32>,
    pub row_off: Option<i64>,
    pub leaf: Option<(MarkerField, String)>,
}

/// The state of reading a marker.
#[verifier::ext_equal]
pub struct MarkerState {
    pub is_to: bool,
    pub col: Option<u32>,
    pub col_off: Option<i64>,
    pub row: Option<u32>,
    pub row_off: Option<i64>,
    /// The child that is open, and its text so far.
    pub leaf: Option<(MarkerField, Seq<char>)>,
}

impl View for MarkerReader {
    type V = MarkerState;

    open spec fn view(&self) -> MarkerState {
        MarkerState {
            is_to: self.is_to,
            col: self.col,
            col_off: self.col_off,
            row: self.row,
            row_off: self.row_off,
            leaf: match self.leaf {
                Some((f, s)) => Some((f, s@)),
                None => None,
            },
        }
    }
}

/// A marker of which nothing has been read.
pub open spec fn no_marker(is_to: bool) -> MarkerState {
    MarkerState { is_to, col: None, col_off: None, row: None, row_off: None, leaf: None }
}

/// The child of a marker that an element is.
pub open spec fn field_of(name: Seq<char>) -> Option<MarkerField> {
    if name == "col"@ {
        Some(MarkerField::Col)
    } else if name == "colOff"@ {
        Some(MarkerField::ColOff)
    } else if name == "row"@ {
        Some(MarkerField::Row)
    } else if name == "rowOff"@ {
        Some(MarkerField::RowOff)
    } else {
        None
    }
}

fn find_field(name: &str) -> (f: Option<MarkerField>)
    ensures
        f == field_of(name@),
{
    if text::same(name, "col") {
        Some(MarkerField::Col)
    } else if text::same(name, "colOff") {
        Some(MarkerField::ColOff)
    } else if text::same(name, "row") {
        Some(MarkerField::Row)
    } else if text::same(name, "rowOff") {
        Some(MarkerField::RowOff)
    } else {
        None
    }
}

/// What a marker's child is called in messages.
pub open spec fn field_label(f: MarkerField) -> Seq<char> {
    match f {
        MarkerField::Col => "xdr:col"@,
        MarkerField::ColOff => "xdr:colOff"@,
        MarkerField::Row => "xdr:row"@,
        MarkerField::RowOff => "xdr:rowOff"@,
    }
}

fn label(f: MarkerField) -> (s: &'static str)
    ensures
        s@ == field_label(f),
{
    match f {
        MarkerField::Col => "xdr:col",
        MarkerField::ColOff => "xdr:colOff",
        MarkerField::Row => "xdr:row",
        MarkerField::RowOff => "xdr:rowOff",
    }
}

/// The error that a malformed value of what is called `what` is.
pub open spec fn invalid(what: Seq<char>, s: Seq<char>, path: Seq<char>) -> ErrorView {
    ErrorView::InvalidPackage(text::complaint(text::invalid_name(what), s, path))
}

/// A marker with the value of one child set.
pub open spec fn with_field(m: MarkerState, f: MarkerField, s: Seq<char>, path: Seq<char>) -> Result<
    MarkerState,
    ErrorView,
> {
    let short = text::unsigned_value(text::trim(s), u32::MAX as int);
    let long = text::signed_value(text::trim(s));
    match f {
        MarkerField::Col => match short {
            Some(v) => Ok(MarkerState { col: Some(v as u32), leaf: None, ..m }),
            None => Err(invalid(field_label(f), s, path)),
        },
        MarkerField::Row => match short {
            Some(v) => Ok(MarkerState { row: Some(v as u32), leaf: None, ..m }),
            None => Err(invalid(field_label(f), s, path)),
        },
        MarkerField::ColOff => match long {
            Some(v) => Ok(MarkerState { col_off: Some(v as i64), leaf: None, ..m }),
            None => Err(invalid(field_label(f), s, path)),
        },
        MarkerField::RowOff => match long {
            Some(v) => Ok(MarkerState { row_off: Some(v as i64), leaf: None, ..m }),
            None => Err(invalid(field_label(f), s, path)),
        },
    }
}

/// The state of a marker after one more event that does not close it.
pub open spec fn marker_step(m: MarkerState, ev: EventView, path: Seq<char>) -> Result<
    MarkerState,
    ErrorView,
> {
    match m.leaf {
        Some((f, s)) => match rich_text::leaf_step(s, ev, path) {
            Err(e) => Err(e),
            Ok(t) => if ev is End {
                with_field(m, f, t, path)
            } else {
                Ok(MarkerState { leaf: Some((f, t)), ..m })
            },
        },
        None => match ev {
            EventView::Start(tag) => match field_of(tag.name) {
                Some(f) => Ok(MarkerState { leaf: Some((f, Seq::empty())), ..m }),
                None => Ok(m),
            },
            EventView::Eof => Err(
                ErrorView::MissingRequiredElement { path, name: "closing tag"@ },
            ),
            _ => Ok(m),
        },
    }
}

/// Whether an event closes a marker.
pub open spec fn closes_marker(m: MarkerState, ev: EventView) -> bool {
    m.leaf is None && (ev matches EventView::End(n) && (n == "from"@ || n == "to"@))
}

/// The cell at coordinates that count from zero.
pub open spec fn cell_from_zero(row0: u32, col0: u32, path: Seq<char>) -> Result<
    CellRef,
    ErrorView,
> {
    if row0 + 1 <= CellRef::MAX_ROW && col0 + 1 <= CellRef::MAX_COL {
        Ok(CellRef { row: (row0 + 1) as u32, col: (col0 + 1) as u32 })
    } else {
        Err(
            ErrorView::InvalidCellRef(
                "drawing anchor row="@ + text::decimal(row0 as nat) + " col="@ + text::decimal(
                    col0 as nat,
                ) + " (0-based) in "@ + path,
            ),
        )
    }
}

/// The cell at coordinates that count from zero.
pub fn zero_based_to_cell_ref(row0: u32, col0: u32, path: &str) -> (r: Result<CellRef, Error>)
    ensures
        error::plain_result(r) == cell_from_zero(row0, col0, path@),
{
    if row0 < CellRef::MAX_ROW && col0 < CellRef::MAX_COL {
        Ok(CellRef { row: row0 + 1, col: col0 + 1 })
    } else {
        let mut m: String = text::join3(
            "drawing anchor row=",
            text::decimal_text(row0 as u64).as_str(),
            " col=",
        );
        text::push_text(&mut m, text::decimal_text(col0 as u64).as_str());
        text::push_text(&mut m, " (0-based) in ");
        text::push_text(&mut m, path);
        Err(Error::InvalidCellRef(m))
    }
}

/// The offset that an absent child stands for.
pub open spec fn or_zero(v: Option<i64>) -> i64 {
    match v {
        Some(x) => x,
        None => 0,
    }
}

/// The position that a complete marker denotes.
pub open spec fn marker_value(m: MarkerState, path: Seq<char>) -> Result<AnchorMarker, ErrorView> {
    match m.col {
        None => Err(ErrorView::MissingRequiredElement { path, name: "xdr:col"@ }),
        Some(col) => match m.row {
            None => Err(ErrorView::MissingRequiredElement { path, name: "xdr:row"@ }),
            Some(row) => match cell_from_zero(row, col, path) {
                Err(e) => Err(e),
                Ok(cell) => Ok(
                    AnchorMarker {
                        cell,
                        col_off: or_zero(m.col_off),
                        row_off: or_zero(m.row_off),
                    },
                ),
            },
        },
    }
}

impl MarkerReader {
    fn new(is_to: bool) -> (m: MarkerReader)
        ensures
            m@ == no_marker(is_to),
    {
        MarkerReader { is_to, col: None, col_off: None, row: None, row_off: None, leaf: None }
    }

    fn set_field(&mut self, f: MarkerField, s: &str, path: &str) -> (r: Result<(), Error>)
        requires
            old(self)@.leaf is None,
        ensures
            match with_field(old(self)@, f, s@, path@) {
                Ok(m) => r is Ok && final(self)@ == m,
                Err(e) => r matches Err(x) && x@ == e,
            },
    {
        let chars: Vec<char> = text::trimmed(s);
        match f {
            MarkerField::Col => match text::parse_unsigned(&chars, u32::MAX as u64) {
                Some(v) => {
                    self.col = Some(v as u32);
                    Ok(())
                },
                None => Err(Error::InvalidPackage(text::complain_of(label(f), s, path))),
            },
            MarkerField::Row => match text::parse_unsigned(&chars, u32::MAX as u64) {
                Some(v) => {
                    self.row = Some(v as u32);
                    Ok(())
                },
                None => Err(Error::InvalidPackage(text::complain_of(label(f), s, path))),
            },
            MarkerField::ColOff => match text::parse_signed(&chars) {
                Some(v) => {
                    self.col_off = Some(v);
                    Ok(())
                },
                None => Err(Error::InvalidPackage(text::complain_of(label(f), s, path))),
            },
            MarkerField::RowOff => match text::parse_signed(&chars) {
                Some(v) => {
                    self.row_off = Some(v);
                    Ok(())
                },
                None => Err(Error::InvalidPackage(text::complain_of(label(f), s, path))),
            },
        }
    }

    fn step(&mut self, ev: &XmlEvent, path: &str) -> (r: Result<(), Error>)
        ensures
            match marker_step(old(self)@, ev@, path@) {
                Ok(m) => r is Ok && final(self)@ == m,
                Err(e) => r matches Err(x) && x@ == e,
            },
    {
        match self.leaf.take() {
            Some((f, mut s)) => match rich_text::read_leaf_text(&mut s, ev, path) {
                Err(e) => Err(e),
                Ok(true) => self.set_field(f, s.as_str(), path),
                Ok(false) => {
                    self.leaf = Some((f, s));
                    Ok(())
                },
            },
            None => match ev {
                XmlEvent::Start(tag) => {
                    if let Some(f) = find_field(tag.name.as_str()) {
                        let s: String = String::new();
                        assert(s@ =~= Seq::<char>::empty());
                        self.leaf = Some((f, s));
                    }
                    Ok(())
                },
                XmlEvent::Eof => Err(
                    Error::MissingRequiredElement { path: path.to_owned(), name: "closing tag" },
                ),
                _ => Ok(()),
            },
        }
    }

    fn is_closed_by(&self, ev: &XmlEvent) -> (r: bool)
        ensures
            r == closes_marker(self@, ev@),
    {
        if self.leaf.is_some() {
            return false;
        }
        match ev {
            XmlEvent::End(n) => text::same(n.as_str(), "from") || text::same(n.as_str(), "to"),
            _ => false,
        }
    }

    fn value(&self, path: &str) -> (r: Result<AnchorMarker, Error>)
        ensures
            error::plain_result(r) == marker_value(self@, path@),
    {
        let col: u32 = match self.col {
            Some(c) => c,
            None => {
                return Err(
                    Error::MissingRequiredElement { path: path.to_owned(), name: "xdr:col" },
                );
            },
        };
        let row: u32 = match self.row {
            Some(r) => r,
            None => {
                return Err(
                    Error::MissingRequiredElement { path: path.to_owned(), name: "xdr:row" },
                );
            },
        };
        match zero_based_to_cell_ref(row, col, path) {
            Ok(cell) => Ok(
                AnchorMarker {
                    cell,
                    col_off: match self.col_off {
                        Some(v) => v,
                        None => 0,
                    },
                    row_off: match self.row_off {
                        Some(v) => v,
                        None => 0,
                    },
                },
            ),
            Err(e) => Err(e),
        }
    }
}

// ---------------------------------------------------------------------------
// Anchors

/// An anchor being read.
pub struct AnchorReader {
    pub is_two_cell: bool,
    pub from: Option<AnchorMarker>,
    pub to: Option<AnchorMarker>,
    pub ext: Option<ImageExtent>,
    pub groups: Vec<GroupContext>,
    pub in_pic: bool,
    pub in_sp_pr: bool,
    pub in_grp_sp_pr: bool,
    pub embed_r_id: Option<String>,
    pub hyperlink_r_id: Option<String>,
    pub pic_off: (i64, i64),
    pub pic_ext: (i64, i64),
    pub marker: Option<MarkerReader>,
}

/// The state of reading an anchor.
#[verifier::ext_equal]
pub struct AnchorState {
    pub is_two_cell: bool,
    pub from: Option<AnchorMarker>,
    pub to: Option<AnchorMarker>,
    pub ext: Option<ImageExtent>,
    /// The groups that are open, outermost first.
    pub groups: Seq<GroupContext>,
    pub in_pic: bool,
    /// Whether the properties of a picture in a group are open.
    pub in_sp_pr: bool,
    /// Whether the properties of a group are open.
    pub in_grp_sp_pr: bool,
    pub embed_r_id: Option<Seq<char>>,
    pub hyperlink_r_id: Option<Seq<char>>,
    pub pic_off: (i64, i64),
    pub pic_ext: (i64, i64),
    /// The marker that is open.
    pub marker: Option<MarkerState>,
}

impl View for AnchorReader {
    type V = AnchorState;

    open spec fn view(&self) -> AnchorState {
        AnchorState {
            is_two_cell: self.is_two_cell,
            from: self.from,
            to: self.to,
            ext: self.ext,
            groups: self.groups@,
            in_pic: self.in_pic,
            in_sp_pr: self.in_sp_pr,
            in_grp_sp_pr: self.in_grp_sp_pr,
            embed_r_id: text::text_opt(self.embed_r_id),
            hyperlink_r_id: text::text_opt(self.hyperlink_r_id),
            pic_off: self.pic_off,
            pic_ext: self.pic_ext,
            marker: match self.marker {
                Some(m) => Some(m@),
                None => None,
            },
        }
    }
}

/// An anchor of which nothing has been read.
pub open spec fn no_anchor(is_two_cell: bool) -> AnchorState {
    AnchorState {
        is_two_cell,
        from: None,
        to: None,
        ext: None,
        groups: Seq::empty(),
        in_pic: false,
        in_sp_pr: false,
        in_grp_sp_pr: false,
        embed_r_id: None,
        hyperlink_r_id: None,
        pic_off: (0, 0),
        pic_ext: (0, 0),
        marker: None,
    }
}

/// The number that an attribute states.
pub open spec fn i64_attr(tag: TagView, path: Seq<char>, name: Seq<char>) -> Result<
    i64,
    ErrorView,
> {
    match xml::required_value(tag.attrs, path, name) {
        Err(e) => Err(e),
        Ok(s) => match text::signed_value(text::trim(s)) {
            Some(v) => Ok(v as i64),
            None => Err(invalid(name, s, path)),
        },
    }
}

/// Reads an attribute that states a number.
pub fn parse_attr_i64(tag: &XmlTag, path: &str, name: &'static str) -> (r: Result<i64, Error>)
    ensures
        error::plain_result(r) == i64_attr(tag@, path@, name@),
{
    match xml::required_attr(tag, path, name) {
        Err(e) => Err(e),
        Ok(s) => {
            let chars: Vec<char> = text::trimmed(s.as_str());
            match text::parse_signed(&chars) {
                Some(v) => Ok(v),
                None => Err(Error::InvalidPackage(text::complain_of(name, s.as_str(), path))),
            }
        },
    }
}

/// The pair of numbers that two attributes state.
pub open spec fn pair_attr(tag: TagView, path: Seq<char>, a: Seq<char>, b: Seq<char>) -> Result<
    (i64, i64),
    ErrorView,
> {
    match i64_attr(tag, path, a) {
        Err(e) => Err(e),
        Ok(x) => match i64_attr(tag, path, b) {
            Err(e) => Err(e),
            Ok(y) => Ok((x, y)),
        },
    }
}

fn parse_pair(tag: &XmlTag, path: &str, a: &'static str, b: &'static str) -> (r: Result<
    (i64, i64),
    Error,
>)
    ensures
        error::plain_result(r) == pair_attr(tag@, path@, a@, b@),
{
    match parse_attr_i64(tag, path, a) {
        Err(e) => Err(e),
        Ok(x) => match parse_attr_i64(tag, path, b) {
            Err(e) => Err(e),
            Ok(y) => Ok((x, y)),
        },
    }
}

/// An anchor with its innermost group replaced.
pub open spec fn with_innermost(a: AnchorState, g: GroupContext) -> AnchorState {
    if a.groups.len() > 0 {
        AnchorState { groups: a.groups.update(a.groups.len() - 1, g), ..a }
    } else {
        a
    }
}

/// Where a picture that is complete sits.
pub open spec fn pic_anchor<P: Fn(&Vec<GroupContext>, (i64, i64), (i64, i64)) -> Placement>(
    a: AnchorState,
    path: Seq<char>,
    place: P,
) -> Result<ImageAnchor, ErrorView> {
    match a.from {
        None => Err(ErrorView::MissingRequiredElement { path, name: "xdr:from"@ }),
        Some(from) => if a.groups.len() > 0 {
            match grouped_pic(place, a.groups, path, a.pic_off, a.pic_ext) {
                Err(e) => Err(e),
                Ok((dx, dy, cx, cy)) => Ok(
                    ImageAnchor::OneCell {
                        from: AnchorMarker {
                            cell: from.cell,
                            col_off: from.col_off.wrapping_add(dx),
                            row_off: from.row_off.wrapping_add(dy),
                        },
                        ext: ImageExtent { cx, cy },
                    },
                ),
            }
        } else if a.is_two_cell {
            match a.to {
                None => Err(ErrorView::MissingRequiredElement { path, name: "xdr:to"@ }),
                Some(to) => Ok(ImageAnchor::TwoCell { from, to }),
            }
        } else {
            match a.ext {
                None => Err(ErrorView::MissingRequiredElement { path, name: "xdr:ext"@ }),
                Some(ext) => Ok(ImageAnchor::OneCell { from, ext }),
            }
        },
    }
}

/// The state of an anchor after the start tag, or the empty-element tag, of a
/// picture's data or hyperlink.
pub open spec fn reference_tag(a: AnchorState, tag: TagView, path: Seq<char>) -> Result<
    AnchorState,
    ErrorView,
> {
    if tag.name == "blip"@ && a.in_pic {
        match xml::required_value(tag.attrs, path, "r:embed"@) {
            Err(e) => Err(e),
            Ok(id) => Ok(AnchorState { embed_r_id: Some(id), ..a }),
        }
    } else if tag.name == "hlinkClick"@ && a.in_pic {
        match xml::attr_value(tag.attrs, path, "r:id"@) {
            Err(e) => Err(e),
            Ok(id) => Ok(AnchorState { hyperlink_r_id: id, ..a }),
        }
    } else {
        Ok(a)
    }
}

/// The state of an anchor after a start tag.
pub open spec fn anchor_start(a: AnchorState, tag: TagView, path: Seq<char>) -> Result<
    AnchorState,
    ErrorView,
> {
    if tag.name == "from"@ {
        Ok(AnchorState { marker: Some(no_marker(false)), ..a })
    } else if tag.name == "to"@ {
        Ok(AnchorState { marker: Some(no_marker(true)), ..a })
    } else if tag.name == "pic"@ {
        Ok(AnchorState { in_pic: true, ..a })
    } else if tag.name == "spPr"@ && a.in_pic && a.groups.len() > 0 {
        Ok(AnchorState { in_sp_pr: true, ..a })
    } else if tag.name == "grpSp"@ {
        if a.groups.len() >= MAX_GROUP_NESTING_DEPTH {
            Err(
                ErrorView::TooManyNestedGroups {
                    path,
                    depth: (a.groups.len() + 1) as usize,
                    limit: MAX_GROUP_NESTING_DEPTH,
                },
            )
        } else {
            Ok(AnchorState { groups: a.groups.push(no_group()), ..a })
        }
    } else if tag.name == "grpSpPr"@ {
        Ok(AnchorState { in_grp_sp_pr: true, ..a })
    } else {
        reference_tag(a, tag, path)
    }
}

/// The state of an anchor after an empty-element tag.
pub open spec fn anchor_empty(a: AnchorState, tag: TagView, path: Seq<char>) -> Result<
    AnchorState,
    ErrorView,
> {
    if tag.name == "off"@ {
        match pair_attr(tag, path, "x"@, "y"@) {
            Err(e) => Err(e),
            Ok((x, y)) => if a.in_grp_sp_pr {
                Ok(with_innermost(a, GroupContext { off_x: x, off_y: y, ..a.groups.last() }))
            } else if a.in_sp_pr {
                Ok(AnchorState { pic_off: (x, y), ..a })
            } else {
                Ok(a)
            },
        }
    } else if tag.name == "ext"@ {
        if a.in_grp_sp_pr || a.in_sp_pr || !a.in_pic {
            match pair_attr(tag, path, "cx"@, "cy"@) {
                Err(e) => Err(e),
                Ok((cx, cy)) => if a.in_grp_sp_pr {
                    Ok(
                        with_innermost(
                            a,
                            GroupContext { ext_cx: cx, ext_cy: cy, ..a.groups.last() },
                        ),
                    )
                } else if a.in_sp_pr {
                    Ok(AnchorState { pic_ext: (cx, cy), ..a })
                } else {
                    Ok(AnchorState { ext: Some(ImageExtent { cx, cy }), ..a })
                },
            }
        } else {
            Ok(a)
        }
    } else if tag.name == "chOff"@ && a.in_grp_sp_pr {
        match pair_attr(tag, path, "x"@, "y"@) {
            Err(e) => Err(e),
            Ok((x, y)) => Ok(
                with_innermost(a, GroupContext { ch_off_x: x, ch_off_y: y, ..a.groups.last() }),
            ),
        }
    } else if tag.name == "chExt"@ && a.in_grp_sp_pr {
        match pair_attr(tag, path, "cx"@, "cy"@) {
            Err(e) => Err(e),
            Ok((cx, cy)) => Ok(
                with_innermost(a, GroupContext { ch_ext_cx: cx, ch_ext_cy: cy, ..a.groups.last() }),
            ),
        }
    } else {
        reference_tag(a, tag, path)
    }
}

/// The state of an anchor after an end tag that neither ends a picture nor the
/// anchor.
pub open spec fn anchor_end(a: AnchorState, name: Seq<char>) -> AnchorState {
    if name == "spPr"@ {
        AnchorState { in_sp_pr: false, ..a }
    } else if name == "grpSp"@ {
        if a.groups.len() > 0 {
            AnchorState { groups: a.groups.drop_last(), ..a }
        } else {
            a
        }
    } else if name == "grpSpPr"@ {
        AnchorState { in_grp_sp_pr: false, ..a }
    } else {
        a
    }
}

/// The state of an anchor after the end of a picture.
pub open spec fn pic_closed(a: AnchorState) -> AnchorState {
    AnchorState {
        in_pic: false,
        embed_r_id: None,
        hyperlink_r_id: None,
        pic_off: (0, 0),
        pic_ext: (0, 0),
        ..a
    }
}

/// Data and hyperlinks belong to the picture that is open: where none is, they are
/// passed over.
pub proof fn law_only_pictures_have_data_and_hyperlinks(
    a: AnchorState,
    tag: TagView,
    path: Seq<char>,
)
    requires
        !a.in_pic,
    ensures
        reference_tag(a, tag, path) == Ok::<AnchorState, ErrorView>(a),
{
}

/// Nothing of a picture that has ended reaches what follows it: not its data, its
/// hyperlink, its position or its size.
pub proof fn law_nothing_passes_from_one_picture_to_the_next(a: AnchorState, b: AnchorState)
    requires
        a == (AnchorState {
            in_pic: a.in_pic,
            embed_r_id: a.embed_r_id,
            hyperlink_r_id: a.hyperlink_r_id,
            pic_off: a.pic_off,
            pic_ext: a.pic_ext,
            ..b
        }),
    ensures
        pic_closed(a) == pic_closed(b),
        pic_closed(a).embed_r_id is None,
        pic_closed(a).hyperlink_r_id is None,
{
}

/// Whether an end tag ends the anchor.
pub open spec fn ends_anchor(a: AnchorState, name: Seq<char>) -> bool {
    (name == "twoCellAnchor"@ || name == "oneCellAnchor"@) && a.groups.len() == 0
}

impl AnchorReader {
    fn new(is_two_cell: bool) -> (a: AnchorReader)
        ensures
            a@ == no_anchor(is_two_cell),
    {
        let a = AnchorReader {
            is_two_cell,
            from: None,
            to: None,
            ext: None,
            groups: Vec::new(),
            in_pic: false,
            in_sp_pr: false,
            in_grp_sp_pr: false,
            embed_r_id: None,
            hyperlink_r_id: None,
            pic_off: (0, 0),
            pic_ext: (0, 0),
            marker: None,
        };
        assert(a@ =~= no_anchor(is_two_cell));
        a
    }

    fn reference(&mut self, tag: &XmlTag, path: &str) -> (r: Result<(), Error>)
        ensures
            match reference_tag(old(self)@, tag@, path@) {
                Ok(a) => r is Ok && final(self)@ == a,
                Err(e) => r matches Err(x) && x@ == e,
            },
    {
        let name: &str = tag.name.as_str();
        if self.in_pic && text::same(name, "blip") {
            match xml::required_attr(tag, path, "r:embed") {
                Ok(id) => {
                    self.embed_r_id = Some(id);
                },
                Err(e) => {
                    return Err(e);
                },
            }
        } else if text::same(name, "hlinkClick") && self.in_pic {
            match xml::optional_attr(tag, path, "r:id") {
                Ok(id) => {
                    self.hyperlink_r_id = id;
                },
                Err(e) => {
                    return Err(e);
                },
            }
        }
        Ok(())
    }

    fn start(&mut self, tag: &XmlTag, path: &str) -> (r: Result<(), Error>)
        requires
            old(self)@.groups.len() <= MAX_GROUP_NESTING_DEPTH,
        ensures
            match anchor_start(old(self)@, tag@, path@) {
                Ok(a) => r is Ok && final(self)@ == a,
                Err(e) => r matches Err(x) && x@ == e,
            },
    {
        let name: &str = tag.name.as_str();
        if text::same(name, "from") {
            self.marker = Some(MarkerReader::new(false));
        } else if text::same(name, "to") {
            self.marker = Some(MarkerReader::new(true));
        } else if text::same(name, "pic") {
            self.in_pic = true;
        } else if text::same(name, "spPr") && self.in_pic && self.groups.len() > 0 {
            self.in_sp_pr = true;
        } else if text::same(name, "grpSp") {
            if self.groups.len() >= MAX_GROUP_NESTING_DEPTH {
                return Err(
                    Error::TooManyNestedGroups {
                        path: path.to_owned(),
                        depth: self.groups.len() + 1,
                        limit: MAX_GROUP_NESTING_DEPTH,
                    },
                );
            }
            self.groups.push(GroupContext::default());
        } else if text::same(name, "grpSpPr") {
            self.in_grp_sp_pr = true;
        } else {
            return self.reference(tag, path);
        }
        Ok(())
    }

    fn innermost(&self) -> (g: Option<GroupContext>)
        ensures
            g == (if self@.groups.len() > 0 {
                Some(self@.groups.last())
            } else {
                None
            }),
    {
        if self.groups.len() > 0 {
            Some(self.groups[self.groups.len() - 1])
        } else {
            None
        }
    }

    fn set_innermost(&mut self, g: GroupContext)
        ensures
            final(self)@ == with_innermost(old(self)@, g),
    {
        let n: usize = self.groups.len();
        if n > 0 {
            self.groups.set(n - 1, g);
        }
    }

    fn empty(&mut self, tag: &XmlTag, path: &str) -> (r: Result<(), Error>)
        ensures
            match anchor_empty(old(self)@, tag@, path@) {
                Ok(a) => r is Ok && final(self)@ == a,
                Err(e) => r matches Err(x) && x@ == e,
            },
    {
        let name: &str = tag.name.as_str();
        if text::same(name, "off") {
            let (x, y): (i64, i64) = match parse_pair(tag, path, "x", "y") {
                Ok(p) => p,
                Err(e) => {
                    return Err(e);
                },
            };
            if self.in_grp_sp_pr {
                if let Some(g) = self.innermost() {
                    self.set_innermost(GroupContext { off_x: x, off_y: y, ..g });
                }
            } else if self.in_sp_pr {
                self.pic_off = (x, y);
            }
        } else if text::same(name, "ext") {
            if self.in_grp_sp_pr || self.in_sp_pr || !self.in_pic {
                let (cx, cy): (i64, i64) = match parse_pair(tag, path, "cx", "cy") {
                    Ok(p) => p,
                    Err(e) => {
                        return Err(e);
                    },
                };
                if self.in_grp_sp_pr {
                    if let Some(g) = self.innermost() {
                        self.set_innermost(GroupContext { ext_cx: cx, ext_cy: cy, ..g });
                    }
                } else if self.in_sp_pr {
                    self.pic_ext = (cx, cy);
                } else {
                    self.ext = Some(ImageExtent { cx, cy });
                }
            }
        } else if text::same(name, "chOff") && self.in_grp_sp_pr {
            let (x, y): (i64, i64) = match parse_pair(tag, path, "x", "y") {
                Ok(p) => p,
                Err(e) => {
                    return Err(e);
                },
            };
            if let Some(g) = self.innermost() {
                self.set_innermost(GroupContext { ch_off_x: x, ch_off_y: y, ..g });
            }
        } else if text::same(name, "chExt") && self.in_grp_sp_pr {
            let (cx, cy): (i64, i64) = match parse_pair(tag, path, "cx", "cy") {
                Ok(p) => p,
                Err(e) => {
                    return Err(e);
                },
            };
            if let Some(g) = self.innermost() {
                self.set_innermost(GroupContext { ch_ext_cx: cx, ch_ext_cy: cy, ..g });
            }
        } else {
            return self.reference(tag, path);
        }
        Ok(())
    }

    fn end(&mut self, name: &str)
        ensures
            final(self)@ == anchor_end(old(self)@, name@),
    {
        if text::same(name, "spPr") {
            self.in_sp_pr = false;
        } else if text::same(name, "grpSp") {
            let gone: Option<GroupContext> = self.groups.pop();
            assert(self@.groups =~= anchor_end(old(self)@, name@).groups);
        } else if text::same(name, "grpSpPr") {
            self.in_grp_sp_pr = false;
        }
    }

    fn anchor<P: Fn(&Vec<GroupContext>, (i64, i64), (i64, i64)) -> Placement>(
        &self,
        path: &str,
        place: &P,
    ) -> (r: Result<ImageAnchor, Error>)
        requires
            places(*place),
        ensures
            error::plain_result(r) == pic_anchor(self@, path@, *place),
    {
        let from: AnchorMarker = match self.from {
            Some(m) => m,
            None => {
                return Err(
                    Error::MissingRequiredElement { path: path.to_owned(), name: "xdr:from" },
                );
            },
        };
        if self.groups.len() > 0 {
            return match resolve_grouped_pic(
                &self.groups,
                path,
                self.pic_off,
                self.pic_ext,
                place,
            ) {
                Ok((dx, dy, cx, cy)) => Ok(
                    ImageAnchor::OneCell {
                        from: AnchorMarker {
                            cell: from.cell,
                            col_off: from.col_off.wrapping_add(dx),
                            row_off: from.row_off.wrapping_add(dy),
                        },
                        ext: ImageExtent { cx, cy },
                    },
                ),
                Err(e) => Err(e),
            };
        }
        if self.is_two_cell {
            match self.to {
                Some(to) => Ok(ImageAnchor::TwoCell { from, to }),
                None => Err(
                    Error::MissingRequiredElement { path: path.to_owned(), name: "xdr:to" },
                ),
            }
        } else {
            match self.ext {
                Some(ext) => Ok(ImageAnchor::OneCell { from, ext }),
                None => Err(
                    Error::MissingRequiredElement { path: path.to_owned(), name: "xdr:ext" },
                ),
            }
        }
    }
}

// ---------------------------------------------------------------------------
// The parser

/// A drawing part being read.
pub struct DrawingParser<'a, P> {
    pub place: &'a P,
    pub images: Vec<PendingImage>,
    pub anchor: Option<AnchorReader>,
}

/// The state of reading a drawing part.
#[verifier::ext_equal]
pub struct DrawingState<P> {
    pub place: P,
    pub images: Seq<PendingImageView>,
    /// The anchor that is open.
    pub anchor: Option<AnchorState>,
}

impl<'a, P> View for DrawingParser<'a, P> {
    type V = DrawingState<P>;

    open spec fn view(&self) -> DrawingState<P> {
        DrawingState {
            place: *self.place,
            images: pending_image_views(self.images@),
            anchor: match self.anchor {
                Some(a) => Some(a@),
                None => None,
            },
        }
    }
}

/// The state after the end of a picture: it counts if it has data.
pub open spec fn pic_end<P: Fn(&Vec<GroupContext>, (i64, i64), (i64, i64)) -> Placement>(
    st: DrawingState<P>,
    a: AnchorState,
    path: Seq<char>,
) -> Result<DrawingState<P>, ErrorView> {
    match a.embed_r_id {
        None => Ok(DrawingState { anchor: Some(pic_closed(a)), ..st }),
        Some(id) => match pic_anchor(a, path, st.place) {
            Err(e) => Err(e),
            Ok(anchor) => Ok(
                DrawingState {
                    images: st.images.push(
                        PendingImageView {
                            anchor,
                            embed_r_id: id,
                            hyperlink_r_id: a.hyperlink_r_id,
                        },
                    ),
                    anchor: Some(pic_closed(a)),
                    ..st
                },
            ),
        },
    }
}

/// The state after one more event of the anchor that is open.
pub open spec fn anchor_event<P: Fn(&Vec<GroupContext>, (i64, i64), (i64, i64)) -> Placement>(
    st: DrawingState<P>,
    a: AnchorState,
    ev: EventView,
    path: Seq<char>,
) -> Result<DrawingState<P>, ErrorView> {
    match a.marker {
        Some(m) => if closes_marker(m, ev) {
            match marker_value(m, path) {
                Err(e) => Err(e),
                Ok(v) => Ok(
                    DrawingState {
                        anchor: Some(
                            if m.is_to {
                                AnchorState { to: Some(v), marker: None, ..a }
                            } else {
                                AnchorState { from: Some(v), marker: None, ..a }
                            },
                        ),
                        ..st
                    },
                ),
            }
        } else {
            match marker_step(m, ev, path) {
                Err(e) => Err(e),
                Ok(n) => Ok(
                    DrawingState { anchor: Some(AnchorState { marker: Some(n), ..a }), ..st },
                ),
            }
        },
        None => match ev {
            EventView::Start(tag) => match anchor_start(a, tag, path) {
                Err(e) => Err(e),
                Ok(b) => Ok(DrawingState { anchor: Some(b), ..st }),
            },
            EventView::Empty(tag) => match anchor_empty(a, tag, path) {
                Err(e) => Err(e),
                Ok(b) => Ok(DrawingState { anchor: Some(b), ..st }),
            },
            EventView::End(name) => if name == "pic"@ {
                pic_end(st, a, path)
            } else if ends_anchor(a, name) {
                Ok(DrawingState { anchor: None, ..st })
            } else {
                Ok(DrawingState { anchor: Some(anchor_end(a, name)), ..st })
            },
            EventView::Eof => Err(
                ErrorView::MissingRequiredElement { path, name: "closing tag"@ },
            ),
            _ => Ok(st),
        },
    }
}

/// The state after one more event.
pub open spec fn drawing_step<P: Fn(&Vec<GroupContext>, (i64, i64), (i64, i64)) -> Placement>(
    st: DrawingState<P>,
    ev: EventView,
    path: Seq<char>,
) -> Result<DrawingState<P>, ErrorView> {
    match st.anchor {
        Some(a) => anchor_event(st, a, ev, path),
        None => match ev {
            EventView::Start(tag) => if tag.name == "twoCellAnchor"@ {
                Ok(DrawingState { anchor: Some(no_anchor(true)), ..st })
            } else if tag.name == "oneCellAnchor"@ {
                Ok(DrawingState { anchor: Some(no_anchor(false)), ..st })
            } else {
                Ok(st)
            },
            _ => Ok(st),
        },
    }
}

impl<'a, P: Fn(&Vec<GroupContext>, (i64, i64), (i64, i64)) -> Placement> DrawingParser<'a, P> {
    fn close_pic(&mut self, a: AnchorReader, path: &str) -> (r: Result<(), Error>)
        requires
            old(self).inv(),
            a@.groups.len() <= MAX_GROUP_NESTING_DEPTH,
        ensures
            match pic_end(old(self)@, a@, path@) {
                Ok(s) => r is Ok && final(self)@ == s && final(self).inv(),
                Err(e) => r matches Err(x) && x@ == e,
            },
    {
        let mut b: AnchorReader = a;
        if b.embed_r_id.is_some() {
            let anchor: ImageAnchor = match b.anchor(path, self.place) {
                Ok(v) => v,
                Err(e) => {
                    return Err(e);
                },
            };
            if let Some(id) = b.embed_r_id.take() {
                let link: Option<String> = b.hyperlink_r_id.take();
                let image = PendingImage { anchor, embed_r_id: id, hyperlink_r_id: link };
                self.images.push(image);
                assert(self@.images =~= old(self)@.images.push(image@));
            }
        }
        b.in_pic = false;
        b.hyperlink_r_id = None;
        b.pic_off = (0, 0);
        b.pic_ext = (0, 0);
        assert(b@ =~= pic_closed(a@));
        self.anchor = Some(b);
        Ok(())
    }

    fn in_marker(&mut self, a: AnchorReader, marker: MarkerReader, ev: &XmlEvent, path: &str) -> (r:
        Result<(), Error>)
        requires
            old(self).inv(),
            a@.marker is None,
            a@.groups.len() <= MAX_GROUP_NESTING_DEPTH,
        ensures
            match anchor_event(
                old(self)@,
                (AnchorState { marker: Some(marker@), ..a@ }),
                ev@,
                path@,
            ) {
                Ok(s) => r is Ok && final(self)@ == s && final(self).inv(),
                Err(e) => r matches Err(x) && x@ == e,
            },
    {
        let mut b: AnchorReader = a;
        let mut m: MarkerReader = marker;
        if m.is_closed_by(ev) {
            let v: AnchorMarker = match m.value(path) {
                Ok(v) => v,
                Err(e) => {
                    return Err(e);
                },
            };
            if m.is_to {
                b.to = Some(v);
            } else {
                b.from = Some(v);
            }
            self.anchor = Some(b);
            return Ok(());
        }
        match m.step(ev, path) {
            Ok(()) => {},
            Err(e) => {
                return Err(e);
            },
        }
        b.marker = Some(m);
        self.anchor = Some(b);
        Ok(())
    }

    fn in_anchor(&mut self, a: AnchorReader, ev: &XmlEvent, path: &str) -> (r: Result<(), Error>)
        requires
            old(self).inv(),
            old(self)@.anchor is None,
            a@.groups.len() <= MAX_GROUP_NESTING_DEPTH,
        ensures
            match anchor_event(
                (DrawingState { anchor: Some(a@), ..old(self)@ }),
                a@,
                ev@,
                path@,
            ) {
                Ok(s) => r is Ok && final(self)@ == s && final(self).inv(),
                Err(e) => r matches Err(x) && x@ == e,
            },
    {
        let mut b: AnchorReader = a;
        if let Some(m) = b.marker.take() {
            assert((AnchorState { marker: Some(m@), ..b@ }) =~= a@);
            return self.in_marker(b, m, ev, path);
        }
        match ev {
            XmlEvent::Start(tag) => {
                match b.start(tag, path) {
                    Ok(()) => {},
                    Err(e) => {
                        return Err(e);
                    },
                }
                self.anchor = Some(b);
            },
            XmlEvent::Empty(tag) => {
                match b.empty(tag, path) {
                    Ok(()) => {},
                    Err(e) => {
                        return Err(e);
                    },
                }
                self.anchor = Some(b);
            },
            XmlEvent::End(name) => {
                if text::same(name.as_str(), "pic") {
                    return self.close_pic(b, path);
                }
                if (text::same(name.as_str(), "twoCellAnchor") || text::same(
                    name.as_str(),
                    "oneCellAnchor",
                )) && b.groups.len() == 0 {
                    return Ok(());
                }
                b.end(name.as_str());
                self.anchor = Some(b);
            },
            XmlEvent::Eof => {
                return Err(
                    Error::MissingRequiredElement { path: path.to_owned(), name: "closing tag" },
                );
            },
            _ => {
                self.anchor = Some(b);
            },
        }
        Ok(())
    }
}

impl<'a, P: Fn(&Vec<GroupContext>, (i64, i64), (i64, i64)) -> Placement> PartParser
    for DrawingParser<'a, P> {
    open spec fn inv(&self) -> bool {
        &&& places(*self.place)
        &&& self.anchor matches Some(a) ==> a@.groups.len() <= MAX_GROUP_NESTING_DEPTH
    }

    open spec fn finished(state: DrawingState<P>) -> bool {
        false
    }

    open spec fn advance(state: DrawingState<P>, ev: EventView, path: Seq<char>) -> Result<
        DrawingState<P>,
        ErrorView,
    > {
        drawing_step(state, ev, path)
    }

    fn is_finished(&self) -> (r: bool) {
        false
    }

    fn step(&mut self, ev: &XmlEvent, path: &str) -> (r: Result<(), Error>) {
        match self.anchor.take() {
            Some(a) => {
                assert((DrawingState { anchor: Some(a@), ..self@ }) =~= old(self)@);
                self.in_anchor(a, ev, path)
            },
            None => {
                if let XmlEvent::Start(tag) = ev {
                    if text::same(tag.name.as_str(), "twoCellAnchor") {
                        self.anchor = Some(AnchorReader::new(true));
                    } else if text::same(tag.name.as_str(), "oneCellAnchor") {
                        self.anchor = Some(AnchorReader::new(false));
                    }
                }
                Ok(())
            },
        }
    }
}

/// The pictures that a drawing part anchors.
pub open spec fn drawing_of<P: Fn(&Vec<GroupContext>, (i64, i64), (i64, i64)) -> Placement>(
    events: Seq<EventView>,
    path: Seq<char>,
    place: P,
) -> Result<Seq<PendingImageView>, ErrorView> {
    let start = DrawingState { place, images: Seq::empty(), anchor: None };
    match part::state_after::<DrawingParser<'_, P>>(start, events, path) {
        Ok(s) => Ok(s.images),
        Err(e) => Err(e),
    }
}

/// Reads a drawing part. `place` works out where a picture in groups comes to lie.
pub fn parse_drawing<P: Fn(&Vec<GroupContext>, (i64, i64), (i64, i64)) -> Placement>(
    part: &PartData,
    path: &str,
    place: &P,
) -> (r: Result<Vec<PendingImage>, Error>)
    requires
        places(*place),
    ensures
        (match r {
            Ok(v) => Ok(pending_image_views(v@)),
            Err(e) => Err(e@),
        }) == drawing_of(xml::part_events(part@), path@, *place),
{
    let parser = DrawingParser { place, images: Vec::new(), anchor: None };
    assert(parser@.images =~= Seq::<PendingImageView>::empty());
    match part::read_part(parser, part, path) {
        Ok(p) => Ok(p.images),
        Err(e) => Err(e),
    }
}

} // verus!
