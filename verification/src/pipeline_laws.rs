//! Where a workbook has everything from: what leads from one part to another, and
//! what of each part ends up on a sheet.
use crate::container::archive;
use crate::container::archive::ContainerView;
use crate::date::SerialParts;
use crate::error::ErrorView;
use crate::model::cell;
use crate::model::cell::CellRef;
use crate::model::region::MergedRegion;
use crate::model::sheet;
use crate::model::sheet::{HyperlinkView, ImageView, LinkRangeView, SheetView};
use crate::model::style::StyleView;
use crate::number::Number;
use crate::parse::drawing;
use crate::parse::drawing::{GroupContext, PendingImageView, Placement};
use crate::parse::relationships;
use crate::parse::relationships::{RelView, TargetMode};
use crate::parse::workbook;
use crate::parse::workbook::SheetEntryView;
use crate::parse::worksheet;
use crate::parse::worksheet::{PendingLinkView, WorksheetView};
use crate::parse::xml;
use crate::pipeline;
use crate::pipeline::{Outcome, PlanView, RouteView, TablesView};
use crate::resolve;
use crate::resolve::hyperlink;
use crate::resolve::merge;
use crate::text;
use vstd::prelude::*;

verus! {

// ---------------------------------------------------------------------------
// From part to part

proof fn lemma_last_slash(dir: Seq<char>, file: Seq<char>)
    requires
        !file.contains('/'),
    ensures
        pipeline::last_slash(dir + seq!['/'] + file) == Some(dir.len() as int),
        pipeline::last_slash(file) is None,
    decreases file.len(),
{
    let path = dir + seq!['/'] + file;
    if file.len() == 0 {
        assert(path.last() == '/');
    } else {
        let front = file.drop_last();
        assert(!front.contains('/')) by {
            if front.contains('/') {
                let i = front.index_of('/');
                assert(file[i] == '/');
            }
        }
        lemma_last_slash(dir, front);
        assert(path.drop_last() =~= dir + seq!['/'] + front);
        assert(file.contains(file.last())) by {
            assert(file[file.len() - 1] == file.last());
        }
        assert(path.last() == file.last());
    }
}

/// The relationships of a part lie in the directory `_rels` beside it, under its name
/// with `.rels` behind, and its targets are seen from its own directory.
pub proof fn law_relationships_lie_beside_their_part(dir: Seq<char>, file: Seq<char>)
    requires
        !file.contains('/'),
    ensures
        pipeline::rels_path(dir + seq!['/'] + file) == dir + "/_rels/"@ + file + ".rels"@,
        pipeline::dir_of(dir + seq!['/'] + file) == dir,
        pipeline::rels_path(file) == "_rels/"@ + file + ".rels"@,
        pipeline::dir_of(file) == Seq::<char>::empty(),
{
    let path = dir + seq!['/'] + file;
    lemma_last_slash(dir, file);
    assert(path.take(dir.len() as int) =~= dir);
    assert(path.skip(dir.len() as int + 1) =~= file);
}

/// Every sheet that the workbook lists is read from the part that the relationship of
/// its own identifier leads to, in the order of the list and under its name and
/// visibility.
pub proof fn law_sheets_are_read_from_their_own_part(
    entries: Seq<SheetEntryView>,
    rels: Seq<RelView>,
    i: int,
    k: int,
)
    requires
        0 <= i < entries.len(),
        0 <= k < rels.len(),
        rels[k].id == entries[i].r_id,
        forall|j: int| 0 <= j < k ==> (#[trigger] rels[j]).id != entries[i].r_id,
    ensures
        pipeline::routes_of(entries, rels) matches Ok(routes) ==> {
            &&& routes.len() == entries.len()
            &&& routes[i] == (RouteView {
                name: entries[i].name,
                visibility: entries[i].visibility,
                worksheet_path: rels[k].target,
            })
        },
    decreases entries.len(),
{
    relationships::law_relationships_are_found_by_identifier(rels, entries[i].r_id, k);
    lemma_routes_len(entries, rels);
    if i < entries.len() - 1 {
        let front = entries.drop_last();
        assert(front[i] == entries[i]);
        law_sheets_are_read_from_their_own_part(front, rels, i, k);
        lemma_routes_len(front, rels);
    } else {
        assert(entries.last() == entries[i]);
        lemma_routes_len(entries.drop_last(), rels);
    }
}

proof fn lemma_routes_len(entries: Seq<SheetEntryView>, rels: Seq<RelView>)
    ensures
        pipeline::routes_of(entries, rels) matches Ok(routes) ==> routes.len() == entries.len(),
    decreases entries.len(),
{
    if entries.len() > 0 {
        lemma_routes_len(entries.drop_last(), rels);
    }
}

/// A list of sheets is followed exactly if every identifier in it has a relationship;
/// the first that has none is what is wrong.
pub proof fn law_sheets_without_a_part_are_told(
    entries: Seq<SheetEntryView>,
    rels: Seq<RelView>,
    i: int,
)
    requires
        0 <= i <= entries.len(),
        forall|k: int|
            0 <= k < i ==> relationships::lookup(rels, (#[trigger] entries[k]).r_id) is Some,
        i < entries.len() ==> relationships::lookup(rels, entries[i].r_id) is None,
    ensures
        i == entries.len() <==> pipeline::routes_of(entries, rels) is Ok,
        i < entries.len() ==> pipeline::routes_of(entries, rels) == Err::<
            Seq<RouteView>,
            ErrorView,
        >(ErrorView::DanglingRelationship { r_id: entries[i].r_id }),
    decreases entries.len(),
{
    if entries.len() > 0 {
        let front = entries.drop_last();
        let n = if i == entries.len() {
            i - 1
        } else {
            i
        };
        assert(entries[entries.len() - 1] == entries.last());
        assert forall|k: int| 0 <= k < front.len() implies #[trigger] front[k] == entries[k] by {}
        law_sheets_without_a_part_are_told(front, rels, n);
    }
}

/// Whether the relationship at `k` is the first of a type.
pub open spec fn is_first_of_type(rels: Seq<RelView>, suffix: Seq<char>, k: int) -> bool {
    &&& 0 <= k < rels.len()
    &&& text::ends_with(rels[k].rel_type, suffix)
    &&& forall|j: int| 0 <= j < k ==> !text::ends_with((#[trigger] rels[j]).rel_type, suffix)
}

/// The shared strings, the styles and the theme are where the first relationship of
/// their own type leads, and the date system is the one that the workbook states.
pub proof fn law_tables_are_read_from_their_own_part(
    w: workbook::ParsedWorkbookView,
    rels: Seq<RelView>,
    k: int,
)
    requires
        pipeline::plan_from(w, rels) is Ok,
    ensures
        ({
            let plan = pipeline::plan_from(w, rels)->Ok_0;
            &&& plan.date1904 == w.date1904
            &&& pipeline::routes_of(w.sheets, rels) == Ok::<Seq<RouteView>, ErrorView>(plan.routes)
            &&& is_first_of_type(rels, "/relationships/sharedStrings"@, k)
                ==> plan.shared_strings_path == Some(rels[k].target)
            &&& is_first_of_type(rels, "/relationships/styles"@, k) ==> plan.styles_path == Some(
                rels[k].target,
            )
            &&& is_first_of_type(rels, "/relationships/theme"@, k) ==> plan.theme_path == Some(
                rels[k].target,
            )
        }),
{
    if is_first_of_type(rels, "/relationships/sharedStrings"@, k) {
        relationships::law_targets_are_found_by_type(rels, "/relationships/sharedStrings"@, k);
    }
    if is_first_of_type(rels, "/relationships/styles"@, k) {
        relationships::law_targets_are_found_by_type(rels, "/relationships/styles"@, k);
    }
    if is_first_of_type(rels, "/relationships/theme"@, k) {
        relationships::law_targets_are_found_by_type(rels, "/relationships/theme"@, k);
    }
}

/// The workbook part is where the package's own relationships lead for an office
/// document.
pub proof fn law_the_workbook_is_the_office_document(
    c: ContainerView,
    rels: Seq<RelView>,
    d: ContainerView,
    k: int,
)
    requires
        pipeline::rels_at(
            c,
            "_rels/.rels"@,
            Seq::empty(),
            ErrorView::MissingRelationshipPart("_rels/.rels"@),
        ) == Outcome::Done(rels, d),
        is_first_of_type(rels, "/relationships/officeDocument"@, k),
    ensures
        pipeline::workbook_path_at(c) == Outcome::Done(rels[k].target, d),
{
    reveal_strlit("");
    assert(""@ =~= Seq::<char>::empty());
    relationships::law_targets_are_found_by_type(rels, "/relationships/officeDocument"@, k);
}

// ---------------------------------------------------------------------------
// Hyperlinks

/// A hyperlink with an identifier leads to the target of the relationship that has that
/// very identifier, and nowhere if none has it; location and tooltip are those that it
/// states, and so is its area.
pub proof fn law_hyperlinks_lead_where_their_relationship_does(
    pending: Seq<PendingLinkView>,
    rels: Seq<RelView>,
    i: int,
    k: int,
)
    requires
        0 <= i < pending.len(),
        pending[i].r_id matches Some(id) ==> {
            &&& forall|j: int| 0 <= j < k ==> (#[trigger] rels[j]).id != id
            &&& k == rels.len() || (0 <= k < rels.len() && rels[k].id == id)
        },
    ensures
        pipeline::link_ranges_of(pending, Some(rels)).len() == pending.len(),
        pipeline::link_ranges_of(pending, Some(rels))[i] == (LinkRangeView {
            area: MergedRegion { start: pending[i].start, end: pending[i].end },
            hyperlink: HyperlinkView {
                target: if pending[i].r_id is Some && k < rels.len() {
                    Some(rels[k].target)
                } else {
                    None
                },
                location: pending[i].location,
                tooltip: pending[i].tooltip,
            },
        }),
        pipeline::link_ranges_of(pending, None)[i] == (LinkRangeView {
            area: MergedRegion { start: pending[i].start, end: pending[i].end },
            hyperlink: HyperlinkView {
                target: None,
                location: pending[i].location,
                tooltip: pending[i].tooltip,
            },
        }),
{
    if let Some(id) = pending[i].r_id {
        relationships::law_relationships_are_found_by_identifier(rels, id, k);
    }
}

/// Once hyperlinks are put on a sheet, every cell that a hyperlink's area takes in has
/// that hyperlink: the target of the relationship with its identifier, its location and
/// its tooltip. The first cell of the area is there. Merged ranges stay as they were.
pub proof fn law_linked_cells_lead_where_their_relationship_does(
    c: ContainerView,
    path: Seq<char>,
    s: SheetView,
    pending: Seq<PendingLinkView>,
    rels: Seq<RelView>,
    i: int,
    k: int,
    r: CellRef,
)
    requires
        0 <= i < pending.len(),
        pipeline::optional_rels_at(
            c,
            pipeline::rels_path(path),
            pipeline::dir_of(path),
        ) matches Outcome::Done(Some(m), _) && m == rels,
        pending[i].r_id matches Some(id) && 0 <= k < rels.len() && rels[k].id == id && forall|
            j: int,
        |
            0 <= j < k ==> (#[trigger] rels[j]).id != id,
        pending[i].start.row <= r.row <= pending[i].end.row,
        pending[i].start.col <= r.col <= pending[i].end.col,
    ensures
        pipeline::linked_at(c, path, s, pending) matches Outcome::Done(t, _) ==> {
            &&& t.merges == s.merges
            &&& t.cells.contains_key(pending[i].start)
            &&& s.cells.contains_key(r) ==> t.cells.contains_key(r) && t.cells[r] == s.cells[r]
            &&& t.cells.contains_key(r) ==> t.hyperlinks.contains_key(r) && t.hyperlinks[r] == (
            HyperlinkView {
                target: Some(rels[k].target),
                location: pending[i].location,
                tooltip: pending[i].tooltip,
            })
        },
{
    if pipeline::linked_at(c, path, s, pending) is Done {
        assert(pipeline::has_ids(pending));
        let ranges = pipeline::link_ranges_of(pending, Some(rels));
        law_hyperlinks_lead_where_their_relationship_does(pending, rels, i, k);
        let areas = sheet::areas_of(ranges);
        hyperlink::lemma_same_checks(areas);
        merge::law_accepted_merges_are_disjoint(areas);
        lemma_backfills(s, areas, r);
        let t = sheet::linked(s, ranges);
        if t.cells.contains_key(r) {
            sheet::law_linked_cells_have_their_link(s, ranges, i, r);
        }
        let first = pending[i].start;
        lemma_first_is_there(s, areas, i);
        assert(areas[i] == ranges[i].area);
    }
}

proof fn lemma_backfills(s: SheetView, areas: Seq<MergedRegion>, r: CellRef)
    ensures
        ({
            let t = sheet::with_backfills(s, areas);
            &&& t.merges == s.merges
            &&& t.hyperlinks == s.hyperlinks
            &&& t.images == s.images
            &&& t.col_widths == s.col_widths
            &&& t.default_col_width == s.default_col_width
            &&& t.name == s.name
            &&& t.visibility == s.visibility
            &&& s.cells.contains_key(r) ==> t.cells.contains_key(r) && t.cells[r] == s.cells[r]
        }),
    decreases areas.len(),
{
    if areas.len() > 0 {
        lemma_backfills(s, areas.drop_last(), r);
    }
}

proof fn lemma_first_is_there(s: SheetView, areas: Seq<MergedRegion>, i: int)
    requires
        0 <= i < areas.len(),
    ensures
        sheet::with_backfills(s, areas).cells.contains_key(areas[i].start),
    decreases areas.len(),
{
    if i < areas.len() - 1 {
        assert(areas.drop_last()[i] == areas[i]);
        lemma_first_is_there(s, areas.drop_last(), i);
    }
}

/// Cells that no hyperlink's area takes in have the hyperlink that they had before, or
/// none.
pub proof fn law_other_cells_are_not_linked(
    c: ContainerView,
    path: Seq<char>,
    s: SheetView,
    pending: Seq<PendingLinkView>,
    r: CellRef,
)
    requires
        forall|i: int|
            0 <= i < pending.len() ==> !(MergedRegion {
                start: (#[trigger] pending[i]).start,
                end: pending[i].end,
            }).covers(r),
    ensures
        pipeline::linked_at(c, path, s, pending) matches Outcome::Done(t, _) ==> {
            &&& t.hyperlinks.contains_key(r) == s.hyperlinks.contains_key(r)
            &&& s.hyperlinks.contains_key(r) ==> t.hyperlinks[r] == s.hyperlinks[r]
        },
{
    if pipeline::linked_at(c, path, s, pending) is Done && pending.len() > 0 {
        let ranges = pipeline::links_at(c, path, pending)->Done_0;
        let areas = sheet::areas_of(ranges);
        lemma_backfills(s, areas, r);
        assert(!sheet::is_in_link(ranges, r)) by {
            if sheet::is_in_link(ranges, r) {
                let i = sheet::link_over(ranges, r);
                assert(ranges[i].area.covers(r));
                assert(ranges[i].area == (MergedRegion {
                    start: pending[i].start,
                    end: pending[i].end,
                }));
            }
        }
    }
}

// ---------------------------------------------------------------------------
// Images

/// A picture becomes an image with its own anchor and the target of the relationship
/// that has the identifier of its data. A part of the package that is to be the target
/// must be there.
pub proof fn law_images_have_the_data_of_their_relationship(
    source: Seq<u8>,
    p: PendingImageView,
    rels: Seq<RelView>,
    k: int,
)
    requires
        forall|j: int| 0 <= j < k ==> (#[trigger] rels[j]).id != p.embed_r_id,
        k == rels.len() || (0 <= k < rels.len() && rels[k].id == p.embed_r_id),
    ensures
        pipeline::image_of(source, p, Some(rels)) matches Ok(image) ==> {
            &&& k < rels.len()
            &&& image.anchor == p.anchor
            &&& image.target == rels[k].target
            &&& rels[k].target_mode == TargetMode::Internal ==> !(archive::zip_entry(
                source,
                rels[k].target,
            ) is Missing)
            &&& p.hyperlink_r_id is None ==> image.hyperlink is None
        },
        k == rels.len() || (rels[k].target_mode == TargetMode::Internal
            && archive::entry_check(source, rels[k].target) == Ok::<bool, ErrorView>(false))
            ==> pipeline::image_of(source, p, Some(rels)) == Err::<ImageView, ErrorView>(
            ErrorView::DanglingRelationship { r_id: p.embed_r_id },
        ),
        k < rels.len() && (rels[k].target_mode == TargetMode::External || archive::entry_check(
            source,
            rels[k].target,
        ) == Ok::<bool, ErrorView>(true)) && p.hyperlink_r_id is None ==> pipeline::image_of(
            source,
            p,
            Some(rels),
        ) is Ok,
        pipeline::image_of(source, p, None) == Err::<ImageView, ErrorView>(
            ErrorView::DanglingRelationship { r_id: p.embed_r_id },
        ),
{
    relationships::law_relationships_are_found_by_identifier(rels, p.embed_r_id, k);
}

/// A picture's hyperlink leads to the target of the relationship with its identifier;
/// it is left out if there is none, or if it leads to a part that is not there.
pub proof fn law_images_link_where_their_relationship_does(
    source: Seq<u8>,
    p: PendingImageView,
    rels: Seq<RelView>,
    id: Seq<char>,
    k: int,
)
    requires
        p.hyperlink_r_id == Some(id),
        forall|j: int| 0 <= j < k ==> (#[trigger] rels[j]).id != id,
        k == rels.len() || (0 <= k < rels.len() && rels[k].id == id),
    ensures
        pipeline::image_of(source, p, Some(rels)) matches Ok(image) ==> image.hyperlink == if k
            < rels.len() && (rels[k].target_mode == TargetMode::External || !(archive::zip_entry(
            source,
            rels[k].target,
        ) is Missing)) {
            Some(rels[k].target)
        } else {
            None
        },
{
    relationships::law_relationships_are_found_by_identifier(rels, id, k);
}

/// Pictures become images one by one, in their order.
pub proof fn law_images_come_in_the_order_of_their_pictures(
    source: Seq<u8>,
    pending: Seq<PendingImageView>,
    rels: Option<Seq<RelView>>,
    i: int,
)
    requires
        0 <= i < pending.len(),
    ensures
        pipeline::images_of(source, pending, rels) matches Ok(images) ==> {
            &&& images.len() == pending.len()
            &&& pipeline::image_of(source, pending[i], rels) == Ok::<ImageView, ErrorView>(
                images[i],
            )
        },
    decreases pending.len(),
{
    lemma_images_len(source, pending.drop_last(), rels);
    if i < pending.len() - 1 {
        assert(pending.drop_last()[i] == pending[i]);
        law_images_come_in_the_order_of_their_pictures(source, pending.drop_last(), rels, i);
    }
}

proof fn lemma_images_len(
    source: Seq<u8>,
    pending: Seq<PendingImageView>,
    rels: Option<Seq<RelView>>,
)
    ensures
        pipeline::images_of(source, pending, rels) matches Ok(images) ==> images.len()
            == pending.len(),
    decreases pending.len(),
{
    if pending.len() > 0 {
        lemma_images_len(source, pending.drop_last(), rels);
    }
}

/// The images of a worksheet are those of the drawing that the relationship with its
/// drawing's identifier leads to.
pub proof fn law_drawings_are_found_by_their_relationship<
    P: Fn(&Vec<GroupContext>, (i64, i64), (i64, i64)) -> Placement,
>(
    c: ContainerView,
    path: Seq<char>,
    id: Seq<char>,
    rels: Seq<RelView>,
    d: ContainerView,
    k: int,
    place: P,
)
    requires
        pipeline::rels_at(
            c,
            pipeline::rels_path(path),
            pipeline::dir_of(path),
            ErrorView::DanglingRelationship { r_id: id },
        ) == Outcome::Done(rels, d),
        0 <= k < rels.len(),
        rels[k].id == id,
        forall|j: int| 0 <= j < k ==> (#[trigger] rels[j]).id != id,
    ensures
        pipeline::images_at(c, path, id, place) == pipeline::pictures_at(d, rels[k].target, place),
{
    relationships::law_relationships_are_found_by_identifier(rels, id, k);
}

// ---------------------------------------------------------------------------
// Sheets

/// What the worksheet part of a route says.
pub open spec fn worksheet_read(c: ContainerView, route: RouteView, t: TablesView) -> Option<
    WorksheetView,
> {
    let path = route.worksheet_path;
    match pipeline::required_at(c, path, ErrorView::DanglingRelationship { r_id: path }) {
        Outcome::Done(d, _) => match worksheet::worksheet_of(
            xml::part_events(d),
            path,
            sheet::empty_sheet(route.name, route.visibility),
            t.date1904,
            t.max_cells,
        ) {
            Ok(w) => Some(w),
            Err(_) => None,
        },
        Outcome::Failed(_) => None,
    }
}

/// The sheet that goes into being resolved: what was read, with the images.
spec fn is_start(w: WorksheetView, s: SheetView) -> bool {
    &&& s == (SheetView { images: s.images, ..w.sheet })
    &&& s.merges == Map::<CellRef, MergedRegion>::empty()
    &&& s.hyperlinks == Map::<CellRef, HyperlinkView>::empty()
    &&& w.drawing_r_id is None ==> s.images == Seq::<ImageView>::empty()
}

/// Whether a sheet is what completing another came to.
spec fn is_completed<F: Fn(&Number) -> Option<SerialParts>>(
    path: Seq<char>,
    w: WorksheetView,
    t: TablesView,
    split: F,
    s: SheetView,
    d: ContainerView,
    u: SheetView,
    e: ContainerView,
) -> bool {
    is_start(w, s) && pipeline::completed_at(d, path, s, w, t, split) == Outcome::Done(u, e)
}

proof fn lemma_sheet_parts<
    F: Fn(&Number) -> Option<SerialParts>,
    P: Fn(&Vec<GroupContext>, (i64, i64), (i64, i64)) -> Placement,
>(c: ContainerView, route: RouteView, t: TablesView, split: F, place: P)
    ensures
        pipeline::sheet_at(c, route, t, split, place) matches Outcome::Done(u, e) ==> {
            &&& worksheet_read(c, route, t) is Some
            &&& exists|s: SheetView, d: ContainerView| #[trigger]
                is_completed(
                    route.worksheet_path,
                    worksheet_read(c, route, t)->0,
                    t,
                    split,
                    s,
                    d,
                    u,
                    e,
                )
        },
{
    let path = route.worksheet_path;
    let empty = sheet::empty_sheet(route.name, route.visibility);
    if pipeline::sheet_at(c, route, t, split, place) is Done {
        let (d, c2) = match pipeline::required_at(
            c,
            path,
            ErrorView::DanglingRelationship { r_id: path },
        ) {
            Outcome::Done(d, c2) => (d, c2),
            _ => arbitrary(),
        };
        let events = xml::part_events(d);
        worksheet::law_worksheet_brings_cells_only(events, path, empty, t.date1904, t.max_cells);
        let w = worksheet_read(c, route, t)->0;
        let (u, e) = match pipeline::sheet_at(c, route, t, split, place) {
            Outcome::Done(u, e) => (u, e),
            _ => arbitrary(),
        };
        match w.drawing_r_id {
            None => {
                assert(is_completed(path, w, t, split, w.sheet, c2, u, e));
            },
            Some(id) => {
                let (images, c3) = match pipeline::images_at(c2, path, id, place) {
                    Outcome::Done(images, c3) => (images, c3),
                    _ => arbitrary(),
                };
                let s = SheetView { images, ..w.sheet };
                assert(is_completed(path, w, t, split, s, c3, u, e));
            },
        }
    }
}

/// On a sheet that has been read, every cell that a merged range of its worksheet takes
/// in reads as the first cell of the range, which is there; everywhere else a cell
/// reads as itself.
pub proof fn law_read_sheets_read_merged_ranges_as_one<
    F: Fn(&Number) -> Option<SerialParts>,
    P: Fn(&Vec<GroupContext>, (i64, i64), (i64, i64)) -> Placement,
>(
    c: ContainerView,
    route: RouteView,
    t: TablesView,
    split: F,
    place: P,
    i: int,
    r: CellRef,
)
    ensures
        pipeline::sheet_at(c, route, t, split, place) matches Outcome::Done(u, _) ==> {
            &&& worksheet_read(c, route, t) is Some
            &&& {
                let regions = worksheet_read(c, route, t)->0.merge_regions;
                &&& 0 <= i < regions.len() && regions[i].covers(r) ==> {
                    &&& sheet::origin_of(u.merges, r) == regions[i].start
                    &&& u.cells.contains_key(regions[i].start)
                    &&& u.merges.contains_key(regions[i].start)
                    &&& u.merges[regions[i].start] == regions[i]
                }
                &&& (forall|j: int| 0 <= j < regions.len() ==> !(#[trigger] regions[j]).covers(r))
                    ==> sheet::origin_of(u.merges, r) == r
            }
        },
{
    lemma_sheet_parts(c, route, t, split, place);
    if let Outcome::Done(u, e) = pipeline::sheet_at(c, route, t, split, place) {
        let path = route.worksheet_path;
        let w = worksheet_read(c, route, t)->0;
        let (s, d) = choose|s: SheetView, d: ContainerView| #[trigger]
            is_completed(path, w, t, split, s, d, u, e);
        assert(is_completed(path, w, t, split, s, d, u, e));
        resolve::law_resolved_sheets_read_merged_ranges_as_one(
            s,
            w,
            t.strings,
            t.styles,
            t.date1904,
            split,
            i,
            r,
        );
        let v = resolve::resolved(s, w, t.strings, t.styles, t.date1904, split).0;
        lemma_linked_rest(d, path, v, w.pending_hyperlinks, r);
        if 0 <= i < w.merge_regions.len() {
            lemma_linked_rest(d, path, v, w.pending_hyperlinks, w.merge_regions[i].start);
        }
    }
}

proof fn lemma_linked_rest(
    c: ContainerView,
    path: Seq<char>,
    s: SheetView,
    pending: Seq<PendingLinkView>,
    r: CellRef,
)
    ensures
        pipeline::linked_at(c, path, s, pending) matches Outcome::Done(t, _) ==> {
            &&& t.merges == s.merges
            &&& t.images == s.images
            &&& t.col_widths == s.col_widths
            &&& t.default_col_width == s.default_col_width
            &&& s.cells.contains_key(r) ==> t.cells.contains_key(r) && t.cells[r] == s.cells[r]
        },
{
    if pending.len() > 0 {
        if let Outcome::Done(ranges, _) = pipeline::links_at(c, path, pending) {
            lemma_backfills(s, sheet::areas_of(ranges), r);
        }
    }
}

/// On a sheet that has been read, a cell of its worksheet holds the shared string that
/// it refers to, or the value that it states, and has the style that it refers to; a
/// number under a style that shows dates is a date.
pub proof fn law_read_sheets_have_the_cells_of_their_worksheet<
    F: Fn(&Number) -> Option<SerialParts>,
    P: Fn(&Vec<GroupContext>, (i64, i64), (i64, i64)) -> Placement,
>(
    c: ContainerView,
    route: RouteView,
    t: TablesView,
    split: F,
    place: P,
    r: CellRef,
    text: Option<int>,
    style: Option<int>,
)
    requires
        worksheet_read(c, route, t) matches Some(w) ==> {
            &&& w.sheet.cells.contains_key(r)
            &&& forall|j: int|
                0 <= j < w.merge_regions.len() && (#[trigger] w.merge_regions[j]).covers(r)
                    ==> w.merge_regions[j].start == r
            &&& resolve::is_text_of(w.pending_shared_strings, r, text)
            &&& resolve::is_style_of(w.pending_styles, r, style)
        },
    ensures
        pipeline::sheet_at(c, route, t, split, place) matches Outcome::Done(u, _) ==> {
            let w = worksheet_read(c, route, t)->0;
            let value = match text {
                Some(i) => Some(
                    cell::ValueView::Text(t.strings[w.pending_shared_strings[i].index as int]),
                ),
                None => w.sheet.cells[r].value,
            };
            &&& u.cells.contains_key(r)
            &&& u.cells[r] == match style {
                Some(i) => cell::CellView {
                    value: resolve::style::styled_value(
                        value,
                        t.styles[w.pending_styles[i].style_id as int].is_date_time,
                        t.date1904,
                        split,
                    ),
                    style: Some(t.styles[w.pending_styles[i].style_id as int]),
                },
                None => cell::CellView { value, style: w.sheet.cells[r].style },
            }
        },
{
    lemma_sheet_parts(c, route, t, split, place);
    if let Outcome::Done(u, e) = pipeline::sheet_at(c, route, t, split, place) {
        let path = route.worksheet_path;
        let w = worksheet_read(c, route, t)->0;
        let (s, d) = choose|s: SheetView, d: ContainerView| #[trigger]
            is_completed(path, w, t, split, s, d, u, e);
        assert(is_completed(path, w, t, split, s, d, u, e));
        resolve::law_resolved_cells_have_their_text_and_style(
            s,
            w,
            t.strings,
            t.styles,
            t.date1904,
            split,
            r,
            text,
            style,
        );
        let v = resolve::resolved(s, w, t.strings, t.styles, t.date1904, split).0;
        lemma_linked_rest(d, path, v, w.pending_hyperlinks, r);
    }
}

/// On a sheet that has been read, a column has the width of the range of its worksheet
/// that takes it in, and the default width of its worksheet where none does.
pub proof fn law_read_sheets_have_the_widths_of_their_worksheet<
    F: Fn(&Number) -> Option<SerialParts>,
    P: Fn(&Vec<GroupContext>, (i64, i64), (i64, i64)) -> Placement,
>(
    c: ContainerView,
    route: RouteView,
    t: TablesView,
    split: F,
    place: P,
    col: u32,
    width: Option<Seq<char>>,
)
    ensures
        pipeline::sheet_at(c, route, t, split, place) matches Outcome::Done(u, _) ==> {
            &&& worksheet_read(c, route, t) is Some
            &&& crate::model::range::is_size_at(u.col_widths, u.default_col_width, col, width) ==> {
                let w = worksheet_read(c, route, t)->0;
                &&& forall|i: int|
                    0 <= i < w.col_width_ranges.len() && (#[trigger] w.col_width_ranges[i]).min
                        <= col <= w.col_width_ranges[i].max ==> width == Some(
                        w.col_width_ranges[i].size,
                    )
                &&& (forall|i: int|
                    0 <= i < w.col_width_ranges.len() ==> !((#[trigger] w.col_width_ranges[i]).min
                        <= col <= w.col_width_ranges[i].max)) ==> width == w.default_col_width
            }
        },
{
    lemma_sheet_parts(c, route, t, split, place);
    if let Outcome::Done(u, e) = pipeline::sheet_at(c, route, t, split, place) {
        let path = route.worksheet_path;
        let w = worksheet_read(c, route, t)->0;
        let (s, d) = choose|s: SheetView, d: ContainerView| #[trigger]
            is_completed(path, w, t, split, s, d, u, e);
        assert(is_completed(path, w, t, split, s, d, u, e));
        let v = resolve::resolved(s, w, t.strings, t.styles, t.date1904, split).0;
        lemma_linked_rest(d, path, v, w.pending_hyperlinks, CellRef { row: 1, col: 1 });
        if crate::model::range::is_size_at(u.col_widths, u.default_col_width, col, width) {
            resolve::law_resolved_columns_have_their_width(
                s,
                w,
                t.strings,
                t.styles,
                t.date1904,
                split,
                col,
                width,
            );
        }
    }
}

/// A sheet whose worksheet has no drawing has no images, and one with a drawing has the
/// images of that drawing and no others.
pub proof fn law_read_sheets_have_the_images_of_their_drawing<
    F: Fn(&Number) -> Option<SerialParts>,
    P: Fn(&Vec<GroupContext>, (i64, i64), (i64, i64)) -> Placement,
>(c: ContainerView, route: RouteView, t: TablesView, split: F, place: P)
    ensures
        pipeline::sheet_at(c, route, t, split, place) matches Outcome::Done(u, _) ==> {
            &&& worksheet_read(c, route, t) is Some
            &&& match worksheet_read(c, route, t)->0.drawing_r_id {
                None => u.images == Seq::<ImageView>::empty(),
                Some(id) => match pipeline::required_at(
                    c,
                    route.worksheet_path,
                    ErrorView::DanglingRelationship { r_id: route.worksheet_path },
                ) {
                    Outcome::Done(_, d) => pipeline::images_at(
                        d,
                        route.worksheet_path,
                        id,
                        place,
                    ) matches Outcome::Done(images, _) && u.images == images,
                    Outcome::Failed(_) => false,
                },
            }
        },
{
    let path = route.worksheet_path;
    let empty = sheet::empty_sheet(route.name, route.visibility);
    let r = CellRef { row: 1, col: 1 };
    if pipeline::sheet_at(c, route, t, split, place) is Done {
        let (d, c2) = match pipeline::required_at(
            c,
            path,
            ErrorView::DanglingRelationship { r_id: path },
        ) {
            Outcome::Done(d, c2) => (d, c2),
            _ => arbitrary(),
        };
        let events = xml::part_events(d);
        worksheet::law_worksheet_brings_cells_only(events, path, empty, t.date1904, t.max_cells);
        let w = worksheet_read(c, route, t)->0;
        let (s, c3) = match w.drawing_r_id {
            None => (w.sheet, c2),
            Some(id) => match pipeline::images_at(c2, path, id, place) {
                Outcome::Done(images, c3) => (SheetView { images, ..w.sheet }, c3),
                _ => arbitrary(),
            },
        };
        resolve::law_resolved_sheets_read_merged_ranges_as_one(
            s,
            w,
            t.strings,
            t.styles,
            t.date1904,
            split,
            0,
            r,
        );
        let v = resolve::resolved(s, w, t.strings, t.styles, t.date1904, split).0;
        lemma_linked_rest(c3, path, v, w.pending_hyperlinks, r);
    }
}

// ---------------------------------------------------------------------------
// The workbook

/// Whether tables hold what the parts that a plan names hold.
pub open spec fn are_tables_of(c: ContainerView, plan: PlanView, t: TablesView) -> bool {
    &&& t.date1904 == plan.date1904
    &&& plan.shared_strings_path is None ==> t.strings == Seq::<Seq<char>>::empty()
    &&& plan.shared_strings_path matches Some(p) ==> exists|d: crate::container::data::PartView|
        crate::parse::shared_strings::shared_strings_of(#[trigger] xml::part_events(d), p) == Ok::<
            Seq<Seq<char>>,
            ErrorView,
        >(t.strings) && is_part_at(c, p, d)
    &&& plan.styles_path is None ==> t.styles == Seq::<StyleView>::empty()
    &&& plan.styles_path matches Some(p) ==> exists|d: crate::container::data::PartView|
        crate::parse::styles::styles_of(#[trigger] xml::part_events(d), p) == Ok::<
            Seq<StyleView>,
            ErrorView,
        >(t.styles) && is_part_at(c, p, d)
}

/// Whether data is what the package has under a name.
pub open spec fn is_part_at(
    c: ContainerView,
    name: Seq<char>,
    d: crate::container::data::PartView,
) -> bool {
    exists|e: ContainerView|
        e.source == c.source && (#[trigger] archive::fetch(e, name) matches archive::Fetched::Opened(
            p,
            _,
        ) && p == d)
}

/// Every sheet of a workbook is the one that its route leads to, read against the shared
/// strings, the styles and the date system of the workbook, and with no more cells than
/// the cap allows.
pub proof fn law_sheets_are_read_against_the_tables<
    F: Fn(&Number) -> Option<SerialParts>,
    P: Fn(&Vec<GroupContext>, (i64, i64), (i64, i64)) -> Placement,
>(c: ContainerView, plan: PlanView, max_cells: usize, split: F, place: P, i: int)
    requires
        0 <= i < plan.routes.len(),
    ensures
        pipeline::planned_at(c, plan, max_cells, split, place) matches Outcome::Done(book, _) ==> {
            &&& book.sheets.len() == plan.routes.len()
            &&& exists|d: ContainerView, t: TablesView|
                are_tables_of(c, plan, t) && t.max_cells == max_cells && (
                #[trigger] pipeline::sheet_at(
                    d,
                    plan.routes[i],
                    t,
                    split,
                    place,
                ) matches Outcome::Done(s, _) && s == book.sheets[i])
        },
{
    if let Outcome::Done(strings, c2) = pipeline::strings_at(c, plan.shared_strings_path) {
        lemma_same_source(c, plan.shared_strings_path);
        if let Outcome::Done(styles, c3) = pipeline::styles_at(c2, plan.styles_path) {
            if let Outcome::Done(theme, c4) = pipeline::theme_at(c3, plan.theme_path, styles) {
                let t = TablesView { strings, styles, date1904: plan.date1904, max_cells };
                lemma_sheet_of(c4, plan.routes, t, split, place, i);
                assert(are_tables_of(c, plan, t)) by {
                    if let Some(p) = plan.shared_strings_path {
                        let d = pipeline::required_at(
                            c,
                            p,
                            ErrorView::InvalidPackage(p),
                        )->Done_0;
                        assert(archive::fetch(c, p) is Opened);
                        assert(is_part_at(c, p, d));
                        assert(crate::parse::shared_strings::shared_strings_of(
                            xml::part_events(d),
                            p,
                        ) is Ok);
                    }
                    if let Some(p) = plan.styles_path {
                        let d = pipeline::required_at(
                            c2,
                            p,
                            ErrorView::InvalidPackage(p),
                        )->Done_0;
                        assert(archive::fetch(c2, p) is Opened);
                        assert(is_part_at(c, p, d));
                        assert(crate::parse::styles::styles_of(xml::part_events(d), p) is Ok);
                    }
                }
            }
        }
    }
}

/// A workbook has the palette of the theme part that its plan names, if one of the fills
/// of its styles refers to a color of the theme; otherwise it has none.
pub proof fn law_the_theme_is_read_from_its_own_part<
    F: Fn(&Number) -> Option<SerialParts>,
    P: Fn(&Vec<GroupContext>, (i64, i64), (i64, i64)) -> Placement,
>(c: ContainerView, plan: PlanView, max_cells: usize, split: F, place: P)
    ensures
        pipeline::planned_at(c, plan, max_cells, split, place) matches Outcome::Done(book, _) ==> {
            &&& plan.theme_path is None ==> book.theme is None
            &&& exists|t: TablesView| #[trigger]
                are_tables_of(c, plan, t) && match plan.theme_path {
                    None => book.theme is None,
                    Some(p) => if refers_to_theme(t.styles) {
                        book.theme matches Some(palette) && is_theme_at(c, p, palette)
                    } else {
                        book.theme is None
                    },
                }
        },
{
    if let Outcome::Done(strings, c2) = pipeline::strings_at(c, plan.shared_strings_path) {
        lemma_same_source(c, plan.shared_strings_path);
        if let Outcome::Done(styles, c3) = pipeline::styles_at(c2, plan.styles_path) {
            let t = TablesView { strings, styles, date1904: plan.date1904, max_cells };
            assert(c3.source == c.source);
            assert(are_tables_of(c, plan, t)) by {
                if let Some(p) = plan.shared_strings_path {
                    let d = pipeline::required_at(c, p, ErrorView::InvalidPackage(p))->Done_0;
                    assert(archive::fetch(c, p) is Opened);
                    assert(is_part_at(c, p, d));
                    assert(crate::parse::shared_strings::shared_strings_of(
                        xml::part_events(d),
                        p,
                    ) is Ok);
                }
                if let Some(p) = plan.styles_path {
                    let d = pipeline::required_at(c2, p, ErrorView::InvalidPackage(p))->Done_0;
                    assert(archive::fetch(c2, p) is Opened);
                    assert(is_part_at(c, p, d));
                    assert(crate::parse::styles::styles_of(xml::part_events(d), p) is Ok);
                }
            }
            crate::model::style::law_themes_are_referred_to_by_fills(styles);
            if let Some(p) = plan.theme_path {
                if let Outcome::Done(theme, _) = pipeline::theme_at(c3, plan.theme_path, styles) {
                    if refers_to_theme(styles) {
                        let d = pipeline::required_at(
                            c3,
                            p,
                            ErrorView::InvalidPackage(p),
                        )->Done_0;
                        assert(archive::fetch(c3, p) is Opened);
                        assert(is_part_at(c, p, d));
                        assert(crate::parse::theme::theme_of(xml::part_events(d), p) is Ok);
                    }
                }
            }
        }
    }
}

/// Whether one of the colors of one of the fills of some styles is a color of the theme.
pub open spec fn refers_to_theme(styles: Seq<StyleView>) -> bool {
    exists|k: int|
        #![trigger styles[k]]
        0 <= k < styles.len() && ((styles[k].fill_fg_color matches Some(c) && c is Theme) || (
        styles[k].fill_bg_color matches Some(c) && c is Theme))
}

/// Whether a palette is that of the theme that the package has under a name.
pub open spec fn is_theme_at(
    c: ContainerView,
    p: Seq<char>,
    palette: crate::model::color::ThemePalette,
) -> bool {
    exists|d: crate::container::data::PartView|
        crate::parse::theme::theme_of(#[trigger] xml::part_events(d), p) == Ok::<
            crate::model::color::ThemePalette,
            ErrorView,
        >(palette) && is_part_at(c, p, d)
}

proof fn lemma_same_source(c: ContainerView, path: Option<Seq<char>>)
    ensures
        pipeline::strings_at(c, path) matches Outcome::Done(_, d) ==> d.source == c.source,
{
}

proof fn lemma_sheet_of<
    F: Fn(&Number) -> Option<SerialParts>,
    P: Fn(&Vec<GroupContext>, (i64, i64), (i64, i64)) -> Placement,
>(c: ContainerView, routes: Seq<RouteView>, t: TablesView, split: F, place: P, i: int)
    requires
        0 <= i < routes.len(),
    ensures
        pipeline::sheets_at(c, routes, t, split, place) matches Outcome::Done(sheets, _) ==> {
            &&& sheets.len() == routes.len()
            &&& exists|d: ContainerView|
                #[trigger] pipeline::sheet_at(
                    d,
                    routes[i],
                    t,
                    split,
                    place,
                ) matches Outcome::Done(s, _) && s == sheets[i]
        },
    decreases routes.len(),
{
    let front = routes.drop_last();
    pipeline::law_sheets_come_in_the_order_of_their_routes(c, routes, t, split, place);
    pipeline::law_sheets_come_in_the_order_of_their_routes(c, front, t, split, place);
    if let Outcome::Done(sheets, _) = pipeline::sheets_at(c, routes, t, split, place) {
        let (v, c2) = match pipeline::sheets_at(c, front, t, split, place) {
            Outcome::Done(v, c2) => (v, c2),
            _ => arbitrary(),
        };
        if i < front.len() {
            assert(front[i] == routes[i]);
            lemma_sheet_of(c, front, t, split, place, i);
            assert(sheets[i] == v[i]);
            let d = choose|d: ContainerView|
                #[trigger] pipeline::sheet_at(
                    d,
                    front[i],
                    t,
                    split,
                    place,
                ) matches Outcome::Done(s, _) && s == v[i];
            assert(pipeline::sheet_at(d, routes[i], t, split, place) is Done);
        } else {
            assert(routes[i] == routes.last());
            assert(pipeline::sheet_at(c2, routes[i], t, split, place) is Done);
        }
    }
}

} // verus!
