//! From a package's bytes to a workbook: which parts are read, in which order,
//! and how they come together.
use crate::container::archive;
use crate::container::archive::{ContainerView, Fetched, ZipContainer};
use crate::container::data;
use crate::container::data::{PartData, PartView};
use crate::container::sanitize;
use crate::container::sanitize::SizeLimits;
use crate::date::SerialParts;
use crate::error;
use crate::error::{Error, ErrorView};
use crate::model::cell::CellRef;
use crate::model::color::ThemePalette;
use crate::model::region::MergedRegion;
use crate::model::sheet;
use crate::model::sheet::{
    Hyperlink, HyperlinkRange, HyperlinkView, Image, ImageView, LinkRangeView, Sheet, SheetView,
    SheetVisibility,
};
use crate::model::style;
use crate::model::style::{StyleSheet, StyleView};
use crate::model::workbook::{Workbook, WorkbookView};
use crate::number::Number;
use crate::parse::drawing;
use crate::parse::drawing::{GroupContext, PendingImage, PendingImageView, Placement};
use crate::parse::part;
use crate::parse::relationships;
use crate::parse::relationships::{RelView, Relationship, RelationshipMap, TargetMode};
use crate::parse::shared_strings;
use crate::parse::shared_strings::SharedStringTable;
use crate::parse::styles;
use crate::parse::theme;
use crate::parse::workbook;
use crate::parse::workbook::{ParsedWorkbookXml, SheetEntryView, WorkbookSheetEntry};
use crate::parse::worksheet;
use crate::parse::worksheet::{PendingHyperlink, PendingLinkView, WorksheetParseOutput, WorksheetView};
use crate::parse::xml;
use crate::resolve;
use crate::resolve::hyperlink;
use crate::resolve::merge;
use crate::text;
use vstd::prelude::*;

verus! {

/// The relationship part of the package itself.
pub const PACKAGE_RELS_PATH: &'static str = "_rels/.rels";

/// What the type of the relationship to the workbook part ends with.
pub const OFFICE_DOCUMENT_REL_TYPE_SUFFIX: &'static str = "/relationships/officeDocument";

/// What the type of the relationship to the shared strings ends with.
pub const SHARED_STRINGS_REL_TYPE_SUFFIX: &'static str = "/relationships/sharedStrings";

/// What the type of the relationship to the stylesheet ends with.
pub const STYLES_REL_TYPE_SUFFIX: &'static str = "/relationships/styles";

/// What the type of the relationship to the theme ends with.
pub const THEME_REL_TYPE_SUFFIX: &'static str = "/relationships/theme";

// ---------------------------------------------------------------------------
// Paths of relationship parts

/// The place of the last slash of a path.
pub open spec fn last_slash(s: Seq<char>) -> Option<int>
    decreases s.len(),
{
    if s.len() == 0 {
        None
    } else if s.last() == '/' {
        Some(s.len() - 1)
    } else {
        last_slash(s.drop_last())
    }
}

/// The directory of a part.
pub open spec fn dir_of(path: Seq<char>) -> Seq<char> {
    match last_slash(path) {
        Some(i) => path.take(i),
        None => Seq::empty(),
    }
}

/// The path of the relationship part that belongs to a part.
pub open spec fn rels_path(path: Seq<char>) -> Seq<char> {
    match last_slash(path) {
        Some(i) => path.take(i) + "/_rels/"@ + path.skip(i + 1) + ".rels"@,
        None => "_rels/"@ + path + ".rels"@,
    }
}

/// The path of the relationship part that belongs to a part, and the part's
/// directory.
pub fn rels_path_for(part_path: &str) -> (r: (String, String))
    ensures
        r.0@ == rels_path(part_path@),
        r.1@ == dir_of(part_path@),
{
    let chars: Vec<char> = text::to_chars(part_path);
    let ghost all = part_path@;
    let mut i: usize = chars.len();
    assert(all.take(all.len() as int) =~= all);
    while i > 0
        invariant
            i <= chars@.len(),
            all == chars@,
            all == part_path@,
            last_slash(all.take(i as int)) == last_slash(all),
        decreases i,
    {
        assert(all.take(i as int).drop_last() =~= all.take(i - 1));
        if chars[i - 1] == '/' {
            let dir: String = text::from_chars(&chars, 0, i - 1);
            let file: String = text::from_chars(&chars, i, chars.len());
            assert(dir@ =~= all.take(i - 1));
            assert(file@ =~= all.skip(i as int));
            let mut path: String = text::join3(dir.as_str(), "/_rels/", file.as_str());
            text::push_text(&mut path, ".rels");
            return (path, dir);
        }
        i -= 1;
    }
    assert(last_slash(all.take(0)) is None);
    let none: String = String::new();
    assert(none@ =~= Seq::<char>::empty());
    (text::join3("_rels/", part_path, ".rels"), none)
}

// ---------------------------------------------------------------------------
// Reading parts

/// What a step that reads from a container comes to.
#[verifier::ext_equal]
pub enum Outcome<T> {
    /// What the step yields, and the container after it.
    Done(T, ContainerView),
    Failed(ErrorView),
}

/// Whether a step came to what it should.
pub open spec fn agrees<T>(o: Outcome<T>, r: Result<T, ErrorView>, c: ContainerView) -> bool {
    match o {
        Outcome::Done(v, d) => r == Ok::<T, ErrorView>(v) && c == d,
        Outcome::Failed(f) => r == Err::<T, ErrorView>(f),
    }
}

/// The data of a part, if there is such a part.
pub open spec fn data_at(c: ContainerView, name: Seq<char>) -> Outcome<Option<PartView>> {
    match archive::fetch(c, name) {
        Fetched::Failed(e) => Outcome::Failed(e),
        Fetched::Missing => Outcome::Done(None, c),
        Fetched::Opened(d, total) => Outcome::Done(
            Some(d),
            ContainerView { total_read: total, ..c },
        ),
    }
}

/// The data of a part that must be there.
pub open spec fn required_at(c: ContainerView, name: Seq<char>, missing: ErrorView) -> Outcome<
    PartView,
> {
    match data_at(c, name) {
        Outcome::Done(Some(d), c2) => Outcome::Done(d, c2),
        Outcome::Done(None, c2) => Outcome::Failed(missing),
        Outcome::Failed(e) => Outcome::Failed(e),
    }
}

/// Fetches the data of a part that must be there.
pub fn fetch_required(container: &mut ZipContainer, name: &str, missing: Error) -> (r: Result<
    PartData,
    Error,
>)
    ensures
        agrees(
            required_at(old(container)@, name@, missing@),
            error::result_view(r),
            final(container)@,
        ),
{
    match container.fetch_part(name) {
        Ok(Some(d)) => Ok(d),
        Ok(None) => Err(missing),
        Err(e) => Err(e),
    }
}

/// What reading comes to once the data is read: the data taken on by a parser.
pub open spec fn parsed<T>(r: Result<T, ErrorView>, c: ContainerView) -> Outcome<T> {
    match r {
        Ok(v) => Outcome::Done(v, c),
        Err(e) => Outcome::Failed(e),
    }
}

/// The relationships that a part which must be there states.
pub open spec fn rels_at(
    c: ContainerView,
    name: Seq<char>,
    dir: Seq<char>,
    missing: ErrorView,
) -> Outcome<Seq<RelView>> {
    match required_at(c, name, missing) {
        Outcome::Done(d, c2) => parsed(
            relationships::relationships_of(xml::part_events(d), dir, name),
            c2,
        ),
        Outcome::Failed(e) => Outcome::Failed(e),
    }
}

fn read_rels(container: &mut ZipContainer, name: &str, dir: &str, missing: Error) -> (r: Result<
    RelationshipMap,
    Error,
>)
    ensures
        agrees(
            rels_at(old(container)@, name@, dir@, missing@),
            error::result_view(r),
            final(container)@,
        ),
{
    match fetch_required(container, name, missing) {
        Ok(d) => relationships::parse_relationships(&d, dir, name),
        Err(e) => Err(e),
    }
}

/// The relationships that a part states, if there is such a part.
pub open spec fn optional_rels_at(c: ContainerView, name: Seq<char>, dir: Seq<char>) -> Outcome<
    Option<Seq<RelView>>,
> {
    match data_at(c, name) {
        Outcome::Done(Some(d), c2) => match relationships::relationships_of(
            xml::part_events(d),
            dir,
            name,
        ) {
            Ok(m) => Outcome::Done(Some(m), c2),
            Err(e) => Outcome::Failed(e),
        },
        Outcome::Done(None, c2) => Outcome::Done(None, c2),
        Outcome::Failed(e) => Outcome::Failed(e),
    }
}

/// The view of relationships that may be absent.
pub open spec fn rels_opt(m: Option<RelationshipMap>) -> Option<Seq<RelView>> {
    match m {
        Some(m) => Some(m@),
        None => None,
    }
}

fn read_optional_rels(container: &mut ZipContainer, name: &str, dir: &str) -> (r: Result<
    Option<RelationshipMap>,
    Error,
>)
    ensures
        agrees(
            optional_rels_at(old(container)@, name@, dir@),
            (match r {
                Ok(m) => Ok(rels_opt(m)),
                Err(e) => Err(e@),
            }),
            final(container)@,
        ),
{
    match container.fetch_part(name) {
        Ok(Some(d)) => match relationships::parse_relationships(&d, dir, name) {
            Ok(m) => Ok(Some(m)),
            Err(e) => Err(e),
        },
        Ok(None) => Ok(None),
        Err(e) => Err(e),
    }
}

// ---------------------------------------------------------------------------
// The plan: where everything is

/// One sheet, and where its worksheet part is.
#[derive(Debug, Clone, PartialEq, Eq)]
pub struct SheetRoute {
    pub name: String,
    pub visibility: SheetVisibility,
    pub worksheet_path: String,
}

/// A route as contracts speak of it.
#[verifier::ext_equal]
pub struct RouteView {
    pub name: Seq<char>,
    pub visibility: SheetVisibility,
    pub worksheet_path: Seq<char>,
}

impl View for SheetRoute {
    type V = RouteView;

    open spec fn view(&self) -> RouteView {
        RouteView {
            name: self.name@,
            visibility: self.visibility,
            worksheet_path: self.worksheet_path@,
        }
    }
}

/// The views of a list of routes.
pub open spec fn route_views(routes: Seq<SheetRoute>) -> Seq<RouteView> {
    routes.map_values(|r: SheetRoute| r@)
}

/// Where the parts of a workbook are.
pub struct Plan {
    pub date1904: bool,
    pub routes: Vec<SheetRoute>,
    pub shared_strings_path: Option<String>,
    pub styles_path: Option<String>,
    pub theme_path: Option<String>,
}

/// A plan as contracts speak of it.
#[verifier::ext_equal]
pub struct PlanView {
    pub date1904: bool,
    pub routes: Seq<RouteView>,
    pub shared_strings_path: Option<Seq<char>>,
    pub styles_path: Option<Seq<char>>,
    pub theme_path: Option<Seq<char>>,
}

impl View for Plan {
    type V = PlanView;

    open spec fn view(&self) -> PlanView {
        PlanView {
            date1904: self.date1904,
            routes: route_views(self.routes@),
            shared_strings_path: text::text_opt(self.shared_strings_path),
            styles_path: text::text_opt(self.styles_path),
            theme_path: text::text_opt(self.theme_path),
        }
    }
}

/// The routes that sheet entries lead to; each entry's relationship must exist.
pub open spec fn routes_of(entries: Seq<SheetEntryView>, rels: Seq<RelView>) -> Result<
    Seq<RouteView>,
    ErrorView,
>
    decreases entries.len(),
{
    if entries.len() == 0 {
        Ok(Seq::empty())
    } else {
        let last = entries.last();
        match routes_of(entries.drop_last(), rels) {
            Err(e) => Err(e),
            Ok(front) => match relationships::lookup(rels, last.r_id) {
                None => Err(ErrorView::DanglingRelationship { r_id: last.r_id }),
                Some(rel) => Ok(
                    front.push(
                        RouteView {
                            name: last.name,
                            visibility: last.visibility,
                            worksheet_path: rel.target,
                        },
                    ),
                ),
            },
        }
    }
}

proof fn lemma_routes_stop(entries: Seq<SheetEntryView>, rels: Seq<RelView>, k: int)
    requires
        0 <= k <= entries.len(),
        routes_of(entries.take(k), rels) is Err,
    ensures
        routes_of(entries, rels) == routes_of(entries.take(k), rels),
    decreases entries.len(),
{
    if k == entries.len() {
        assert(entries.take(k) =~= entries);
    } else {
        assert(entries.drop_last().take(k) =~= entries.take(k));
        lemma_routes_stop(entries.drop_last(), rels, k);
    }
}

/// Finds the worksheet part of every sheet.
pub fn build_routes(entries: &Vec<WorkbookSheetEntry>, rels: &RelationshipMap) -> (r: Result<
    Vec<SheetRoute>,
    Error,
>)
    ensures
        (match r {
            Ok(v) => Ok(route_views(v@)),
            Err(e) => Err(e@),
        }) == routes_of(workbook::entry_views(entries@), rels@),
{
    let ghost all = workbook::entry_views(entries@);
    let mut routes: Vec<SheetRoute> = Vec::new();
    let mut i: usize = 0;
    assert(all.take(0) =~= Seq::<SheetEntryView>::empty());
    assert(route_views(routes@) =~= Seq::<RouteView>::empty());
    while i < entries.len()
        invariant
            i <= entries@.len(),
            all == workbook::entry_views(entries@),
            routes_of(all.take(i as int), rels@) == Ok::<Seq<RouteView>, ErrorView>(
                route_views(routes@),
            ),
        decreases entries@.len() - i,
    {
        let entry: &WorkbookSheetEntry = &entries[i];
        proof {
            assert(all.take(i + 1).drop_last() =~= all.take(i as int));
            assert(all.take(i + 1).last() == entry@);
        }
        match rels.get(entry.r_id.as_str()) {
            None => {
                proof {
                    lemma_routes_stop(all, rels@, i + 1);
                }
                return Err(Error::DanglingRelationship { r_id: entry.r_id.clone() });
            },
            Some(rel) => {
                let ghost front = route_views(routes@);
                let route = SheetRoute {
                    name: entry.name.clone(),
                    visibility: entry.visibility,
                    worksheet_path: rel.target.clone(),
                };
                routes.push(route);
                assert(route_views(routes@) =~= front.push(route@));
            },
        }
        i += 1;
    }
    assert(all.take(i as int) =~= all);
    Ok(routes)
}

/// Where the workbook part is: what the package's own relationships say.
pub open spec fn workbook_path_at(c: ContainerView) -> Outcome<Seq<char>> {
    match rels_at(
        c,
        PACKAGE_RELS_PATH@,
        ""@,
        ErrorView::MissingRelationshipPart(PACKAGE_RELS_PATH@),
    ) {
        Outcome::Done(rels, c2) => match relationships::target_of_type(
            rels,
            OFFICE_DOCUMENT_REL_TYPE_SUFFIX@,
        ) {
            Some(path) => Outcome::Done(path, c2),
            None => Outcome::Failed(ErrorView::InvalidPackage(PACKAGE_RELS_PATH@)),
        },
        Outcome::Failed(e) => Outcome::Failed(e),
    }
}

/// Finds the workbook part.
pub fn find_workbook(container: &mut ZipContainer) -> (r: Result<String, Error>)
    ensures
        agrees(workbook_path_at(old(container)@), error::result_view(r), final(container)@),
{
    let rels: RelationshipMap = match read_rels(
        container,
        PACKAGE_RELS_PATH,
        "",
        Error::MissingRelationshipPart(PACKAGE_RELS_PATH.to_owned()),
    ) {
        Ok(m) => m,
        Err(e) => {
            return Err(e);
        },
    };
    match rels.target_of_type(OFFICE_DOCUMENT_REL_TYPE_SUFFIX) {
        Some(path) => Ok(path),
        None => Err(Error::InvalidPackage(PACKAGE_RELS_PATH.to_owned())),
    }
}

/// The plan that a workbook part and its relationships make.
pub open spec fn plan_from(w: workbook::ParsedWorkbookView, rels: Seq<RelView>) -> Result<
    PlanView,
    ErrorView,
> {
    match routes_of(w.sheets, rels) {
        Err(e) => Err(e),
        Ok(routes) => Ok(
            PlanView {
                date1904: w.date1904,
                routes,
                shared_strings_path: relationships::target_of_type(
                    rels,
                    SHARED_STRINGS_REL_TYPE_SUFFIX@,
                ),
                styles_path: relationships::target_of_type(rels, STYLES_REL_TYPE_SUFFIX@),
                theme_path: relationships::target_of_type(rels, THEME_REL_TYPE_SUFFIX@),
            },
        ),
    }
}

/// The plan of the workbook whose part is at `path`.
pub open spec fn plan_at(c: ContainerView, path: Seq<char>) -> Outcome<PlanView> {
    match rels_at(
        c,
        rels_path(path),
        dir_of(path),
        ErrorView::MissingRelationshipPart(rels_path(path)),
    ) {
        Outcome::Done(rels, c2) => match required_at(c2, path, ErrorView::InvalidPackage(path)) {
            Outcome::Done(d, c3) => match workbook::workbook_of(xml::part_events(d), path) {
                Ok(w) => parsed(plan_from(w, rels), c3),
                Err(e) => Outcome::Failed(e),
            },
            Outcome::Failed(e) => Outcome::Failed(e),
        },
        Outcome::Failed(e) => Outcome::Failed(e),
    }
}

/// Makes the plan of the workbook whose part is at `path`.
pub fn make_plan(container: &mut ZipContainer, path: &str) -> (r: Result<Plan, Error>)
    ensures
        agrees(plan_at(old(container)@, path@), error::result_view(r), final(container)@),
{
    let (rels_name, dir): (String, String) = rels_path_for(path);
    let rels: RelationshipMap = match read_rels(
        container,
        rels_name.as_str(),
        dir.as_str(),
        Error::MissingRelationshipPart(rels_name.clone()),
    ) {
        Ok(m) => m,
        Err(e) => {
            return Err(e);
        },
    };
    let data: PartData = match fetch_required(
        container,
        path,
        Error::InvalidPackage(path.to_owned()),
    ) {
        Ok(d) => d,
        Err(e) => {
            return Err(e);
        },
    };
    let parsed: ParsedWorkbookXml = match workbook::parse_workbook_xml(&data, path) {
        Ok(w) => w,
        Err(e) => {
            return Err(e);
        },
    };
    let routes: Vec<SheetRoute> = match build_routes(&parsed.sheets, &rels) {
        Ok(v) => v,
        Err(e) => {
            return Err(e);
        },
    };
    Ok(
        Plan {
            date1904: parsed.date1904,
            routes,
            shared_strings_path: rels.target_of_type(SHARED_STRINGS_REL_TYPE_SUFFIX),
            styles_path: rels.target_of_type(STYLES_REL_TYPE_SUFFIX),
            theme_path: rels.target_of_type(THEME_REL_TYPE_SUFFIX),
        },
    )
}

// ---------------------------------------------------------------------------
// The tables that all sheets share

/// The shared strings; none if there is no part for them.
pub open spec fn strings_at(c: ContainerView, path: Option<Seq<char>>) -> Outcome<Seq<Seq<char>>> {
    match path {
        None => Outcome::Done(Seq::empty(), c),
        Some(p) => match required_at(c, p, ErrorView::InvalidPackage(p)) {
            Outcome::Done(d, c2) => parsed(
                shared_strings::shared_strings_of(xml::part_events(d), p),
                c2,
            ),
            Outcome::Failed(e) => Outcome::Failed(e),
        },
    }
}

fn read_strings(container: &mut ZipContainer, path: &Option<String>) -> (r: Result<
    SharedStringTable,
    Error,
>)
    ensures
        agrees(
            strings_at(old(container)@, text::text_opt(*path)),
            error::result_view(r),
            final(container)@,
        ),
{
    match path {
        None => Ok(SharedStringTable::default()),
        Some(p) => match fetch_required(
            container,
            p.as_str(),
            Error::InvalidPackage(p.clone()),
        ) {
            Ok(d) => shared_strings::parse_shared_strings(&d, p.as_str()),
            Err(e) => Err(e),
        },
    }
}

/// The styles; none if there is no part for them.
pub open spec fn styles_at(c: ContainerView, path: Option<Seq<char>>) -> Outcome<Seq<StyleView>> {
    match path {
        None => Outcome::Done(Seq::empty(), c),
        Some(p) => match required_at(c, p, ErrorView::InvalidPackage(p)) {
            Outcome::Done(d, c2) => parsed(styles::styles_of(xml::part_events(d), p), c2),
            Outcome::Failed(e) => Outcome::Failed(e),
        },
    }
}

fn read_styles(container: &mut ZipContainer, path: &Option<String>) -> (r: Result<
    StyleSheet,
    Error,
>)
    ensures
        agrees(
            styles_at(old(container)@, text::text_opt(*path)),
            error::result_view(r),
            final(container)@,
        ),
{
    match path {
        None => Ok(StyleSheet::new()),
        Some(p) => match fetch_required(
            container,
            p.as_str(),
            Error::InvalidPackage(p.clone()),
        ) {
            Ok(d) => styles::parse_styles(&d, p.as_str()),
            Err(e) => Err(e),
        },
    }
}

/// The theme; it is read only if there is a part for it and some style refers to
/// it, and only as far as its color scheme goes.
pub open spec fn theme_at(
    c: ContainerView,
    path: Option<Seq<char>>,
    styles: Seq<StyleView>,
) -> Outcome<Option<ThemePalette>> {
    match path {
        Some(p) => if style::sheet_uses_theme(styles) {
            match required_at(c, p, ErrorView::InvalidPackage(p)) {
                Outcome::Done(d, c2) => match theme::theme_of(xml::part_events(d), p) {
                    Ok(t) => Outcome::Done(
                        Some(t),
                        ContainerView {
                            total_read: sanitize::counted(
                                c.total_read,
                                data::asked_for(theme::theme_bytes(d, p) as int, d.bytes.len()),
                            ),
                            ..c2
                        },
                    ),
                    Err(e) => Outcome::Failed(e),
                },
                Outcome::Failed(e) => Outcome::Failed(e),
            }
        } else {
            Outcome::Done(None, c)
        },
        None => Outcome::Done(None, c),
    }
}

/// Whether some style's fill refers to the theme.
pub fn stylesheet_uses_theme_color(stylesheet: &StyleSheet) -> (r: bool)
    ensures
        r == style::sheet_uses_theme(stylesheet@),
{
    stylesheet.uses_theme_color()
}

fn read_theme(
    container: &mut ZipContainer,
    path: &Option<String>,
    stylesheet: &StyleSheet,
) -> (r: Result<Option<ThemePalette>, Error>)
    ensures
        agrees(
            theme_at(old(container)@, text::text_opt(*path), stylesheet@),
            error::plain_result(r),
            final(container)@,
        ),
{
    match path {
        Some(p) => {
            if !stylesheet_uses_theme_color(stylesheet) {
                return Ok(None);
            }
            let before: u64 = container.total_read();
            match fetch_required(container, p.as_str(), Error::InvalidPackage(p.clone())) {
                Ok(d) => match theme::parse_theme_counted(&d, p.as_str()) {
                    Ok((t, used)) => {
                        container.recount(before, data::count_asked(used, d.bytes.len()));
                        Ok(Some(t))
                    },
                    Err(e) => Err(e),
                },
                Err(e) => Err(e),
            }
        },
        None => Ok(None),
    }
}

// ---------------------------------------------------------------------------
// Images

/// The views of a list of images.
pub open spec fn image_views(images: Seq<Image>) -> Seq<ImageView> {
    images.map_values(|i: Image| i@)
}

/// The image that a pending picture becomes. Its data must be there if the
/// package is to hold it; a hyperlink that leads nowhere is left out.
pub open spec fn image_of(
    source: Seq<u8>,
    p: PendingImageView,
    rels: Option<Seq<RelView>>,
) -> Result<ImageView, ErrorView> {
    let dangling = ErrorView::DanglingRelationship { r_id: p.embed_r_id };
    match rels {
        None => Err(dangling),
        Some(m) => match relationships::lookup(m, p.embed_r_id) {
            None => Err(dangling),
            Some(embed) => {
                let present = if embed.target_mode == TargetMode::Internal {
                    archive::entry_check(source, embed.target)
                } else {
                    Ok(true)
                };
                match present {
                    Err(e) => Err(e),
                    Ok(false) => Err(dangling),
                    Ok(true) => match image_link(source, p.hyperlink_r_id, m) {
                        Err(e) => Err(e),
                        Ok(hyperlink) => Ok(
                            ImageView { anchor: p.anchor, target: embed.target, hyperlink },
                        ),
                    },
                }
            },
        },
    }
}

/// The target of a picture's hyperlink, if it leads anywhere.
pub open spec fn image_link(source: Seq<u8>, id: Option<Seq<char>>, rels: Seq<RelView>) -> Result<
    Option<Seq<char>>,
    ErrorView,
> {
    match id {
        None => Ok(None),
        Some(id) => match relationships::lookup(rels, id) {
            None => Ok(None),
            Some(rel) => if rel.target_mode == TargetMode::Internal {
                match archive::entry_check(source, rel.target) {
                    Err(e) => Err(e),
                    Ok(true) => Ok(Some(rel.target)),
                    Ok(false) => Ok(None),
                }
            } else {
                Ok(Some(rel.target))
            },
        },
    }
}

/// The images that pending pictures become.
pub open spec fn images_of(
    source: Seq<u8>,
    pending: Seq<PendingImageView>,
    rels: Option<Seq<RelView>>,
) -> Result<Seq<ImageView>, ErrorView>
    decreases pending.len(),
{
    if pending.len() == 0 {
        Ok(Seq::empty())
    } else {
        match images_of(source, pending.drop_last(), rels) {
            Err(e) => Err(e),
            Ok(front) => match image_of(source, pending.last(), rels) {
                Err(e) => Err(e),
                Ok(image) => Ok(front.push(image)),
            },
        }
    }
}

proof fn lemma_images_stop(
    source: Seq<u8>,
    pending: Seq<PendingImageView>,
    rels: Option<Seq<RelView>>,
    k: int,
)
    requires
        0 <= k <= pending.len(),
        images_of(source, pending.take(k), rels) is Err,
    ensures
        images_of(source, pending, rels) == images_of(source, pending.take(k), rels),
    decreases pending.len(),
{
    if k == pending.len() {
        assert(pending.take(k) =~= pending);
    } else {
        assert(pending.drop_last().take(k) =~= pending.take(k));
        lemma_images_stop(source, pending.drop_last(), rels, k);
    }
}

fn find_image_link(
    container: &ZipContainer,
    id: &Option<String>,
    rels: &RelationshipMap,
) -> (r: Result<Option<String>, Error>)
    ensures
        xml::opt_text_result(r) == image_link(container@.source, text::text_opt(*id), rels@),
{
    match id {
        None => Ok(None),
        Some(id) => match rels.get(id.as_str()) {
            None => Ok(None),
            Some(rel) => match rel.target_mode {
                TargetMode::External => Ok(Some(rel.target.clone())),
                TargetMode::Internal => match container.has_entry(rel.target.as_str()) {
                    Err(e) => Err(e),
                    Ok(true) => Ok(Some(rel.target.clone())),
                    Ok(false) => Ok(None),
                },
            },
        },
    }
}

fn resolve_image(
    container: &ZipContainer,
    pending: &PendingImage,
    rels: &Option<RelationshipMap>,
) -> (r: Result<Image, Error>)
    ensures
        error::result_view(r) == image_of(container@.source, pending@, rels_opt(*rels)),
{
    let map: &RelationshipMap = match rels {
        Some(m) => m,
        None => {
            return Err(Error::DanglingRelationship { r_id: pending.embed_r_id.clone() });
        },
    };
    let embed: &Relationship = match map.get(pending.embed_r_id.as_str()) {
        Some(rel) => rel,
        None => {
            return Err(Error::DanglingRelationship { r_id: pending.embed_r_id.clone() });
        },
    };
    if let TargetMode::Internal = embed.target_mode {
        match container.has_entry(embed.target.as_str()) {
            Err(e) => {
                return Err(e);
            },
            Ok(true) => {},
            Ok(false) => {
                return Err(Error::DanglingRelationship { r_id: pending.embed_r_id.clone() });
            },
        }
    }
    match find_image_link(container, &pending.hyperlink_r_id, map) {
        Err(e) => Err(e),
        Ok(hyperlink) => Ok(
            Image { anchor: pending.anchor, target: embed.target.clone(), hyperlink },
        ),
    }
}

/// Turns pending pictures into images, given the relationships of their drawing.
pub fn resolve_images(
    container: &ZipContainer,
    pending: &Vec<PendingImage>,
    rels: &Option<RelationshipMap>,
) -> (r: Result<Vec<Image>, Error>)
    ensures
        (match r {
            Ok(v) => Ok(image_views(v@)),
            Err(e) => Err(e@),
        }) == images_of(
            container@.source,
            drawing::pending_image_views(pending@),
            rels_opt(*rels),
        ),
{
    let ghost all = drawing::pending_image_views(pending@);
    let ghost source = container@.source;
    let ghost m = rels_opt(*rels);
    let mut images: Vec<Image> = Vec::new();
    let mut i: usize = 0;
    assert(all.take(0) =~= Seq::<PendingImageView>::empty());
    assert(image_views(images@) =~= Seq::<ImageView>::empty());
    while i < pending.len()
        invariant
            i <= pending@.len(),
            all == drawing::pending_image_views(pending@),
            source == container@.source,
            m == rels_opt(*rels),
            images_of(source, all.take(i as int), m) == Ok::<Seq<ImageView>, ErrorView>(
                image_views(images@),
            ),
        decreases pending@.len() - i,
    {
        proof {
            assert(all.take(i + 1).drop_last() =~= all.take(i as int));
            assert(all.take(i + 1).last() == pending@[i as int]@);
        }
        match resolve_image(container, &pending[i], rels) {
            Err(e) => {
                proof {
                    lemma_images_stop(source, all, m, i + 1);
                }
                return Err(e);
            },
            Ok(image) => {
                let ghost front = image_views(images@);
                images.push(image);
                assert(image_views(images@) =~= front.push(image@));
            },
        }
        i += 1;
    }
    assert(all.take(i as int) =~= all);
    Ok(images)
}

/// The images of a worksheet whose drawing has the given identifier: the
/// worksheet's relationships lead to the drawing, and the drawing's to the images.
pub open spec fn images_at<P: Fn(&Vec<GroupContext>, (i64, i64), (i64, i64)) -> Placement>(
    c: ContainerView,
    worksheet_path: Seq<char>,
    drawing_r_id: Seq<char>,
    place: P,
) -> Outcome<Seq<ImageView>> {
    let dangling = ErrorView::DanglingRelationship { r_id: drawing_r_id };
    match rels_at(c, rels_path(worksheet_path), dir_of(worksheet_path), dangling) {
        Outcome::Done(rels, c2) => match relationships::lookup(rels, drawing_r_id) {
            None => Outcome::Failed(dangling),
            Some(rel) => pictures_at(c2, rel.target, place),
        },
        Outcome::Failed(e) => Outcome::Failed(e),
    }
}

/// The images of the drawing at `path`.
pub open spec fn pictures_at<P: Fn(&Vec<GroupContext>, (i64, i64), (i64, i64)) -> Placement>(
    c: ContainerView,
    path: Seq<char>,
    place: P,
) -> Outcome<Seq<ImageView>> {
    match required_at(c, path, ErrorView::DanglingRelationship { r_id: path }) {
        Outcome::Done(d, c2) => match drawing::drawing_of(xml::part_events(d), path, place) {
            Err(e) => Outcome::Failed(e),
            Ok(pending) => if pending.len() == 0 {
                Outcome::Done(Seq::empty(), c2)
            } else {
                match optional_rels_at(c2, rels_path(path), dir_of(path)) {
                    Outcome::Done(rels, c3) => parsed(images_of(c3.source, pending, rels), c3),
                    Outcome::Failed(e) => Outcome::Failed(e),
                }
            },
        },
        Outcome::Failed(e) => Outcome::Failed(e),
    }
}

/// The view of a list of images that may have failed.
pub open spec fn images_result(r: Result<Vec<Image>, Error>) -> Result<Seq<ImageView>, ErrorView> {
    match r {
        Ok(v) => Ok(image_views(v@)),
        Err(e) => Err(e@),
    }
}

fn read_pictures<P: Fn(&Vec<GroupContext>, (i64, i64), (i64, i64)) -> Placement>(
    container: &mut ZipContainer,
    path: &str,
    place: &P,
) -> (r: Result<Vec<Image>, Error>)
    requires
        drawing::places(*place),
    ensures
        agrees(
            pictures_at(old(container)@, path@, *place),
            images_result(r),
            final(container)@,
        ),
{
    let data: PartData = match fetch_required(
        container,
        path,
        Error::DanglingRelationship { r_id: path.to_owned() },
    ) {
        Ok(d) => d,
        Err(e) => {
            return Err(e);
        },
    };
    let pending: Vec<PendingImage> = match drawing::parse_drawing(&data, path, place) {
        Ok(v) => v,
        Err(e) => {
            return Err(e);
        },
    };
    if pending.len() == 0 {
        let none: Vec<Image> = Vec::new();
        assert(image_views(none@) =~= Seq::<ImageView>::empty());
        return Ok(none);
    }
    let (rels_name, dir): (String, String) = rels_path_for(path);
    let rels: Option<RelationshipMap> = match read_optional_rels(
        container,
        rels_name.as_str(),
        dir.as_str(),
    ) {
        Ok(m) => m,
        Err(e) => {
            return Err(e);
        },
    };
    resolve_images(container, &pending, &rels)
}

/// Reads the images of a worksheet whose drawing has the given identifier.
pub fn resolve_sheet_images<P: Fn(&Vec<GroupContext>, (i64, i64), (i64, i64)) -> Placement>(
    container: &mut ZipContainer,
    worksheet_path: &str,
    drawing_r_id: &str,
    place: &P,
) -> (r: Result<Vec<Image>, Error>)
    requires
        drawing::places(*place),
    ensures
        agrees(
            images_at(old(container)@, worksheet_path@, drawing_r_id@, *place),
            images_result(r),
            final(container)@,
        ),
{
    let (rels_name, dir): (String, String) = rels_path_for(worksheet_path);
    let rels: RelationshipMap = match read_rels(
        container,
        rels_name.as_str(),
        dir.as_str(),
        Error::DanglingRelationship { r_id: drawing_r_id.to_owned() },
    ) {
        Ok(m) => m,
        Err(e) => {
            return Err(e);
        },
    };
    match rels.get(drawing_r_id) {
        Some(rel) => read_pictures(container, rel.target.as_str(), place),
        None => Err(Error::DanglingRelationship { r_id: drawing_r_id.to_owned() }),
    }
}

// ---------------------------------------------------------------------------
// Hyperlinks

/// The hyperlink range that a pending hyperlink becomes; a target that is not
/// known is left out.
pub open spec fn link_range_of(p: PendingLinkView, rels: Option<Seq<RelView>>) -> LinkRangeView {
    LinkRangeView {
        area: MergedRegion { start: p.start, end: p.end },
        hyperlink: HyperlinkView {
            target: match (p.r_id, rels) {
                (Some(id), Some(m)) => match relationships::lookup(m, id) {
                    Some(rel) => Some(rel.target),
                    None => None,
                },
                _ => None,
            },
            location: p.location,
            tooltip: p.tooltip,
        },
    }
}

/// The hyperlink ranges that pending hyperlinks become.
pub open spec fn link_ranges_of(pending: Seq<PendingLinkView>, rels: Option<Seq<RelView>>) -> Seq<
    LinkRangeView,
> {
    pending.map_values(|p: PendingLinkView| link_range_of(p, rels))
}

/// Whether some pending hyperlink has an identifier.
pub open spec fn has_ids(pending: Seq<PendingLinkView>) -> bool {
    exists|i: int| 0 <= i < pending.len() && (#[trigger] pending[i]).r_id is Some
}

/// The hyperlink ranges of a worksheet. Its relationships are read only if some
/// hyperlink has an identifier.
pub open spec fn links_at(
    c: ContainerView,
    worksheet_path: Seq<char>,
    pending: Seq<PendingLinkView>,
) -> Outcome<Seq<LinkRangeView>> {
    if has_ids(pending) {
        match optional_rels_at(c, rels_path(worksheet_path), dir_of(worksheet_path)) {
            Outcome::Done(rels, c2) => Outcome::Done(link_ranges_of(pending, rels), c2),
            Outcome::Failed(e) => Outcome::Failed(e),
        }
    } else {
        Outcome::Done(link_ranges_of(pending, None), c)
    }
}

fn link_range(p: &PendingHyperlink, rels: &Option<RelationshipMap>) -> (r: HyperlinkRange)
    ensures
        r@ == link_range_of(p@, rels_opt(*rels)),
{
    let target: Option<String> = match (&p.r_id, rels) {
        (Some(id), Some(m)) => match m.get(id.as_str()) {
            Some(rel) => Some(rel.target.clone()),
            None => None,
        },
        _ => None,
    };
    HyperlinkRange {
        start: p.start,
        end: p.end,
        hyperlink: Hyperlink {
            target,
            location: text::copy_opt(&p.location),
            tooltip: text::copy_opt(&p.tooltip),
        },
    }
}

/// Turns pending hyperlinks into hyperlink ranges, given the worksheet's
/// relationships.
pub fn build_link_ranges(pending: &Vec<PendingHyperlink>, rels: &Option<RelationshipMap>) -> (r:
    Vec<HyperlinkRange>)
    ensures
        sheet::link_views(r@) == link_ranges_of(
            worksheet::pending_link_views(pending@),
            rels_opt(*rels),
        ),
{
    let ghost all = link_ranges_of(worksheet::pending_link_views(pending@), rels_opt(*rels));
    let mut ranges: Vec<HyperlinkRange> = Vec::new();
    let mut i: usize = 0;
    assert(sheet::link_views(ranges@) =~= all.take(0));
    while i < pending.len()
        invariant
            i <= pending@.len(),
            all == link_ranges_of(worksheet::pending_link_views(pending@), rels_opt(*rels)),
            sheet::link_views(ranges@) == all.take(i as int),
        decreases pending@.len() - i,
    {
        let range: HyperlinkRange = link_range(&pending[i], rels);
        let ghost front = sheet::link_views(ranges@);
        assert(all[i as int] == range@);
        ranges.push(range);
        assert(sheet::link_views(ranges@) =~= front.push(range@));
        assert(all.take(i + 1) =~= all.take(i as int).push(all[i as int]));
        i += 1;
    }
    assert(all.take(i as int) =~= all);
    ranges
}

fn needs_rels(pending: &Vec<PendingHyperlink>) -> (r: bool)
    ensures
        r == has_ids(worksheet::pending_link_views(pending@)),
{
    let ghost all = worksheet::pending_link_views(pending@);
    let mut i: usize = 0;
    while i < pending.len()
        invariant
            i <= pending@.len(),
            all == worksheet::pending_link_views(pending@),
            forall|k: int| 0 <= k < i ==> (#[trigger] all[k]).r_id is None,
        decreases pending@.len() - i,
    {
        assert(all[i as int] == pending@[i as int]@);
        if pending[i].r_id.is_some() {
            return true;
        }
        i += 1;
    }
    false
}

/// Reads the hyperlink ranges of a worksheet.
pub fn resolve_sheet_hyperlinks(
    container: &mut ZipContainer,
    worksheet_path: &str,
    pending: &Vec<PendingHyperlink>,
) -> (r: Result<Vec<HyperlinkRange>, Error>)
    ensures
        agrees(
            links_at(
                old(container)@,
                worksheet_path@,
                worksheet::pending_link_views(pending@),
            ),
            (match r {
                Ok(v) => Ok(sheet::link_views(v@)),
                Err(e) => Err(e@),
            }),
            final(container)@,
        ),
{
    let mut rels: Option<RelationshipMap> = None;
    if needs_rels(pending) {
        let (rels_name, dir): (String, String) = rels_path_for(worksheet_path);
        match read_optional_rels(container, rels_name.as_str(), dir.as_str()) {
            Ok(m) => {
                rels = m;
            },
            Err(e) => {
                return Err(e);
            },
        }
    }
    Ok(build_link_ranges(pending, &rels))
}

// ---------------------------------------------------------------------------
// Sheets

/// What every sheet is resolved against.
pub struct Tables {
    pub strings: SharedStringTable,
    pub styles: StyleSheet,
    pub date1904: bool,
    pub max_cells: usize,
}

/// The tables as contracts speak of them.
#[verifier::ext_equal]
pub struct TablesView {
    pub strings: Seq<Seq<char>>,
    pub styles: Seq<StyleView>,
    pub date1904: bool,
    /// How many cells a sheet may hold.
    pub max_cells: usize,
}

impl View for Tables {
    type V = TablesView;

    open spec fn view(&self) -> TablesView {
        TablesView {
            strings: self.strings@,
            styles: self.styles@,
            date1904: self.date1904,
            max_cells: self.max_cells,
        }
    }
}

/// A sheet with its hyperlinks, read for the worksheet at `path`.
pub open spec fn linked_at(
    c: ContainerView,
    path: Seq<char>,
    s: SheetView,
    pending: Seq<PendingLinkView>,
) -> Outcome<SheetView> {
    if pending.len() == 0 {
        Outcome::Done(s, c)
    } else {
        match links_at(c, path, pending) {
            Outcome::Done(ranges, c2) => match hyperlink::links_fault(ranges) {
                Some(e) => Outcome::Failed(e),
                None => Outcome::Done(sheet::linked(s, ranges), c2),
            },
            Outcome::Failed(e) => Outcome::Failed(e),
        }
    }
}

/// A sheet with what its worksheet refers to put in place, and its hyperlinks.
pub open spec fn completed_at<F: Fn(&Number) -> Option<SerialParts>>(
    c: ContainerView,
    path: Seq<char>,
    s: SheetView,
    w: WorksheetView,
    t: TablesView,
    split: F,
) -> Outcome<SheetView> {
    match resolve::resolved(s, w, t.strings, t.styles, t.date1904, split) {
        (_, Some(e)) => Outcome::Failed(e),
        (u, None) => linked_at(c, path, u, w.pending_hyperlinks),
    }
}

/// The sheet that a route leads to. Images come first, then texts, styles, column
/// widths and merged ranges, then hyperlinks.
pub open spec fn sheet_at<
    F: Fn(&Number) -> Option<SerialParts>,
    P: Fn(&Vec<GroupContext>, (i64, i64), (i64, i64)) -> Placement,
>(c: ContainerView, route: RouteView, t: TablesView, split: F, place: P) -> Outcome<SheetView> {
    let path = route.worksheet_path;
    match required_at(c, path, ErrorView::DanglingRelationship { r_id: path }) {
        Outcome::Failed(e) => Outcome::Failed(e),
        Outcome::Done(d, c2) => match worksheet::worksheet_of(
            xml::part_events(d),
            path,
            sheet::empty_sheet(route.name, route.visibility),
            t.date1904,
            t.max_cells,
        ) {
            Err(e) => Outcome::Failed(e),
            Ok(w) => match w.drawing_r_id {
                None => completed_at(c2, path, w.sheet, w, t, split),
                Some(id) => match images_at(c2, path, id, place) {
                    Outcome::Failed(e) => Outcome::Failed(e),
                    Outcome::Done(images, c3) => completed_at(
                        c3,
                        path,
                        SheetView { images, ..w.sheet },
                        w,
                        t,
                        split,
                    ),
                },
            },
        },
    }
}

/// The view of a sheet that may have failed.
pub open spec fn sheet_result(r: Result<Sheet, Error>) -> Result<SheetView, ErrorView> {
    match r {
        Ok(s) => Ok(s@),
        Err(e) => Err(e@),
    }
}

fn link_sheet(
    container: &mut ZipContainer,
    path: &str,
    sheet: Sheet,
    pending: &Vec<PendingHyperlink>,
) -> (r: Result<Sheet, Error>)
    requires
        sheet.wf(),
    ensures
        agrees(
            linked_at(
                old(container)@,
                path@,
                sheet@,
                worksheet::pending_link_views(pending@),
            ),
            sheet_result(r),
            final(container)@,
        ),
        r matches Ok(s) ==> s.wf(),
{
    if pending.len() == 0 {
        return Ok(sheet);
    }
    let ranges: Vec<HyperlinkRange> = match resolve_sheet_hyperlinks(container, path, pending) {
        Ok(v) => v,
        Err(e) => {
            return Err(e);
        },
    };
    let mut s: Sheet = sheet;
    match hyperlink::resolve(&mut s, ranges) {
        Ok(()) => Ok(s),
        Err(e) => Err(e),
    }
}

proof fn lemma_refs_resolve(s: SheetView, w: WorksheetView, t: TablesView)
    requires
        s.wf(),
        s.cells == w.sheet.cells,
        worksheet::refs_exist(w),
    ensures
        resolve::shared_strings::refer_to_cells(s, w.pending_shared_strings, t.strings.len()),
        resolve::style::refer_to_cells(s, w.pending_styles, t.styles.len()),
{
    assert forall|i: int| #[trigger]
        resolve::shared_strings::is_reached(
            w.pending_shared_strings,
            t.strings.len(),
            i,
        ) implies s.cells.contains_key(
        sheet::origin_of(s.merges, w.pending_shared_strings[i].cell_ref),
    ) by {
        resolve::lemma_origin_exists(s, w.pending_shared_strings[i].cell_ref);
    }
    assert forall|i: int| #[trigger]
        resolve::style::is_reached(w.pending_styles, t.styles.len(), i) implies s.cells.contains_key(
        sheet::origin_of(s.merges, w.pending_styles[i].cell_ref),
    ) by {
        resolve::lemma_origin_exists(s, w.pending_styles[i].cell_ref);
    }
}

fn complete_sheet<F: Fn(&Number) -> Option<SerialParts>>(
    container: &mut ZipContainer,
    path: &str,
    output: WorksheetParseOutput,
    images: Option<Vec<Image>>,
    tables: &Tables,
    split: &F,
) -> (r: Result<Sheet, Error>)
    requires
        output.sheet.wf(),
        resolve::style::splits(*split),
        worksheet::refs_exist(output@),
        output@.sheet.merges == Map::<CellRef, MergedRegion>::empty(),
    ensures
        agrees(
            completed_at(
                old(container)@,
                path@,
                (match images {
                    Some(v) => (SheetView { images: image_views(v@), ..output@.sheet }),
                    None => output@.sheet,
                }),
                output@,
                tables@,
                *split,
            ),
            sheet_result(r),
            final(container)@,
        ),
        r matches Ok(s) ==> s.wf(),
{
    let ghost w = output@;
    let mut s: Sheet = output.sheet;
    if let Some(v) = images {
        s.set_images(v);
        assert(image_views(v@) =~= v@.map_values(|i: Image| i@));
    }
    proof {
        s.lemma_wf();
        lemma_refs_resolve(s@, w, tables@);
    }
    match resolve::resolve_sheet(
        &mut s,
        &output.pending_shared_strings,
        &tables.strings,
        &output.pending_styles,
        &tables.styles,
        tables.date1904,
        output.col_width_ranges,
        output.default_col_width,
        output.merge_regions,
        split,
    ) {
        Ok(()) => {},
        Err(e) => {
            return Err(e);
        },
    }
    link_sheet(container, path, s, &output.pending_hyperlinks)
}

/// Reads the sheet that a route leads to.
pub fn read_sheet<
    F: Fn(&Number) -> Option<SerialParts>,
    P: Fn(&Vec<GroupContext>, (i64, i64), (i64, i64)) -> Placement,
>(container: &mut ZipContainer, route: &SheetRoute, tables: &Tables, split: &F, place: &P) -> (r:
    Result<Sheet, Error>)
    requires
        resolve::style::splits(*split),
        drawing::places(*place),
    ensures
        agrees(
            sheet_at(old(container)@, route@, tables@, *split, *place),
            sheet_result(r),
            final(container)@,
        ),
        r matches Ok(s) ==> s.wf(),
{
    let path: &str = route.worksheet_path.as_str();
    let data: PartData = match fetch_required(
        container,
        path,
        Error::DanglingRelationship { r_id: route.worksheet_path.clone() },
    ) {
        Ok(d) => d,
        Err(e) => {
            return Err(e);
        },
    };
    let empty: Sheet = Sheet::new(route.name.clone(), route.visibility);
    let output: WorksheetParseOutput = match worksheet::parse_worksheet(
        &data,
        path,
        empty,
        tables.date1904,
        tables.max_cells,
    ) {
        Ok(o) => o,
        Err(e) => {
            return Err(e);
        },
    };
    proof {
        worksheet::law_worksheet_brings_cells_only(
            xml::part_events(data@),
            path@,
            empty@,
            tables.date1904,
            tables.max_cells,
        );
    }
    let images: Option<Vec<Image>> = match &output.drawing_r_id {
        None => None,
        Some(id) => match resolve_sheet_images(container, path, id.as_str(), place) {
            Ok(v) => Some(v),
            Err(e) => {
                return Err(e);
            },
        },
    };
    complete_sheet(container, path, output, images, tables, split)
}

/// The sheets that routes lead to.
pub open spec fn sheets_at<
    F: Fn(&Number) -> Option<SerialParts>,
    P: Fn(&Vec<GroupContext>, (i64, i64), (i64, i64)) -> Placement,
>(c: ContainerView, routes: Seq<RouteView>, t: TablesView, split: F, place: P) -> Outcome<
    Seq<SheetView>,
>
    decreases routes.len(),
{
    if routes.len() == 0 {
        Outcome::Done(Seq::empty(), c)
    } else {
        match sheets_at(c, routes.drop_last(), t, split, place) {
            Outcome::Failed(e) => Outcome::Failed(e),
            Outcome::Done(front, c2) => match sheet_at(c2, routes.last(), t, split, place) {
                Outcome::Failed(e) => Outcome::Failed(e),
                Outcome::Done(s, c3) => Outcome::Done(front.push(s), c3),
            },
        }
    }
}

proof fn lemma_sheets_stop<
    F: Fn(&Number) -> Option<SerialParts>,
    P: Fn(&Vec<GroupContext>, (i64, i64), (i64, i64)) -> Placement,
>(c: ContainerView, routes: Seq<RouteView>, t: TablesView, split: F, place: P, k: int)
    requires
        0 <= k <= routes.len(),
        !(sheets_at(c, routes.take(k), t, split, place) is Done),
    ensures
        sheets_at(c, routes, t, split, place) == sheets_at(c, routes.take(k), t, split, place),
    decreases routes.len(),
{
    if k == routes.len() {
        assert(routes.take(k) =~= routes);
    } else {
        assert(routes.drop_last().take(k) =~= routes.take(k));
        lemma_sheets_stop(c, routes.drop_last(), t, split, place, k);
    }
}

/// The views of a list of sheets.
pub open spec fn sheet_views(sheets: Seq<Sheet>) -> Seq<SheetView> {
    sheets.map_values(|s: Sheet| s@)
}

/// Reads the sheets that routes lead to.
pub fn read_sheets<
    F: Fn(&Number) -> Option<SerialParts>,
    P: Fn(&Vec<GroupContext>, (i64, i64), (i64, i64)) -> Placement,
>(
    container: &mut ZipContainer,
    routes: &Vec<SheetRoute>,
    tables: &Tables,
    split: &F,
    place: &P,
) -> (r: Result<Vec<Sheet>, Error>)
    requires
        resolve::style::splits(*split),
        drawing::places(*place),
    ensures
        agrees(
            sheets_at(old(container)@, route_views(routes@), tables@, *split, *place),
            (match r {
                Ok(v) => Ok(sheet_views(v@)),
                Err(e) => Err(e@),
            }),
            final(container)@,
        ),
        r matches Ok(v) ==> forall|i: int| 0 <= i < v@.len() ==> (#[trigger] v@[i]).wf(),
{
    let ghost all = route_views(routes@);
    let ghost start = container@;
    let mut sheets: Vec<Sheet> = Vec::new();
    let mut i: usize = 0;
    assert(all.take(0) =~= Seq::<RouteView>::empty());
    assert(sheet_views(sheets@) =~= Seq::<SheetView>::empty());
    while i < routes.len()
        invariant
            i <= routes@.len(),
            all == route_views(routes@),
            start == old(container)@,
            resolve::style::splits(*split),
            drawing::places(*place),
            sheets_at(start, all.take(i as int), tables@, *split, *place) == Outcome::Done(
                sheet_views(sheets@),
                container@,
            ),
            forall|k: int| 0 <= k < sheets@.len() ==> (#[trigger] sheets@[k]).wf(),
        decreases routes@.len() - i,
    {
        proof {
            assert(all.take(i + 1).drop_last() =~= all.take(i as int));
            assert(all.take(i + 1).last() == routes@[i as int]@);
        }
        match read_sheet(container, &routes[i], tables, split, place) {
            Err(e) => {
                proof {
                    lemma_sheets_stop(start, all, tables@, *split, *place, i + 1);
                }
                return Err(e);
            },
            Ok(s) => {
                let ghost front = sheet_views(sheets@);
                sheets.push(s);
                assert(sheet_views(sheets@) =~= front.push(s@));
            },
        }
        i += 1;
    }
    assert(all.take(i as int) =~= all);
    Ok(sheets)
}

// ---------------------------------------------------------------------------
// The workbook

/// The workbook that a plan leads to: shared strings first, then styles, the
/// theme, and the sheets in order.
pub open spec fn planned_at<
    F: Fn(&Number) -> Option<SerialParts>,
    P: Fn(&Vec<GroupContext>, (i64, i64), (i64, i64)) -> Placement,
>(c: ContainerView, plan: PlanView, max_cells: usize, split: F, place: P) -> Outcome<WorkbookView> {
    match strings_at(c, plan.shared_strings_path) {
        Outcome::Failed(e) => Outcome::Failed(e),
        Outcome::Done(strings, c2) => match styles_at(c2, plan.styles_path) {
            Outcome::Failed(e) => Outcome::Failed(e),
            Outcome::Done(styles, c3) => match theme_at(c3, plan.theme_path, styles) {
                Outcome::Failed(e) => Outcome::Failed(e),
                Outcome::Done(theme, c4) => match sheets_at(
                    c4,
                    plan.routes,
                    TablesView { strings, styles, date1904: plan.date1904, max_cells },
                    split,
                    place,
                ) {
                    Outcome::Failed(e) => Outcome::Failed(e),
                    Outcome::Done(sheets, c5) => Outcome::Done(WorkbookView { sheets, theme }, c5),
                },
            },
        },
    }
}

/// The view of a workbook that may have failed.
pub open spec fn workbook_result(r: Result<Workbook, Error>) -> Result<WorkbookView, ErrorView> {
    match r {
        Ok(w) => Ok(w@),
        Err(e) => Err(e@),
    }
}

/// Reads the workbook that a plan leads to.
pub fn follow_plan<
    F: Fn(&Number) -> Option<SerialParts>,
    P: Fn(&Vec<GroupContext>, (i64, i64), (i64, i64)) -> Placement,
>(container: &mut ZipContainer, plan: &Plan, max_cells: usize, split: &F, place: &P) -> (r: Result<
    Workbook,
    Error,
>)
    requires
        resolve::style::splits(*split),
        drawing::places(*place),
    ensures
        agrees(
            planned_at(old(container)@, plan@, max_cells, *split, *place),
            workbook_result(r),
            final(container)@,
        ),
        r matches Ok(w) ==> w.wf(),
{
    let strings: SharedStringTable = match read_strings(container, &plan.shared_strings_path) {
        Ok(t) => t,
        Err(e) => {
            return Err(e);
        },
    };
    let styles: StyleSheet = match read_styles(container, &plan.styles_path) {
        Ok(t) => t,
        Err(e) => {
            return Err(e);
        },
    };
    let theme: Option<ThemePalette> = match read_theme(container, &plan.theme_path, &styles) {
        Ok(t) => t,
        Err(e) => {
            return Err(e);
        },
    };
    let tables = Tables { strings, styles, date1904: plan.date1904, max_cells };
    match read_sheets(container, &plan.routes, &tables, split, place) {
        Ok(sheets) => {
            let w: Workbook = Workbook::new(sheets, theme);
            assert(w@.sheets =~= sheet_views(sheets@));
            Ok(w)
        },
        Err(e) => Err(e),
    }
}

/// The workbook that a package holds. The package is opened, its relationships
/// lead to the workbook part, and that to everything else.
pub open spec fn workbook_at<
    F: Fn(&Number) -> Option<SerialParts>,
    P: Fn(&Vec<GroupContext>, (i64, i64), (i64, i64)) -> Placement,
>(bytes: Seq<u8>, limits: SizeLimits, split: F, place: P) -> Outcome<WorkbookView> {
    match archive::open_check(bytes) {
        Err(e) => Outcome::Failed(e),
        Ok(()) => {
            let c = ContainerView {
                max_entry_size: limits.max_entry_size,
                max_total_size: limits.max_total_size,
                ..archive::fresh_container(bytes)
            };
            match workbook_path_at(c) {
                Outcome::Failed(e) => Outcome::Failed(e),
                Outcome::Done(path, c2) => match plan_at(c2, path) {
                    Outcome::Failed(e) => Outcome::Failed(e),
                    Outcome::Done(plan, c3) => planned_at(
                        c3,
                        plan,
                        limits.max_cells_per_sheet,
                        split,
                        place,
                    ),
                },
            }
        },
    }
}

/// Reads the workbook that a package holds. `split` takes a date serial apart, and
/// `place` works out where a picture in groups comes to lie.
pub fn run<
    F: Fn(&Number) -> Option<SerialParts>,
    P: Fn(&Vec<GroupContext>, (i64, i64), (i64, i64)) -> Placement,
>(bytes: Vec<u8>, limits: SizeLimits, split: &F, place: &P) -> (r: Result<Workbook, Error>)
    requires
        resolve::style::splits(*split),
        drawing::places(*place),
    ensures
        match workbook_at(bytes@, limits, *split, *place) {
            Outcome::Done(w, _) => workbook_result(r) == Ok::<WorkbookView, ErrorView>(w),
            Outcome::Failed(e) => workbook_result(r) == Err::<WorkbookView, ErrorView>(e),
        },
        r matches Ok(w) ==> w.wf(),
{
    let opened: ZipContainer = match ZipContainer::open_reader(bytes) {
        Ok(c) => c,
        Err(e) => {
            return Err(e);
        },
    };
    let mut container: ZipContainer = opened.with_max_entry_size(
        limits.max_entry_size,
    ).with_max_total_size(limits.max_total_size);
    let path: String = match find_workbook(&mut container) {
        Ok(p) => p,
        Err(e) => {
            return Err(e);
        },
    };
    let plan: Plan = match make_plan(&mut container, path.as_str()) {
        Ok(p) => p,
        Err(e) => {
            return Err(e);
        },
    };
    follow_plan(&mut container, &plan, limits.max_cells_per_sheet, split, place)
}

// ---------------------------------------------------------------------------
// What holds of every workbook

/// Whether a step leaves the container as it was, but for the count of bytes,
/// which does not fall and does not come to exceed its cap.
pub open spec fn keeps<T>(c: ContainerView, o: Outcome<T>) -> bool {
    o matches Outcome::Done(_, d) ==> {
        &&& d == (ContainerView { total_read: d.total_read, ..c })
        &&& c.total_read <= d.total_read
        &&& c.total_read <= c.max_total_size ==> d.total_read <= d.max_total_size
    }
}

proof fn lemma_data_keeps(c: ContainerView, name: Seq<char>)
    ensures
        keeps(c, data_at(c, name)),
        data_at(c, name) matches Outcome::Done(Some(d), c2) ==> c2.total_read
            == sanitize::counted(c.total_read, d.bytes.len()),
{
    if let archive::EntryView::Opened { data, intact } = archive::zip_entry(c.source, name) {
        if c.total_read <= c.max_total_size {
            archive::law_parts_stay_within_the_caps(c, data, intact);
        }
    }
}

proof fn lemma_rels_keep(c: ContainerView, name: Seq<char>, dir: Seq<char>, missing: ErrorView)
    ensures
        keeps(c, rels_at(c, name, dir, missing)),
        keeps(c, optional_rels_at(c, name, dir)),
{
    lemma_data_keeps(c, name);
}

proof fn lemma_plan_keeps(c: ContainerView, path: Seq<char>)
    ensures
        keeps(c, workbook_path_at(c)),
        keeps(c, plan_at(c, path)),
{
    lemma_rels_keep(
        c,
        PACKAGE_RELS_PATH@,
        ""@,
        ErrorView::MissingRelationshipPart(PACKAGE_RELS_PATH@),
    );
    let missing = ErrorView::MissingRelationshipPart(rels_path(path));
    lemma_rels_keep(c, rels_path(path), dir_of(path), missing);
    if let Outcome::Done(rels, c2) = rels_at(c, rels_path(path), dir_of(path), missing) {
        lemma_data_keeps(c2, path);
    }
}

proof fn lemma_tables_keep(c: ContainerView, path: Option<Seq<char>>, styles: Seq<StyleView>)
    ensures
        keeps(c, strings_at(c, path)),
        keeps(c, styles_at(c, path)),
        keeps(c, theme_at(c, path, styles)),
{
    if let Some(p) = path {
        lemma_data_keeps(c, p);
    }
}

proof fn lemma_images_keep<P: Fn(&Vec<GroupContext>, (i64, i64), (i64, i64)) -> Placement>(
    c: ContainerView,
    path: Seq<char>,
    id: Seq<char>,
    place: P,
)
    ensures
        keeps(c, images_at(c, path, id, place)),
{
    let dangling = ErrorView::DanglingRelationship { r_id: id };
    lemma_rels_keep(c, rels_path(path), dir_of(path), dangling);
    if let Outcome::Done(rels, c2) = rels_at(c, rels_path(path), dir_of(path), dangling) {
        if let Some(rel) = relationships::lookup(rels, id) {
            lemma_data_keeps(c2, rel.target);
            let missing = ErrorView::DanglingRelationship { r_id: rel.target };
            if let Outcome::Done(d, c3) = required_at(c2, rel.target, missing) {
                lemma_rels_keep(c3, rels_path(rel.target), dir_of(rel.target), missing);
            }
        }
    }
}

proof fn lemma_sheet_keeps<
    F: Fn(&Number) -> Option<SerialParts>,
    P: Fn(&Vec<GroupContext>, (i64, i64), (i64, i64)) -> Placement,
>(c: ContainerView, route: RouteView, t: TablesView, split: F, place: P)
    ensures
        keeps(c, sheet_at(c, route, t, split, place)),
{
    let path = route.worksheet_path;
    let missing = ErrorView::DanglingRelationship { r_id: path };
    lemma_data_keeps(c, path);
    if let Outcome::Done(d, c2) = required_at(c, path, missing) {
        lemma_rels_keep(c2, rels_path(path), dir_of(path), missing);
        let parsed = worksheet::worksheet_of(
            xml::part_events(d),
            path,
            sheet::empty_sheet(route.name, route.visibility),
            t.date1904,
            t.max_cells,
        );
        if let Ok(w) = parsed {
            if let Some(id) = w.drawing_r_id {
                lemma_images_keep(c2, path, id, place);
                if let Outcome::Done(images, c3) = images_at(c2, path, id, place) {
                    lemma_rels_keep(c3, rels_path(path), dir_of(path), missing);
                }
            }
        }
    }
}

proof fn lemma_sheets_keep<
    F: Fn(&Number) -> Option<SerialParts>,
    P: Fn(&Vec<GroupContext>, (i64, i64), (i64, i64)) -> Placement,
>(
    c: ContainerView,
    routes: Seq<RouteView>,
    t: TablesView,
    split: F,
    place: P,
)
    ensures
        keeps(c, sheets_at(c, routes, t, split, place)),
    decreases routes.len(),
{
    if routes.len() > 0 {
        lemma_sheets_keep(c, routes.drop_last(), t, split, place);
        if let Outcome::Done(front, c2) = sheets_at(c, routes.drop_last(), t, split, place) {
            lemma_sheet_keeps(c2, routes.last(), t, split, place);
        }
    }
}

proof fn lemma_planned_keeps<
    F: Fn(&Number) -> Option<SerialParts>,
    P: Fn(&Vec<GroupContext>, (i64, i64), (i64, i64)) -> Placement,
>(
    c: ContainerView,
    plan: PlanView,
    max_cells: usize,
    split: F,
    place: P,
)
    ensures
        keeps(c, planned_at(c, plan, max_cells, split, place)),
{
    lemma_tables_keep(c, plan.shared_strings_path, Seq::empty());
    if let Outcome::Done(strings, c2) = strings_at(c, plan.shared_strings_path) {
        lemma_tables_keep(c2, plan.styles_path, Seq::empty());
        if let Outcome::Done(styles, c3) = styles_at(c2, plan.styles_path) {
            lemma_tables_keep(c3, plan.theme_path, styles);
            if let Outcome::Done(theme, c4) = theme_at(c3, plan.theme_path, styles) {
                let t = TablesView { strings, styles, date1904: plan.date1904, max_cells };
                lemma_sheets_keep(c4, plan.routes, t, split, place);
            }
        }
    }
}

/// A workbook that is read in full has cost no more bytes than the cap on the
/// whole archive allows.
pub proof fn law_reading_stays_within_the_total_cap<
    F: Fn(&Number) -> Option<SerialParts>,
    P: Fn(&Vec<GroupContext>, (i64, i64), (i64, i64)) -> Placement,
>(
    bytes: Seq<u8>,
    limits: SizeLimits,
    split: F,
    place: P,
)
    ensures
        workbook_at(bytes, limits, split, place) matches Outcome::Done(_, d) ==> d.source == bytes
            && d.total_read <= limits.max_total_size,
{
    let c = ContainerView {
        max_entry_size: limits.max_entry_size,
        max_total_size: limits.max_total_size,
        ..archive::fresh_container(bytes)
    };
    lemma_plan_keeps(c, Seq::empty());
    if let Outcome::Done(path, c2) = workbook_path_at(c) {
        lemma_plan_keeps(c2, path);
        if let Outcome::Done(plan, c3) = plan_at(c2, path) {
            lemma_planned_keeps(c3, plan, limits.max_cells_per_sheet, split, place);
        }
    }
}

proof fn lemma_merges_keep_name(s: SheetView, regions: Seq<MergedRegion>)
    ensures
        sheet::with_merges(s, regions).name == s.name,
        sheet::with_merges(s, regions).visibility == s.visibility,
    decreases regions.len(),
{
    if regions.len() > 0 {
        lemma_merges_keep_name(s, regions.drop_last());
    }
}

proof fn lemma_backfills_keep_name(s: SheetView, areas: Seq<MergedRegion>)
    ensures
        sheet::with_backfills(s, areas).name == s.name,
        sheet::with_backfills(s, areas).visibility == s.visibility,
    decreases areas.len(),
{
    if areas.len() > 0 {
        lemma_backfills_keep_name(s, areas.drop_last());
    }
}

proof fn lemma_completed_keeps_name<F: Fn(&Number) -> Option<SerialParts>>(
    c: ContainerView,
    path: Seq<char>,
    s: SheetView,
    w: WorksheetView,
    t: TablesView,
    split: F,
)
    requires
        s.wf(),
        s.cells == w.sheet.cells,
        worksheet::refs_exist(w),
    ensures
        completed_at(c, path, s, w, t, split) matches Outcome::Done(u, _) ==> u.name == s.name
            && u.visibility == s.visibility,
{
    lemma_refs_resolve(s, w, t);
    resolve::shared_strings::lemma_texts_put(s, w.pending_shared_strings, t.strings);
    let texted = resolve::shared_strings::texts_put(s, w.pending_shared_strings, t.strings).0;
    assert forall|i: int| #[trigger]
        resolve::style::is_reached(
            w.pending_styles,
            t.styles.len(),
            i,
        ) implies texted.cells.contains_key(
        sheet::origin_of(texted.merges, w.pending_styles[i].cell_ref),
    ) by {
        assert(s.cells.dom().contains(
            sheet::origin_of(s.merges, w.pending_styles[i].cell_ref),
        ));
    }
    resolve::style::lemma_styles_put(texted, w.pending_styles, t.styles, t.date1904, split);
    let styled = resolve::style::styles_put(
        texted,
        w.pending_styles,
        t.styles,
        t.date1904,
        split,
    ).0;
    let wide = resolve::column_width::with_widths(
        styled,
        w.col_width_ranges,
        w.default_col_width,
    );
    lemma_merges_keep_name(wide, w.merge_regions);
    let merged = merge::merged(wide, w.merge_regions);
    if let Outcome::Done(ranges, c2) = links_at(c, path, w.pending_hyperlinks) {
        lemma_backfills_keep_name(merged, sheet::areas_of(ranges));
    }
}

proof fn lemma_sheet_keeps_name<
    F: Fn(&Number) -> Option<SerialParts>,
    P: Fn(&Vec<GroupContext>, (i64, i64), (i64, i64)) -> Placement,
>(c: ContainerView, route: RouteView, t: TablesView, split: F, place: P)
    ensures
        sheet_at(c, route, t, split, place) matches Outcome::Done(u, _) ==> u.name == route.name
            && u.visibility == route.visibility,
{
    let path = route.worksheet_path;
    let empty = sheet::empty_sheet(route.name, route.visibility);
    if let Outcome::Done(d, c2) = required_at(
        c,
        path,
        ErrorView::DanglingRelationship { r_id: path },
    ) {
        let events = xml::part_events(d);
        worksheet::law_worksheet_brings_cells_only(events, path, empty, t.date1904, t.max_cells);
        if let Ok(w) = worksheet::worksheet_of(events, path, empty, t.date1904, t.max_cells) {
            match w.drawing_r_id {
                None => {
                    lemma_completed_keeps_name(c2, path, w.sheet, w, t, split);
                },
                Some(id) => {
                    if let Outcome::Done(images, c3) = images_at(c2, path, id, place) {
                        let s = SheetView { images, ..w.sheet };
                        assert(s.wf());
                        lemma_completed_keeps_name(c3, path, s, w, t, split);
                    }
                },
            }
        }
    }
}

/// A workbook has one sheet for every route, in the same order and under the same
/// name and visibility.
pub proof fn law_sheets_come_in_the_order_of_their_routes<
    F: Fn(&Number) -> Option<SerialParts>,
    P: Fn(&Vec<GroupContext>, (i64, i64), (i64, i64)) -> Placement,
>(
    c: ContainerView,
    routes: Seq<RouteView>,
    t: TablesView,
    split: F,
    place: P,
)
    ensures
        sheets_at(c, routes, t, split, place) matches Outcome::Done(v, _) ==> {
            &&& v.len() == routes.len()
            &&& forall|i: int|
                0 <= i < routes.len() ==> (#[trigger] v[i]).name == routes[i].name
                    && v[i].visibility == routes[i].visibility
        },
    decreases routes.len(),
{
    if routes.len() > 0 {
        let front = routes.drop_last();
        law_sheets_come_in_the_order_of_their_routes(c, front, t, split, place);
        if let Outcome::Done(v, c2) = sheets_at(c, front, t, split, place) {
            lemma_sheet_keeps_name(c2, routes.last(), t, split, place);
            if let Outcome::Done(u, _) = sheet_at(c2, routes.last(), t, split, place) {
                let all = v.push(u);
                assert forall|i: int| 0 <= i < routes.len() implies (#[trigger] all[i]).name
                    == routes[i].name && all[i].visibility == routes[i].visibility by {
                    if i < v.len() {
                        assert(all[i] == v[i]);
                        assert(front[i] == routes[i]);
                    }
                }
            }
        }
    }
}

/// No part that is read has a document type declaration. The theme is left out: it
/// is read up to the end of its color scheme only.
pub proof fn law_no_document_type_is_read<
    P: Fn(&Vec<GroupContext>, (i64, i64), (i64, i64)) -> Placement,
>(
    events: Seq<xml::EventView>,
    path: Seq<char>,
    part_dir: Seq<char>,
    s: SheetView,
    date1904: bool,
    max_cells: usize,
    place: P,
    i: int,
)
    requires
        0 <= i < events.len(),
        events[i] is DocType,
    ensures
        relationships::relationships_of(events, part_dir, path) is Err,
        workbook::workbook_of(events, path) is Err,
        shared_strings::shared_strings_of(events, path) is Err,
        styles::styles_of(events, path) is Err,
        worksheet::worksheet_of(events, path, s, date1904, max_cells) is Err,
        drawing::drawing_of(events, path, place) is Err,
{
    lemma_no_fault_is_read(events, path, part_dir, s, date1904, max_cells, place, i);
}

/// No part is read that exceeds a cap, or whose entry is broken. The theme is left
/// out: it is read up to the end of its color scheme only.
pub proof fn law_no_part_that_breaks_off_is_read<
    P: Fn(&Vec<GroupContext>, (i64, i64), (i64, i64)) -> Placement,
>(
    part: PartView,
    path: Seq<char>,
    part_dir: Seq<char>,
    s: SheetView,
    date1904: bool,
    max_cells: usize,
    place: P,
)
    requires
        part.end != data::PartEnd::Whole,
    ensures
        xml::terminated(xml::part_events(part)) ==> {
            let events = xml::part_events(part);
            &&& relationships::relationships_of(events, part_dir, path) is Err
            &&& workbook::workbook_of(events, path) is Err
            &&& shared_strings::shared_strings_of(events, path) is Err
            &&& styles::styles_of(events, path) is Err
            &&& worksheet::worksheet_of(events, path, s, date1904, max_cells) is Err
            &&& drawing::drawing_of(events, path, place) is Err
        },
{
    let events = xml::part_events(part);
    if xml::terminated(events) {
        let last = events.len() - 1;
        xml::law_parts_that_break_off_do_not_end(part, last);
        lemma_no_fault_is_read(events, path, part_dir, s, date1904, max_cells, place, last);
    }
}

proof fn lemma_no_fault_is_read<
    P: Fn(&Vec<GroupContext>, (i64, i64), (i64, i64)) -> Placement,
>(
    events: Seq<xml::EventView>,
    path: Seq<char>,
    part_dir: Seq<char>,
    s: SheetView,
    date1904: bool,
    max_cells: usize,
    place: P,
    i: int,
)
    requires
        0 <= i < events.len(),
        xml::event_fault(events[i], path) is Some,
    ensures
        relationships::relationships_of(events, part_dir, path) is Err,
        workbook::workbook_of(events, path) is Err,
        shared_strings::shared_strings_of(events, path) is Err,
        styles::styles_of(events, path) is Err,
        worksheet::worksheet_of(events, path, s, date1904, max_cells) is Err,
        drawing::drawing_of(events, path, place) is Err,
{
    if relationships::relationships_of(events, part_dir, path) is Ok {
        part::law_faults_are_not_passed_over::<relationships::RelationshipParser>(
            relationships::RelState { part_dir, entries: Seq::empty() },
            events,
            path,
            i,
        );
    }
    if workbook::workbook_of(events, path) is Ok {
        part::law_faults_are_not_passed_over::<workbook::WorkbookParser>(
            workbook::no_workbook(),
            events,
            path,
            i,
        );
    }
    if shared_strings::shared_strings_of(events, path) is Ok {
        part::law_faults_are_not_passed_over::<shared_strings::SharedStringParser>(
            shared_strings::SharedState { strings: Seq::empty(), rich: None },
            events,
            path,
            i,
        );
    }
    if styles::styles_of(events, path) is Ok {
        part::law_faults_are_not_passed_over::<styles::StylesParser>(
            styles::no_styles(),
            events,
            path,
            i,
        );
    }
    if worksheet::worksheet_of(events, path, s, date1904, max_cells) is Ok {
        part::law_faults_are_not_passed_over::<worksheet::WorksheetParser>(
            worksheet::no_worksheet(s, date1904, max_cells),
            events,
            path,
            i,
        );
    }
    if drawing::drawing_of(events, path, place) is Ok {
        part::law_faults_are_not_passed_over::<drawing::DrawingParser<'_, P>>(
            drawing::DrawingState { place, images: Seq::empty(), anchor: None },
            events,
            path,
            i,
        );
    }
}

/// Blank cells come where areas begin, and nowhere else.
proof fn lemma_backfills(s: SheetView, areas: Seq<MergedRegion>, r: CellRef)
    ensures
        sheet::with_backfills(s, areas).merges == s.merges,
        sheet::with_backfills(s, areas).hyperlinks == s.hyperlinks,
        sheet::with_backfills(s, areas).cells.contains_key(r) ==> s.cells.contains_key(r) || (
        exists|i: int| 0 <= i < areas.len() && (#[trigger] areas[i]).start == r),
    decreases areas.len(),
{
    if areas.len() > 0 {
        let front = areas.drop_last();
        lemma_backfills(s, front, r);
        assert(areas[areas.len() - 1] == areas.last());
        if exists|i: int| 0 <= i < front.len() && (#[trigger] front[i]).start == r {
            let i = choose|i: int| 0 <= i < front.len() && (#[trigger] front[i]).start == r;
            assert(areas[i] == front[i]);
        }
    }
}

proof fn lemma_linked_origins(
    c: ContainerView,
    path: Seq<char>,
    s: SheetView,
    pending: Seq<PendingLinkView>,
    r: CellRef,
)
    requires
        linked_at(c, path, s, pending) is Done,
        forall|q: CellRef| #[trigger]
            s.cells.contains_key(q) ==> sheet::origin_of(s.merges, q) == q,
    ensures
        ({
            let t = linked_at(c, path, s, pending)->Done_0;
            &&& t.merges == s.merges
            &&& t.cells.contains_key(r) && !t.hyperlinks.contains_key(r) ==> sheet::origin_of(
                t.merges,
                r,
            ) == r
        }),
{
    if pending.len() > 0 {
        let ranges = links_at(c, path, pending)->Done_0;
        let areas = sheet::areas_of(ranges);
        let filled = sheet::with_backfills(s, areas);
        hyperlink::lemma_same_checks(areas);
        merge::law_accepted_merges_are_disjoint(areas);
        lemma_backfills(s, areas, r);
        if filled.cells.contains_key(r) && !s.cells.contains_key(r) {
            let i = choose|i: int| 0 <= i < areas.len() && (#[trigger] areas[i]).start == r;
            assert(areas[i].valid());
            assert(ranges[i].area == areas[i]);
            assert(ranges[i].area.covers(r));
            assert(sheet::is_in_link(ranges, r));
        }
    }
}

proof fn lemma_completed_origins<F: Fn(&Number) -> Option<SerialParts>>(
    c: ContainerView,
    path: Seq<char>,
    s: SheetView,
    w: WorksheetView,
    t: TablesView,
    split: F,
    r: CellRef,
)
    requires
        s.wf(),
        s.cells == w.sheet.cells,
        s.merges == Map::<CellRef, MergedRegion>::empty(),
        worksheet::refs_exist(w),
    ensures
        completed_at(c, path, s, w, t, split) matches Outcome::Done(u, _) ==> {
            &&& sheet::merges_disjoint(u.merges)
            &&& u.cells.contains_key(r) && !u.hyperlinks.contains_key(r) ==> sheet::origin_of(
                u.merges,
                r,
            ) == r
        },
{
    lemma_refs_resolve(s, w, t);
    resolve::shared_strings::lemma_texts_put(s, w.pending_shared_strings, t.strings);
    let texted = resolve::shared_strings::texts_put(s, w.pending_shared_strings, t.strings).0;
    assert forall|i: int| #[trigger]
        resolve::style::is_reached(
            w.pending_styles,
            t.styles.len(),
            i,
        ) implies texted.cells.contains_key(
        sheet::origin_of(texted.merges, w.pending_styles[i].cell_ref),
    ) by {
        assert(s.cells.dom().contains(
            sheet::origin_of(s.merges, w.pending_styles[i].cell_ref),
        ));
    }
    resolve::style::lemma_styles_put(texted, w.pending_styles, t.styles, t.date1904, split);
    let styled = resolve::style::styles_put(
        texted,
        w.pending_styles,
        t.styles,
        t.date1904,
        split,
    ).0;
    let wide = resolve::column_width::with_widths(
        styled,
        w.col_width_ranges,
        w.default_col_width,
    );
    if completed_at(c, path, s, w, t, split) is Done {
        let merged = merge::merged(wide, w.merge_regions);
        merge::law_accepted_merges_are_disjoint(w.merge_regions);
        merge::lemma_with_merges(wide, w.merge_regions);
        assert forall|q: CellRef| #[trigger] merged.cells.contains_key(q) implies sheet::origin_of(
            merged.merges,
            q,
        ) == q by {
            sheet::law_finalized_cells_are_origins(
                sheet::with_merges(wide, w.merge_regions),
                q,
            );
        }
        lemma_linked_origins(c, path, merged, w.pending_hyperlinks, r);
    }
}

/// The merged regions of a sheet that has been read do not overlap, and every cell
/// on it stands for itself, except that a hyperlink may begin at a cell that a
/// merged region covers.
pub proof fn law_cells_of_a_sheet_stand_for_themselves<
    F: Fn(&Number) -> Option<SerialParts>,
    P: Fn(&Vec<GroupContext>, (i64, i64), (i64, i64)) -> Placement,
>(c: ContainerView, route: RouteView, t: TablesView, split: F, place: P, r: CellRef)
    ensures
        sheet_at(c, route, t, split, place) matches Outcome::Done(s, _) ==> {
            &&& sheet::merges_disjoint(s.merges)
            &&& s.cells.contains_key(r) && !s.hyperlinks.contains_key(r) ==> sheet::origin_of(
                s.merges,
                r,
            ) == r
        },
{
    let path = route.worksheet_path;
    let empty = sheet::empty_sheet(route.name, route.visibility);
    if let Outcome::Done(d, c2) = required_at(
        c,
        path,
        ErrorView::DanglingRelationship { r_id: path },
    ) {
        let events = xml::part_events(d);
        worksheet::law_worksheet_brings_cells_only(events, path, empty, t.date1904, t.max_cells);
        if let Ok(w) = worksheet::worksheet_of(events, path, empty, t.date1904, t.max_cells) {
            match w.drawing_r_id {
                None => {
                    lemma_completed_origins(c2, path, w.sheet, w, t, split, r);
                },
                Some(id) => {
                    if let Outcome::Done(images, c3) = images_at(c2, path, id, place) {
                        let s = SheetView { images, ..w.sheet };
                        assert(s.wf());
                        lemma_completed_origins(c3, path, s, w, t, split, r);
                    }
                },
            }
        }
    }
}

/// The theme is not read unless a style refers to it, and a worksheet's
/// relationships are not read for hyperlinks of which none has an identifier.
pub proof fn law_nothing_is_read_without_need(
    c: ContainerView,
    path: Option<Seq<char>>,
    styles: Seq<StyleView>,
    worksheet_path: Seq<char>,
    pending: Seq<PendingLinkView>,
)
    ensures
        !style::sheet_uses_theme(styles) ==> theme_at(c, path, styles) == Outcome::Done(
            None::<ThemePalette>,
            c,
        ),
        !has_ids(pending) ==> (links_at(c, worksheet_path, pending) matches Outcome::Done(_, d)
            && d == c),
{
}

} // verus!
