//! The workbook part: the list of sheets and the date system.
use crate::container::data::PartData;
use crate::error;
use crate::error::{Error, ErrorView};
use crate::model::sheet::SheetVisibility;
use crate::parse::part;
use crate::parse::part::PartParser;
use crate::parse::xml;
use crate::parse::xml::{EventView, TagView, XmlEvent, XmlTag};
use crate::text;
use vstd::prelude::*;

verus! {

/// One sheet as the workbook lists it.
#[derive(Debug, Clone, PartialEq, Eq)]
pub struct WorkbookSheetEntry {
    pub name: String,
    /// The identifier of the relationship that leads to the worksheet part.
    pub r_id: String,
    pub visibility: SheetVisibility,
}

/// A sheet entry as contracts speak of it.
#[verifier::ext_equal]
pub struct SheetEntryView {
    pub name: Seq<char>,
    pub r_id: Seq<char>,
    pub visibility: SheetVisibility,
}

impl View for WorkbookSheetEntry {
    type V = SheetEntryView;

    open spec fn view(&self) -> SheetEntryView {
        SheetEntryView { name: self.name@, r_id: self.r_id@, visibility: self.visibility }
    }
}

/// The views of a list of sheet entries.
pub open spec fn entry_views(entries: Seq<WorkbookSheetEntry>) -> Seq<SheetEntryView> {
    entries.map_values(|e: WorkbookSheetEntry| e@)
}

/// What the workbook part says.
#[derive(Debug, Clone, PartialEq, Eq)]
pub struct ParsedWorkbookXml {
    pub sheets: Vec<WorkbookSheetEntry>,
    /// Whether date serials count from 1904.
    pub date1904: bool,
}

/// A workbook part as contracts speak of it.
#[verifier::ext_equal]
pub struct ParsedWorkbookView {
    pub sheets: Seq<SheetEntryView>,
    pub date1904: bool,
}

impl View for ParsedWorkbookXml {
    type V = ParsedWorkbookView;

    open spec fn view(&self) -> ParsedWorkbookView {
        ParsedWorkbookView { sheets: entry_views(self.sheets@), date1904: self.date1904 }
    }
}

/// The visibility that a `state` attribute denotes; an unknown one is visible.
pub open spec fn visibility_of(state: Option<Seq<char>>) -> SheetVisibility {
    if state == Some("hidden"@) {
        SheetVisibility::Hidden
    } else if state == Some("veryHidden"@) {
        SheetVisibility::VeryHidden
    } else {
        SheetVisibility::Visible
    }
}

/// Reads a `state` attribute.
pub fn parse_visibility(state: Option<&str>) -> (v: SheetVisibility)
    ensures
        v == visibility_of(
            match state {
                Some(s) => Some(s@),
                None => None,
            },
        ),
{
    match state {
        Some(s) => if text::same(s, "hidden") {
            SheetVisibility::Hidden
        } else if text::same(s, "veryHidden") {
            SheetVisibility::VeryHidden
        } else {
            SheetVisibility::Visible
        },
        None => SheetVisibility::Visible,
    }
}

/// The workbook part being read.
pub struct WorkbookParser {
    pub entries: Vec<WorkbookSheetEntry>,
    pub in_sheets: bool,
    pub saw_sheets: bool,
    pub date1904: bool,
}

/// The state of reading the workbook part.
#[verifier::ext_equal]
pub struct WorkbookState {
    pub entries: Seq<SheetEntryView>,
    pub in_sheets: bool,
    pub saw_sheets: bool,
    pub date1904: bool,
}

impl View for WorkbookParser {
    type V = WorkbookState;

    open spec fn view(&self) -> WorkbookState {
        WorkbookState {
            entries: entry_views(self.entries@),
            in_sheets: self.in_sheets,
            saw_sheets: self.saw_sheets,
            date1904: self.date1904,
        }
    }
}

/// The sheet that a `sheet` element lists.
pub open spec fn sheet_entry_of(tag: TagView, path: Seq<char>) -> Result<
    SheetEntryView,
    ErrorView,
> {
    match xml::required_value(tag.attrs, path, "name"@) {
        Err(e) => Err(e),
        Ok(name) => match xml::required_value(tag.attrs, path, "r:id"@) {
            Err(e) => Err(e),
            Ok(r_id) => match xml::attr_value(tag.attrs, path, "state"@) {
                Err(e) => Err(e),
                Ok(state) => Ok(SheetEntryView { name, r_id, visibility: visibility_of(state) }),
            },
        },
    }
}

fn read_sheet_entry(tag: &XmlTag, path: &str) -> (r: Result<WorkbookSheetEntry, Error>)
    ensures
        error::result_view(r) == sheet_entry_of(tag@, path@),
{
    let name: String = match xml::required_attr(tag, path, "name") {
        Ok(v) => v,
        Err(e) => {
            return Err(e);
        },
    };
    let r_id: String = match xml::required_attr(tag, path, "r:id") {
        Ok(v) => v,
        Err(e) => {
            return Err(e);
        },
    };
    let visibility: SheetVisibility = match xml::optional_attr(tag, path, "state") {
        Ok(Some(s)) => parse_visibility(Some(s.as_str())),
        Ok(None) => parse_visibility(None),
        Err(e) => {
            return Err(e);
        },
    };
    Ok(WorkbookSheetEntry { name, r_id, visibility })
}

/// The state after a start tag, or an empty-element tag.
pub open spec fn workbook_tag(
    st: WorkbookState,
    tag: TagView,
    empty: bool,
    path: Seq<char>,
) -> Result<WorkbookState, ErrorView> {
    if tag.name == "workbookPr"@ {
        match xml::attr_value(tag.attrs, path, "date1904"@) {
            Ok(v) => Ok(
                WorkbookState { date1904: v == Some("1"@) || v == Some("true"@), ..st },
            ),
            Err(e) => Err(e),
        }
    } else if tag.name == "sheets"@ {
        Ok(WorkbookState { in_sheets: st.in_sheets || !empty, saw_sheets: true, ..st })
    } else if st.in_sheets && tag.name == "sheet"@ {
        match sheet_entry_of(tag, path) {
            Ok(e) => Ok(WorkbookState { entries: st.entries.push(e), ..st }),
            Err(e) => Err(e),
        }
    } else {
        Ok(st)
    }
}

/// The state after one more event.
pub open spec fn workbook_step(st: WorkbookState, ev: EventView, path: Seq<char>) -> Result<
    WorkbookState,
    ErrorView,
> {
    match ev {
        EventView::Start(tag) => workbook_tag(st, tag, false, path),
        EventView::Empty(tag) => workbook_tag(st, tag, true, path),
        EventView::End(name) => if name == "sheets"@ {
            Ok(WorkbookState { in_sheets: false, ..st })
        } else {
            Ok(st)
        },
        _ => Ok(st),
    }
}

impl WorkbookParser {
    fn element(&mut self, tag: &XmlTag, empty: bool, path: &str) -> (r: Result<(), Error>)
        ensures
            match workbook_tag(old(self)@, tag@, empty, path@) {
                Ok(s) => r is Ok && final(self)@ == s,
                Err(f) => r matches Err(e) && e@ == f,
            },
    {
        let name: &str = tag.name.as_str();
        if text::same(name, "workbookPr") {
            match xml::optional_attr(tag, path, "date1904") {
                Ok(v) => {
                    self.date1904 = text::is_some_text(&v, "1") || text::is_some_text(&v, "true");
                },
                Err(e) => {
                    return Err(e);
                },
            }
        } else if text::same(name, "sheets") {
            self.saw_sheets = true;
            if !empty {
                self.in_sheets = true;
            }
        } else if self.in_sheets && text::same(name, "sheet") {
            match read_sheet_entry(tag, path) {
                Ok(e) => {
                    self.entries.push(e);
                    assert(self@.entries =~= old(self)@.entries.push(e@));
                },
                Err(e) => {
                    return Err(e);
                },
            }
        }
        Ok(())
    }
}

impl PartParser for WorkbookParser {
    open spec fn inv(&self) -> bool {
        true
    }

    open spec fn finished(state: WorkbookState) -> bool {
        false
    }

    open spec fn advance(state: WorkbookState, ev: EventView, path: Seq<char>) -> Result<
        WorkbookState,
        ErrorView,
    > {
        workbook_step(state, ev, path)
    }

    fn is_finished(&self) -> (r: bool) {
        false
    }

    fn step(&mut self, ev: &XmlEvent, path: &str) -> (r: Result<(), Error>) {
        match ev {
            XmlEvent::Start(tag) => self.element(tag, false, path),
            XmlEvent::Empty(tag) => self.element(tag, true, path),
            XmlEvent::End(name) => {
                if text::same(name.as_str(), "sheets") {
                    self.in_sheets = false;
                }
                Ok(())
            },
            _ => Ok(()),
        }
    }
}

/// The state before the first event.
pub open spec fn no_workbook() -> WorkbookState {
    WorkbookState {
        entries: Seq::empty(),
        in_sheets: false,
        saw_sheets: false,
        date1904: false,
    }
}

/// What a workbook part says; it must have a `sheets` element.
pub open spec fn workbook_of(events: Seq<EventView>, path: Seq<char>) -> Result<
    ParsedWorkbookView,
    ErrorView,
> {
    match part::state_after::<WorkbookParser>(no_workbook(), events, path) {
        Err(e) => Err(e),
        Ok(s) => if s.saw_sheets {
            Ok(ParsedWorkbookView { sheets: s.entries, date1904: s.date1904 })
        } else {
            Err(ErrorView::MissingRequiredElement { path, name: "sheets"@ })
        },
    }
}

/// Names that are told apart.
proof fn lemma_names()
    ensures
        "sheets"@ != "workbookPr"@,
        "sheet"@ != "workbookPr"@,
        "sheet"@ != "sheets"@,
        "hidden"@ != "veryHidden"@,
{
    reveal_strlit("sheets");
    reveal_strlit("workbookPr");
    reveal_strlit("sheet");
    reveal_strlit("hidden");
    reveal_strlit("veryHidden");
    assert("sheets"@.len() == 6
        && "workbookPr"@.len() == 10
        && "sheet"@.len() == 5
        && "hidden"@.len() == 6
        && "veryHidden"@.len() == 10);
}

/// Whether the list of sheets is open: it has been opened and not been closed since.
pub open spec fn inside_sheets(events: Seq<EventView>) -> bool {
    exists|j: int|
        #![trigger events[j]]
        0 <= j < events.len() && (events[j] matches EventView::Start(tag) && tag.name == "sheets"@)
            && forall|k: int|
            j < k < events.len() ==> #[trigger] events[k] != EventView::End("sheets"@)
}

proof fn lemma_inside_sheets(events: Seq<EventView>, path: Seq<char>)
    requires
        inside_sheets(events),
    ensures
        part::state_after::<WorkbookParser>(no_workbook(), events, path) matches Ok(st)
            ==> st.in_sheets && st.saw_sheets,
    decreases events.len(),
{
    lemma_names();
    let j = choose|j: int|
        #![trigger events[j]]
        0 <= j < events.len() && (events[j] matches EventView::Start(tag) && tag.name == "sheets"@)
            && forall|k: int|
            j < k < events.len() ==> #[trigger] events[k] != EventView::End("sheets"@);
    let front = events.drop_last();
    let last = events.len() - 1;
    assert(events[last] == events.last());
    if j < last {
        assert(front[j] == events[j]);
        assert forall|k: int| j < k < front.len() implies #[trigger] front[k] != EventView::End(
            "sheets"@,
        ) by {
            assert(front[k] == events[k]);
        }
        lemma_inside_sheets(front, path);
    }
}

/// Every `sheet` element within the list of sheets adds a sheet behind those before it,
/// with the name and identifier that it states, hidden or very hidden if it says so and
/// visible otherwise.
pub proof fn law_listed_sheets_are_read(
    events: Seq<EventView>,
    tag: TagView,
    empty: bool,
    name: Seq<char>,
    r_id: Seq<char>,
    state: Option<Seq<char>>,
    path: Seq<char>,
)
    requires
        inside_sheets(events),
        tag.name == "sheet"@,
        xml::states(tag.attrs, "name"@, name),
        xml::states(tag.attrs, "r:id"@, r_id),
        xml::states_opt(tag.attrs, "state"@, state),
    ensures
        workbook_of(events, path) matches Ok(w) ==> workbook_of(
            events.push(xml::element(tag, empty)),
            path,
        ) == Ok::<ParsedWorkbookView, ErrorView>(
            ParsedWorkbookView {
                sheets: w.sheets.push(
                    SheetEntryView {
                        name,
                        r_id,
                        visibility: if state == Some("hidden"@) {
                            SheetVisibility::Hidden
                        } else if state == Some("veryHidden"@) {
                            SheetVisibility::VeryHidden
                        } else {
                            SheetVisibility::Visible
                        },
                    },
                ),
                ..w
            },
        ),
{
    lemma_names();
    lemma_inside_sheets(events, path);
    part::lemma_one_more::<WorkbookParser>(
        no_workbook(),
        events,
        xml::element(tag, empty),
        path,
    );
    xml::law_attributes_are_found_by_name(tag.attrs, path, "name"@, name);
    xml::law_attributes_are_found_by_name(tag.attrs, path, "r:id"@, r_id);
    xml::lemma_attribute(tag.attrs, path, "state"@, state);
}

/// The date system counts from 1904 if the last `workbookPr` element says so, with `1`
/// or `true`; its element changes nothing else.
pub proof fn law_date_system_is_read(
    events: Seq<EventView>,
    tag: TagView,
    empty: bool,
    value: Option<Seq<char>>,
    path: Seq<char>,
)
    requires
        tag.name == "workbookPr"@,
        xml::states_opt(tag.attrs, "date1904"@, value),
    ensures
        workbook_of(events, path) matches Ok(w) ==> workbook_of(
            events.push(xml::element(tag, empty)),
            path,
        ) == Ok::<ParsedWorkbookView, ErrorView>(
            ParsedWorkbookView {
                date1904: value == Some(seq!['1']) || value == Some("true"@),
                ..w
            },
        ),
{
    reveal_strlit("1");
    assert("1"@ =~= seq!['1']);
    part::lemma_one_more::<WorkbookParser>(
        no_workbook(),
        events,
        xml::element(tag, empty),
        path,
    );
    xml::lemma_attribute(tag.attrs, path, "date1904"@, value);
}

/// Nothing but a `sheet` element adds a sheet, none that was listed is lost, and nothing
/// but a `workbookPr` element changes the date system.
pub proof fn law_only_sheet_elements_list_sheets(
    events: Seq<EventView>,
    ev: EventView,
    path: Seq<char>,
)
    ensures
        ({
            let named = |name: Seq<char>| match ev {
                EventView::Start(tag) | EventView::Empty(tag) => tag.name == name,
                _ => false,
            };
            (workbook_of(events, path) matches Ok(w) && workbook_of(
                events.push(ev),
                path,
            ) is Ok) ==> {
                let v = workbook_of(events.push(ev), path)->Ok_0;
                let w = workbook_of(events, path)->Ok_0;
                &&& w.sheets.is_prefix_of(v.sheets)
                &&& !named("sheet"@) ==> v.sheets == w.sheets
                &&& !named("workbookPr"@) ==> v.date1904 == w.date1904
            }
        }),
{
    lemma_names();
    part::lemma_one_more::<WorkbookParser>(no_workbook(), events, ev, path);
}

proof fn lemma_no_sheets(events: Seq<EventView>, path: Seq<char>)
    requires
        forall|i: int|
            0 <= i < events.len() ==> match #[trigger] events[i] {
                EventView::Start(tag) | EventView::Empty(tag) => tag.name != "sheets"@,
                _ => true,
            },
    ensures
        part::state_after::<WorkbookParser>(no_workbook(), events, path) matches Ok(st)
            ==> !st.in_sheets && !st.saw_sheets && st.entries == Seq::<SheetEntryView>::empty(),
    decreases events.len(),
{
    if events.len() > 0 {
        let front = events.drop_last();
        assert forall|i: int| 0 <= i < front.len() implies #[trigger] front[i] == events[i] by {}
        assert(events[events.len() - 1] == events.last());
        lemma_no_sheets(front, path);
    }
}

/// A workbook part without a list of sheets is an error.
pub proof fn law_workbooks_have_a_list_of_sheets(events: Seq<EventView>, path: Seq<char>)
    requires
        forall|i: int|
            0 <= i < events.len() ==> match #[trigger] events[i] {
                EventView::Start(tag) | EventView::Empty(tag) => tag.name != "sheets"@,
                _ => true,
            },
    ensures
        workbook_of(events, path) is Err,
        part::state_after::<WorkbookParser>(no_workbook(), events, path) is Ok ==> workbook_of(
            events,
            path,
        ) == Err::<ParsedWorkbookView, ErrorView>(
            ErrorView::MissingRequiredElement { path, name: "sheets"@ },
        ),
{
    lemma_no_sheets(events, path);
}

/// Reads the workbook part.
pub fn parse_workbook_xml(part: &PartData, path: &str) -> (r: Result<ParsedWorkbookXml, Error>)
    ensures
        error::result_view(r) == workbook_of(xml::part_events(part@), path@),
{
    let parser = WorkbookParser {
        entries: Vec::new(),
        in_sheets: false,
        saw_sheets: false,
        date1904: false,
    };
    assert(parser@.entries =~= Seq::<SheetEntryView>::empty());
    match part::read_part(parser, part, path) {
        Err(e) => Err(e),
        Ok(p) => {
            if p.saw_sheets {
                Ok(ParsedWorkbookXml { sheets: p.entries, date1904: p.date1904 })
            } else {
                Err(Error::MissingRequiredElement { path: path.to_owned(), name: "sheets" })
            }
        },
    }
}

} // verus!
