//! A workbook: its sheets and its theme.
use crate::model::color::ThemePalette;
use crate::model::sheet::{Sheet, SheetView};
use crate::text;
use vstd::prelude::*;

verus! {

/// A workbook that has been read.
#[derive(Debug, Clone)]
pub struct Workbook {
    sheets: Vec<Sheet>,
    theme: Option<ThemePalette>,
}

/// A workbook as contracts speak of it.
#[verifier::ext_equal]
pub struct WorkbookView {
    pub sheets: Seq<SheetView>,
    pub theme: Option<ThemePalette>,
}

impl View for Workbook {
    type V = WorkbookView;

    closed spec fn view(&self) -> WorkbookView {
        WorkbookView { sheets: self.sheets@.map_values(|s: Sheet| s@), theme: self.theme }
    }
}

impl Workbook {
    /// Every sheet keeps its invariant.
    pub closed spec fn wf(&self) -> bool {
        forall|i: int| 0 <= i < self.sheets@.len() ==> (#[trigger] self.sheets@[i]).wf()
    }

    /// A workbook made of sheets and a theme.
    pub fn new(sheets: Vec<Sheet>, theme: Option<ThemePalette>) -> (w: Workbook)
        ensures
            w@ == (WorkbookView { sheets: sheets@.map_values(|s: Sheet| s@), theme }),
            (forall|i: int| 0 <= i < sheets@.len() ==> (#[trigger] sheets@[i]).wf()) ==> w.wf(),
    {
        Workbook { sheets, theme }
    }

    /// The sheets, in the order in which the workbook lists them.
    pub fn sheets(&self) -> (r: &Vec<Sheet>)
        ensures
            r@.map_values(|s: Sheet| s@) == self@.sheets,
            self.wf() ==> forall|i: int| 0 <= i < r@.len() ==> (#[trigger] r@[i]).wf(),
    {
        &self.sheets
    }

    /// The first sheet of the given name.
    pub fn sheet(&self, name: &str) -> (r: Option<&Sheet>)
        ensures
            match r {
                Some(s) => exists|i: int|
                    0 <= i < self@.sheets.len() && s@ == #[trigger] self@.sheets[i]
                        && self@.sheets[i].name == name@ && forall|j: int|
                        0 <= j < i ==> (#[trigger] self@.sheets[j]).name != name@,
                None => forall|j: int|
                    0 <= j < self@.sheets.len() ==> (#[trigger] self@.sheets[j]).name != name@,
            },
            self.wf() ==> (r matches Some(s) ==> s.wf()),
    {
        let mut i: usize = 0;
        while i < self.sheets.len()
            invariant
                i <= self.sheets@.len(),
                self.sheets@.len() == self@.sheets.len(),
                forall|j: int| 0 <= j < i ==> (#[trigger] self@.sheets[j]).name != name@,
            decreases self.sheets@.len() - i,
        {
            assert(self@.sheets[i as int] == self.sheets@[i as int]@);
            if text::same(self.sheets[i].name(), name) {
                return Some(&self.sheets[i]);
            }
            i += 1;
        }
        None
    }

    /// The theme's palette, if the workbook's styles refer to one.
    pub fn theme(&self) -> (r: Option<&ThemePalette>)
        ensures
            (match r {
                Some(p) => Some(*p),
                None => None,
            }) == self@.theme,
    {
        self.theme.as_ref()
    }
}

} // verus!
