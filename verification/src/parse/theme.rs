//! The theme part: the palette of its color scheme.
use crate::container::data::{PartData, PartView};
use crate::error;
use crate::error::{Error, ErrorView};
use crate::model::color;
use crate::model::color::{Rgb, ThemePalette};
use crate::parse::part;
use crate::parse::part::PartParser;
use crate::parse::xml;
use crate::parse::xml::{EventView, TagView, XmlEvent, XmlTag};
use crate::text;
use vstd::prelude::*;

verus! {

/// The element name of a palette slot. The light and dark pairs are swapped
/// against the order in which a color scheme declares them.
pub open spec fn slot_name(i: int) -> Seq<char> {
    if i == 0 {
        "lt1"@
    } else if i == 1 {
        "dk1"@
    } else if i == 2 {
        "lt2"@
    } else if i == 3 {
        "dk2"@
    } else if i == 4 {
        "accent1"@
    } else if i == 5 {
        "accent2"@
    } else if i == 6 {
        "accent3"@
    } else if i == 7 {
        "accent4"@
    } else if i == 8 {
        "accent5"@
    } else if i == 9 {
        "accent6"@
    } else if i == 10 {
        "hlink"@
    } else {
        "folHlink"@
    }
}

/// The slot that an element name belongs to, looking from slot `i` on.
pub open spec fn slot_from(name: Seq<char>, i: int) -> Option<int>
    decreases 12 - i,
{
    if i >= 12 {
        None
    } else if slot_name(i) == name {
        Some(i)
    } else {
        slot_from(name, i + 1)
    }
}

/// The slot that an element name belongs to.
pub open spec fn slot_of(name: Seq<char>) -> Option<int> {
    slot_from(name, 0)
}

fn slot_text(i: usize) -> (r: &'static str)
    requires
        i < 12,
    ensures
        r@ == slot_name(i as int),
{
    if i == 0 {
        "lt1"
    } else if i == 1 {
        "dk1"
    } else if i == 2 {
        "lt2"
    } else if i == 3 {
        "dk2"
    } else if i == 4 {
        "accent1"
    } else if i == 5 {
        "accent2"
    } else if i == 6 {
        "accent3"
    } else if i == 7 {
        "accent4"
    } else if i == 8 {
        "accent5"
    } else if i == 9 {
        "accent6"
    } else if i == 10 {
        "hlink"
    } else {
        "folHlink"
    }
}

fn find_slot(name: &str) -> (r: Option<usize>)
    ensures
        match r {
            Some(i) => slot_of(name@) == Some(i as int) && i < 12,
            None => slot_of(name@) is None,
        },
{
    let mut i: usize = 0;
    while i < 12
        invariant
            i <= 12,
            slot_of(name@) == slot_from(name@, i as int),
        decreases 12 - i,
    {
        if text::same(slot_text(i), name) {
            return Some(i);
        }
        i += 1;
    }
    None
}

/// The color of a slot whose value cannot be interpreted.
pub open spec fn fallback_color(slot: Seq<char>) -> Rgb {
    if slot == "lt1"@ || slot == "lt2"@ {
        Rgb { r: 0xFF, g: 0xFF, b: 0xFF }
    } else {
        Rgb { r: 0, g: 0, b: 0 }
    }
}

/// White for the light slots, black for every other.
pub fn fallback_for_slot(slot: &str) -> (c: Rgb)
    ensures
        c == fallback_color(slot@),
{
    if text::same(slot, "lt1") || text::same(slot, "lt2") {
        Rgb { r: 0xFF, g: 0xFF, b: 0xFF }
    } else {
        Rgb { r: 0, g: 0, b: 0 }
    }
}

/// The color that a `srgbClr` or `sysClr` element gives a slot.
pub open spec fn slot_color(slot: Seq<char>, tag: TagView, path: Seq<char>) -> Result<
    Rgb,
    ErrorView,
> {
    let attr = if tag.name == "sysClr"@ {
        "lastClr"@
    } else {
        "val"@
    };
    match xml::attr_value(tag.attrs, path, attr) {
        Err(e) => Err(e),
        Ok(None) => Ok(fallback_color(slot)),
        Ok(Some(v)) => match color::hex_color(v, 6) {
            Some(c) => Ok(c),
            None => Ok(fallback_color(slot)),
        },
    }
}

/// Reads the color that an element gives a slot.
pub fn resolve_slot_color(slot: &str, tag: &XmlTag, path: &str) -> (r: Result<Rgb, Error>)
    ensures
        error::plain_result(r) == slot_color(slot@, tag@, path@),
{
    let attr: &str = if text::same(tag.name.as_str(), "sysClr") {
        "lastClr"
    } else {
        "val"
    };
    match xml::optional_attr(tag, path, attr) {
        Err(e) => Err(e),
        Ok(None) => Ok(fallback_for_slot(slot)),
        Ok(Some(v)) => match color::parse_hex6(v.as_str()) {
            Some(c) => Ok(c),
            None => Ok(fallback_for_slot(slot)),
        },
    }
}

/// The theme part being read.
pub struct ThemeParser {
    slots: Vec<Option<Rgb>>,
    in_clr_scheme: bool,
    current_slot: Option<usize>,
    done: bool,
}

/// The state of reading the theme part.
#[verifier::ext_equal]
pub struct ThemeState {
    pub slots: Seq<Option<Rgb>>,
    pub in_clr_scheme: bool,
    pub current_slot: Option<int>,
    /// Whether the color scheme has ended.
    pub done: bool,
}

impl View for ThemeParser {
    type V = ThemeState;

    closed spec fn view(&self) -> ThemeState {
        ThemeState {
            slots: self.slots@,
            in_clr_scheme: self.in_clr_scheme,
            current_slot: match self.current_slot {
                Some(i) => Some(i as int),
                None => None,
            },
            done: self.done,
        }
    }
}

/// Whether an element carries a slot's color.
pub open spec fn is_color_element(name: Seq<char>) -> bool {
    name == "srgbClr"@ || name == "sysClr"@
}

/// The state after an element that may carry a slot's color.
pub open spec fn theme_color(st: ThemeState, tag: TagView, path: Seq<char>) -> Result<
    ThemeState,
    ErrorView,
> {
    match st.current_slot {
        Some(i) => if is_color_element(tag.name) {
            match slot_color(slot_name(i), tag, path) {
                Ok(c) => Ok(ThemeState { slots: st.slots.update(i, Some(c)), ..st }),
                Err(e) => Err(e),
            }
        } else {
            Ok(st)
        },
        None => Ok(st),
    }
}

/// The state after one more event.
pub open spec fn theme_step(st: ThemeState, ev: EventView, path: Seq<char>) -> Result<
    ThemeState,
    ErrorView,
> {
    match ev {
        EventView::Start(tag) => if tag.name == "clrScheme"@ {
            Ok(ThemeState { in_clr_scheme: true, ..st })
        } else if st.in_clr_scheme && st.current_slot is None {
            Ok(ThemeState { current_slot: slot_of(tag.name), ..st })
        } else {
            theme_color(st, tag, path)
        },
        EventView::Empty(tag) => theme_color(st, tag, path),
        EventView::End(name) => if name == "clrScheme"@ {
            Ok(ThemeState { done: true, ..st })
        } else {
            match st.current_slot {
                Some(i) => if name == slot_name(i) {
                    Ok(ThemeState { current_slot: None, ..st })
                } else {
                    Ok(st)
                },
                None => Ok(st),
            }
        },
        EventView::Eof => Err(ErrorView::MissingRequiredElement { path, name: "clrScheme"@ }),
        _ => Ok(st),
    }
}

impl ThemeParser {
    /// Before the first event.
    pub fn new() -> (p: ThemeParser)
        ensures
            p@ == no_theme(),
            p.inv(),
    {
        let mut slots: Vec<Option<Rgb>> = Vec::new();
        let mut i: usize = 0;
        while i < 12
            invariant
                i <= 12,
                slots@ == Seq::new(i as nat, |k: int| None::<Rgb>),
            decreases 12 - i,
        {
            slots.push(None);
            i += 1;
            assert(slots@ =~= Seq::new(i as nat, |k: int| None::<Rgb>));
        }
        let p = ThemeParser { slots, in_clr_scheme: false, current_slot: None, done: false };
        p
    }

    fn color(&mut self, tag: &XmlTag, path: &str) -> (r: Result<(), Error>)
        requires
            old(self).inv(),
        ensures
            match theme_color(old(self)@, tag@, path@) {
                Ok(s) => r is Ok && final(self)@ == s && final(self).inv(),
                Err(f) => r matches Err(e) && e@ == f,
            },
    {
        if let Some(i) = self.current_slot {
            if text::same(tag.name.as_str(), "srgbClr") || text::same(tag.name.as_str(), "sysClr") {
                match resolve_slot_color(slot_text(i), tag, path) {
                    Ok(c) => {
                        self.slots.set(i, Some(c));
                    },
                    Err(e) => {
                        return Err(e);
                    },
                }
            }
        }
        Ok(())
    }
}

impl PartParser for ThemeParser {
    closed spec fn inv(&self) -> bool {
        self.slots@.len() == 12 && (self.current_slot matches Some(i) ==> i < 12)
    }

    open spec fn finished(state: ThemeState) -> bool {
        state.done
    }

    open spec fn advance(state: ThemeState, ev: EventView, path: Seq<char>) -> Result<
        ThemeState,
        ErrorView,
    > {
        theme_step(state, ev, path)
    }

    fn is_finished(&self) -> (r: bool) {
        self.done
    }

    fn step(&mut self, ev: &XmlEvent, path: &str) -> (r: Result<(), Error>) {
        match ev {
            XmlEvent::Start(tag) => {
                if text::same(tag.name.as_str(), "clrScheme") {
                    self.in_clr_scheme = true;
                    Ok(())
                } else if self.in_clr_scheme && self.current_slot.is_none() {
                    self.current_slot = find_slot(tag.name.as_str());
                    Ok(())
                } else {
                    self.color(tag, path)
                }
            },
            XmlEvent::Empty(tag) => self.color(tag, path),
            XmlEvent::End(name) => {
                if text::same(name.as_str(), "clrScheme") {
                    self.done = true;
                } else if let Some(i) = self.current_slot {
                    if text::same(name.as_str(), slot_text(i)) {
                        self.current_slot = None;
                    }
                }
                Ok(())
            },
            XmlEvent::Eof => Err(
                Error::MissingRequiredElement { path: path.to_owned(), name: "clrScheme" },
            ),
            _ => Ok(()),
        }
    }
}

/// The state before the first event.
pub open spec fn no_theme() -> ThemeState {
    ThemeState {
        slots: Seq::new(12, |k: int| None::<Rgb>),
        in_clr_scheme: false,
        current_slot: None,
        done: false,
    }
}

/// The palette that filled slots make; every slot must be filled.
pub open spec fn is_palette(slots: Seq<Option<Rgb>>, p: ThemePalette) -> bool {
    forall|i: int| 0 <= i < 12 ==> #[trigger] slots[i] == Some(p.0@[i])
}

/// The palette that filled slots make.
pub open spec fn palette_of(slots: Seq<Option<Rgb>>) -> ThemePalette {
    choose|p: ThemePalette| is_palette(slots, p)
}

/// The palette of the color scheme that a theme part states.
pub open spec fn theme_of(events: Seq<EventView>, path: Seq<char>) -> Result<
    ThemePalette,
    ErrorView,
> {
    match part::state_after::<ThemeParser>(no_theme(), events, path) {
        Err(e) => Err(e),
        Ok(s) => if exists|i: int| 0 <= i < 12 && #[trigger] s.slots[i] is None {
            Err(ErrorView::MissingRequiredElement { path, name: "clrScheme"@ })
        } else {
            Ok(palette_of(s.slots))
        },
    }
}

/// Names that are told apart.
proof fn lemma_names()
    ensures
        "dk1"@ != "lt1"@,
        "lt2"@ != "lt1"@,
        "lt2"@ != "dk1"@,
        "dk2"@ != "lt1"@,
        "dk2"@ != "dk1"@,
        "dk2"@ != "lt2"@,
        "accent1"@ != "lt1"@,
        "accent1"@ != "dk1"@,
        "accent1"@ != "lt2"@,
        "accent1"@ != "dk2"@,
        "accent2"@ != "lt1"@,
        "accent2"@ != "dk1"@,
        "accent2"@ != "lt2"@,
        "accent2"@ != "dk2"@,
        "accent2"@ != "accent1"@,
        "accent3"@ != "lt1"@,
        "accent3"@ != "dk1"@,
        "accent3"@ != "lt2"@,
        "accent3"@ != "dk2"@,
        "accent3"@ != "accent1"@,
        "accent3"@ != "accent2"@,
        "accent4"@ != "lt1"@,
        "accent4"@ != "dk1"@,
        "accent4"@ != "lt2"@,
        "accent4"@ != "dk2"@,
        "accent4"@ != "accent1"@,
        "accent4"@ != "accent2"@,
        "accent4"@ != "accent3"@,
        "accent5"@ != "lt1"@,
        "accent5"@ != "dk1"@,
        "accent5"@ != "lt2"@,
        "accent5"@ != "dk2"@,
        "accent5"@ != "accent1"@,
        "accent5"@ != "accent2"@,
        "accent5"@ != "accent3"@,
        "accent5"@ != "accent4"@,
        "accent6"@ != "lt1"@,
        "accent6"@ != "dk1"@,
        "accent6"@ != "lt2"@,
        "accent6"@ != "dk2"@,
        "accent6"@ != "accent1"@,
        "accent6"@ != "accent2"@,
        "accent6"@ != "accent3"@,
        "accent6"@ != "accent4"@,
        "accent6"@ != "accent5"@,
        "hlink"@ != "lt1"@,
        "hlink"@ != "dk1"@,
        "hlink"@ != "lt2"@,
        "hlink"@ != "dk2"@,
        "hlink"@ != "accent1"@,
        "hlink"@ != "accent2"@,
        "hlink"@ != "accent3"@,
        "hlink"@ != "accent4"@,
        "hlink"@ != "accent5"@,
        "hlink"@ != "accent6"@,
        "folHlink"@ != "lt1"@,
        "folHlink"@ != "dk1"@,
        "folHlink"@ != "lt2"@,
        "folHlink"@ != "dk2"@,
        "folHlink"@ != "accent1"@,
        "folHlink"@ != "accent2"@,
        "folHlink"@ != "accent3"@,
        "folHlink"@ != "accent4"@,
        "folHlink"@ != "accent5"@,
        "folHlink"@ != "accent6"@,
        "folHlink"@ != "hlink"@,
        "clrScheme"@ != "lt1"@,
        "clrScheme"@ != "dk1"@,
        "clrScheme"@ != "lt2"@,
        "clrScheme"@ != "dk2"@,
        "clrScheme"@ != "accent1"@,
        "clrScheme"@ != "accent2"@,
        "clrScheme"@ != "accent3"@,
        "clrScheme"@ != "accent4"@,
        "clrScheme"@ != "accent5"@,
        "clrScheme"@ != "accent6"@,
        "clrScheme"@ != "hlink"@,
        "clrScheme"@ != "folHlink"@,
        "srgbClr"@ != "lt1"@,
        "srgbClr"@ != "dk1"@,
        "srgbClr"@ != "lt2"@,
        "srgbClr"@ != "dk2"@,
        "srgbClr"@ != "accent1"@,
        "srgbClr"@ != "accent2"@,
        "srgbClr"@ != "accent3"@,
        "srgbClr"@ != "accent4"@,
        "srgbClr"@ != "accent5"@,
        "srgbClr"@ != "accent6"@,
        "srgbClr"@ != "hlink"@,
        "srgbClr"@ != "folHlink"@,
        "srgbClr"@ != "clrScheme"@,
        "sysClr"@ != "lt1"@,
        "sysClr"@ != "dk1"@,
        "sysClr"@ != "lt2"@,
        "sysClr"@ != "dk2"@,
        "sysClr"@ != "accent1"@,
        "sysClr"@ != "accent2"@,
        "sysClr"@ != "accent3"@,
        "sysClr"@ != "accent4"@,
        "sysClr"@ != "accent5"@,
        "sysClr"@ != "accent6"@,
        "sysClr"@ != "hlink"@,
        "sysClr"@ != "folHlink"@,
        "sysClr"@ != "clrScheme"@,
        "sysClr"@ != "srgbClr"@,
{
    reveal_strlit("dk1");
    reveal_strlit("lt1");
    reveal_strlit("lt2");
    reveal_strlit("dk2");
    reveal_strlit("accent1");
    reveal_strlit("accent2");
    reveal_strlit("accent3");
    reveal_strlit("accent4");
    reveal_strlit("accent5");
    reveal_strlit("accent6");
    reveal_strlit("hlink");
    reveal_strlit("folHlink");
    reveal_strlit("clrScheme");
    reveal_strlit("srgbClr");
    reveal_strlit("sysClr");
    assert("dk1"@.len() == 3
        && "lt1"@.len() == 3
        && "lt2"@.len() == 3
        && "dk2"@.len() == 3
        && "accent1"@.len() == 7
        && "accent2"@.len() == 7
        && "accent3"@.len() == 7
        && "accent4"@.len() == 7
        && "accent5"@.len() == 7
        && "accent6"@.len() == 7
        && "hlink"@.len() == 5
        && "folHlink"@.len() == 8
        && "clrScheme"@.len() == 9
        && "srgbClr"@.len() == 7
        && "sysClr"@.len() == 6);
    assert("dk1"@[0] != "lt1"@[0]
        && "lt2"@[2] != "lt1"@[2]
        && "lt2"@[0] != "dk1"@[0]
        && "dk2"@[0] != "lt1"@[0]
        && "dk2"@[2] != "dk1"@[2]
        && "dk2"@[0] != "lt2"@[0]
        && "accent2"@[6] != "accent1"@[6]
        && "accent3"@[6] != "accent1"@[6]
        && "accent3"@[6] != "accent2"@[6]
        && "accent4"@[6] != "accent1"@[6]
        && "accent4"@[6] != "accent2"@[6]
        && "accent4"@[6] != "accent3"@[6]
        && "accent5"@[6] != "accent1"@[6]
        && "accent5"@[6] != "accent2"@[6]
        && "accent5"@[6] != "accent3"@[6]
        && "accent5"@[6] != "accent4"@[6]
        && "accent6"@[6] != "accent1"@[6]
        && "accent6"@[6] != "accent2"@[6]
        && "accent6"@[6] != "accent3"@[6]
        && "accent6"@[6] != "accent4"@[6]
        && "accent6"@[6] != "accent5"@[6]
        && "srgbClr"@[0] != "accent1"@[0]
        && "srgbClr"@[0] != "accent2"@[0]
        && "srgbClr"@[0] != "accent3"@[0]
        && "srgbClr"@[0] != "accent4"@[0]
        && "srgbClr"@[0] != "accent5"@[0]
        && "srgbClr"@[0] != "accent6"@[0]);
}

/// The names of the slots, in the order in which cells refer to them.
pub open spec fn slot_names() -> Seq<Seq<char>> {
    seq![
        "lt1"@,
        "dk1"@,
        "lt2"@,
        "dk2"@,
        "accent1"@,
        "accent2"@,
        "accent3"@,
        "accent4"@,
        "accent5"@,
        "accent6"@,
        "hlink"@,
        "folHlink"@,
    ]
}

proof fn lemma_slot(i: int)
    requires
        0 <= i < 12,
    ensures
        slot_name(i) == slot_names()[i],
        slot_of(slot_names()[i]) == Some(i),
        slot_names()[i] != "clrScheme"@,
        slot_names()[i] != "srgbClr"@,
        slot_names()[i] != "sysClr"@,
{
    lemma_names();
    reveal_with_fuel(slot_from, 13);
}

/// Whether an element states a color: an RGB element its value, or a system color
/// element its last color.
pub open spec fn states_rgb(tag: TagView, value: Seq<char>) -> bool {
    ||| tag.name == "srgbClr"@ && xml::states(tag.attrs, "val"@, value)
    ||| tag.name == "sysClr"@ && xml::states(tag.attrs, "lastClr"@, value)
}

/// The element of each slot of the color scheme fills the place of that slot in the
/// palette, light before dark, with the color that its content states. A text that is
/// no color stands for white in the two light slots and for black in every other.
#[verifier::spinoff_prover]
#[verifier::rlimit(60)]
pub proof fn law_slots_are_filled(
    st: ThemeState,
    i: int,
    slot: TagView,
    color: TagView,
    empty: bool,
    value: Seq<char>,
    c: Rgb,
    upper: bool,
    path: Seq<char>,
)
    requires
        !st.done,
        st.in_clr_scheme,
        st.current_slot is None,
        st.slots.len() == 12,
        0 <= i < 12,
        slot.name == slot_names()[i],
        states_rgb(color, value),
        value == color::hex_pair(c.r, upper) + color::hex_pair(c.g, upper) + color::hex_pair(
            c.b,
            upper,
        ) || (value.len() != 6 && c == if i == 0 || i == 2 {
            Rgb { r: 255, g: 255, b: 255 }
        } else {
            Rgb { r: 0, g: 0, b: 0 }
        }),
    ensures
        part::state_after::<ThemeParser>(
            st,
            seq![EventView::Start(slot), xml::element(color, empty), EventView::End(slot.name)],
            path,
        ) == Ok::<ThemeState, ErrorView>(ThemeState { slots: st.slots.update(i, Some(c)), ..st }),
{
    let events = seq![
        EventView::Start(slot),
        xml::element(color, empty),
        EventView::End(slot.name),
    ];
    lemma_names();
    lemma_slot(i);
    color::law_hexadecimal_colors_read_back(c, 0, upper);
    xml::law_attributes_are_found_by_name(color.attrs, path, "val"@, value);
    xml::law_attributes_are_found_by_name(color.attrs, path, "lastClr"@, value);
    part::lemma_step_at::<ThemeParser>(st, events, path, 0);
    part::lemma_step_at::<ThemeParser>(st, events, path, 1);
    part::lemma_step_at::<ThemeParser>(st, events, path, 2);
    let open = ThemeState { current_slot: Some(i), ..st };
    assert(part::state_after::<ThemeParser>(st, events.take(1), path) == Ok::<
        ThemeState,
        ErrorView,
    >(open));
    assert(slot_color(slot_name(i), color, path) == Ok::<Rgb, ErrorView>(c));
    let filled = ThemeState { slots: st.slots.update(i, Some(c)), ..open };
    assert(theme_color(open, color, path) == Ok::<ThemeState, ErrorView>(filled));
    assert(part::state_after::<ThemeParser>(st, events.take(2), path) == Ok::<
        ThemeState,
        ErrorView,
    >(filled));
}

/// The color scheme opens with its own element and ends the reading with it; at the
/// beginning no slot is filled.
#[verifier::spinoff_prover]
#[verifier::rlimit(60)]
pub proof fn law_the_color_scheme_is_what_counts(st: ThemeState, tag: TagView, path: Seq<char>)
    requires
        !st.done,
        tag.name == "clrScheme"@,
    ensures
        part::state_after::<ThemeParser>(st, seq![EventView::Start(tag)], path) == Ok::<
            ThemeState,
            ErrorView,
        >(ThemeState { in_clr_scheme: true, ..st }),
        part::state_after::<ThemeParser>(st, seq![EventView::End("clrScheme"@)], path) == Ok::<
            ThemeState,
            ErrorView,
        >(ThemeState { done: true, ..st }),
        forall|i: int| 0 <= i < 12 ==> (#[trigger] no_theme().slots[i]) is None,
        !no_theme().in_clr_scheme && !no_theme().done && no_theme().current_slot is None,
{
    let open = seq![EventView::Start(tag)];
    let close = seq![EventView::End("clrScheme"@)];
    part::lemma_step_at::<ThemeParser>(st, open, path, 0);
    part::lemma_step_at::<ThemeParser>(st, close, path, 0);
    assert(open.take(1) =~= open && close.take(1) =~= close);
}

/// The palette of a theme has in each place the color that its slot was filled with, and
/// a theme with a slot that was not filled is an error.
pub proof fn law_palettes_have_the_colors_of_their_slots(
    events: Seq<EventView>,
    path: Seq<char>,
    st: ThemeState,
    i: int,
)
    requires
        part::state_after::<ThemeParser>(no_theme(), events, path) == Ok::<ThemeState, ErrorView>(
            st,
        ),
        0 <= i < 12,
    ensures
        st.slots[i] is None ==> theme_of(events, path) == Err::<ThemePalette, ErrorView>(
            ErrorView::MissingRequiredElement { path, name: "clrScheme"@ },
        ),
        theme_of(events, path) matches Ok(p) ==> st.slots[i] == Some(p.0@[i]),
{
    let s = st.slots;
    if theme_of(events, path) is Ok {
        let palette = ThemePalette(
            [
                s[0]->0,
                s[1]->0,
                s[2]->0,
                s[3]->0,
                s[4]->0,
                s[5]->0,
                s[6]->0,
                s[7]->0,
                s[8]->0,
                s[9]->0,
                s[10]->0,
                s[11]->0,
            ],
        );
        assert(is_palette(s, palette)) by {
            assert forall|k: int| 0 <= k < 12 implies #[trigger] s[k] == Some(palette.0@[k]) by {
                assert(s[k] is Some);
                if k == 0 {} else if k == 1 {} else if k == 2 {} else if k == 3 {} else if k == 4 {
                } else if k == 5 {} else if k == 6 {} else if k == 7 {} else if k == 8 {} else if k
                    == 9 {} else if k == 10 {} else {}
            }
        }
        let chosen = palette_of(s);
        assert(is_palette(s, chosen));
    }
}

fn slot_at(slots: &Vec<Option<Rgb>>, i: usize) -> (c: Rgb)
    requires
        i < slots@.len(),
    ensures
        slots@[i as int] matches Some(v) ==> c == v,
{
    match slots[i] {
        Some(c) => c,
        None => Rgb { r: 0, g: 0, b: 0 },
    }
}

/// How many bytes of a theme part its color scheme, and what comes before it, take.
pub open spec fn theme_bytes(part: PartView, path: Seq<char>) -> u64 {
    part::bytes_needed::<ThemeParser>(no_theme(), part, path)
}

/// Reads the theme part.
pub fn parse_theme(part: &PartData, path: &str) -> (r: Result<ThemePalette, Error>)
    ensures
        error::plain_result(r) == theme_of(xml::part_events(part@), path@),
{
    match parse_theme_counted(part, path) {
        Ok(read) => Ok(read.0),
        Err(e) => Err(e),
    }
}

/// Reads the theme part, and counts how many of its bytes that took.
pub fn parse_theme_counted(part: &PartData, path: &str) -> (r: Result<(ThemePalette, u64), Error>)
    ensures
        match theme_of(xml::part_events(part@), path@) {
            Ok(t) => r == Ok::<(ThemePalette, u64), Error>((t, theme_bytes(part@, path@))),
            Err(f) => r matches Err(e) && e@ == f,
        },
{
    let (p, count): (ThemeParser, u64) = match part::read_part_counted(
        ThemeParser::new(),
        part,
        path,
    ) {
        Ok(p) => p,
        Err(e) => {
            return Err(e);
        },
    };
    let mut i: usize = 0;
    while i < 12
        invariant
            i <= 12,
            p.inv(),
            p.slots@.len() == 12,
            part::state_after::<ThemeParser>(
                no_theme(),
                xml::part_events(part@),
                path@,
            ) == Ok::<ThemeState, ErrorView>(p@),
            forall|k: int| 0 <= k < i ==> #[trigger] p.slots@[k] is Some,
        decreases 12 - i,
    {
        if p.slots[i].is_none() {
            assert(p@.slots[i as int] is None);
            return Err(Error::MissingRequiredElement { path: path.to_owned(), name: "clrScheme" });
        }
        i += 1;
    }
    let s: &Vec<Option<Rgb>> = &p.slots;
    let palette = ThemePalette(
        [
            slot_at(s, 0),
            slot_at(s, 1),
            slot_at(s, 2),
            slot_at(s, 3),
            slot_at(s, 4),
            slot_at(s, 5),
            slot_at(s, 6),
            slot_at(s, 7),
            slot_at(s, 8),
            slot_at(s, 9),
            slot_at(s, 10),
            slot_at(s, 11),
        ],
    );
    assert(is_palette(p@.slots, palette)) by {
        assert forall|k: int| 0 <= k < 12 implies #[trigger] p@.slots[k] == Some(
            palette.0@[k],
        ) by {
            assert(p.slots@[k] is Some);
            if k == 0 {} else if k == 1 {} else if k == 2 {} else if k == 3 {} else if k == 4 {
            } else if k == 5 {} else if k == 6 {} else if k == 7 {} else if k == 8 {} else if k
                == 9 {} else if k == 10 {} else {}
        }
    }
    proof {
        let q = palette_of(p@.slots);
        assert(is_palette(p@.slots, q));
        assert forall|k: int| 0 <= k < 12 implies #[trigger] palette.0@[k] == q.0@[k] by {
            assert(p@.slots[k] == Some(palette.0@[k]));
            assert(p@.slots[k] == Some(q.0@[k]));
        }
        assert(palette.0@ =~= q.0@);
        assert(palette.0 =~= q.0);
    }
    Ok((palette, count))
}

} // verus!
