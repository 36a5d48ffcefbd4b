//! The shared string table.
use crate::container::data::PartData;
use crate::error;
use crate::error::{Error, ErrorView};
use crate::parse::part;
use crate::parse::part::PartParser;
use crate::parse::rich_text;
use crate::parse::rich_text::{RichText, RichView};
use crate::parse::xml;
use crate::parse::xml::{EventView, TagView, XmlEvent};
use crate::text;
use std::sync::Arc;
use vstd::prelude::*;

verus! {

/// The strings that cells refer to by index.
#[derive(Debug, Clone)]
pub struct SharedStringTable {
    strings: Vec<Arc<String>>,
}

/// The character sequences of a list of shared strings.
pub open spec fn shared_views(v: Seq<Arc<String>>) -> Seq<Seq<char>> {
    v.map_values(|s: Arc<String>| s@)
}

impl View for SharedStringTable {
    type V = Seq<Seq<char>>;

    closed spec fn view(&self) -> Seq<Seq<char>> {
        shared_views(self.strings@)
    }
}

impl SharedStringTable {
    /// The string at an index.
    pub fn get(&self, index: usize) -> (r: Option<&Arc<String>>)
        ensures
            match r {
                Some(s) => index < self@.len() && s@ == self@[index as int],
                None => index >= self@.len(),
            },
    {
        if index < self.strings.len() {
            Some(&self.strings[index])
        } else {
            None
        }
    }

    /// How many strings there are.
    pub fn len(&self) -> (n: usize)
        ensures
            n == self@.len(),
    {
        self.strings.len()
    }
}

impl Default for SharedStringTable {
    fn default() -> (t: SharedStringTable)
        ensures
            t@ == Seq::<Seq<char>>::empty(),
    {
        let t = SharedStringTable { strings: Vec::new() };
        assert(t@ =~= Seq::<Seq<char>>::empty());
        t
    }
}

/// The table being read.
pub struct SharedStringParser {
    strings: Vec<Arc<String>>,
    /// The string item that is open.
    rich: Option<RichText>,
}

/// The state of reading the table.
#[verifier::ext_equal]
pub struct SharedState {
    pub strings: Seq<Seq<char>>,
    pub rich: Option<RichView>,
}

impl View for SharedStringParser {
    type V = SharedState;

    closed spec fn view(&self) -> SharedState {
        SharedState {
            strings: shared_views(self.strings@),
            rich: match self.rich {
                Some(r) => Some(r@),
                None => None,
            },
        }
    }
}

/// The state after one more event: string items are gathered until they end, and
/// an empty one is an empty string.
pub open spec fn shared_step(st: SharedState, ev: EventView, path: Seq<char>) -> Result<
    SharedState,
    ErrorView,
> {
    match st.rich {
        Some(rich) => match rich_text::rich_step(rich, ev, path) {
            Err(e) => Err(e),
            Ok(next) => if rich_text::ends_rich_text(ev) {
                Ok(
                    SharedState {
                        strings: st.strings.push(rich_text::restored(next.text)),
                        rich: None,
                    },
                )
            } else {
                Ok(SharedState { rich: Some(next), ..st })
            },
        },
        None => match ev {
            EventView::Start(tag) => if tag.name == "si"@ {
                Ok(SharedState { rich: Some(rich_text::no_rich_text()), ..st })
            } else {
                Ok(st)
            },
            EventView::Empty(tag) => if tag.name == "si"@ {
                Ok(SharedState { strings: st.strings.push(Seq::empty()), ..st })
            } else {
                Ok(st)
            },
            _ => Ok(st),
        },
    }
}

impl SharedStringParser {
    /// Before the first event.
    pub fn new() -> (p: SharedStringParser)
        ensures
            p@ == (SharedState { strings: Seq::empty(), rich: None }),
            p.inv(),
    {
        let p = SharedStringParser { strings: Vec::new(), rich: None };
        assert(p@.strings =~= Seq::<Seq<char>>::empty());
        p
    }
}

impl PartParser for SharedStringParser {
    closed spec fn inv(&self) -> bool {
        self.rich matches Some(r) ==> r.inv()
    }

    open spec fn finished(state: SharedState) -> bool {
        false
    }

    open spec fn advance(state: SharedState, ev: EventView, path: Seq<char>) -> Result<
        SharedState,
        ErrorView,
    > {
        shared_step(state, ev, path)
    }

    fn is_finished(&self) -> (r: bool) {
        false
    }

    fn step(&mut self, ev: &XmlEvent, path: &str) -> (r: Result<(), Error>) {
        match self.rich.take() {
            Some(mut rich) => {
                match rich.step(ev, path) {
                    Ok(()) => {},
                    Err(e) => {
                        return Err(e);
                    },
                }
                if rich_text::is_rich_end(ev) {
                    let s: Arc<String> = Arc::new(rich.to_text());
                    self.strings.push(s);
                    assert(self@.strings =~= old(self)@.strings.push(s@));
                } else {
                    self.rich = Some(rich);
                }
                Ok(())
            },
            None => {
                match ev {
                    XmlEvent::Start(tag) => {
                        if text::same(tag.name.as_str(), "si") {
                            self.rich = Some(RichText::new());
                        }
                    },
                    XmlEvent::Empty(tag) => {
                        if text::same(tag.name.as_str(), "si") {
                            let s: Arc<String> = Arc::new(String::new());
                            assert(s@ =~= Seq::<char>::empty());
                            self.strings.push(s);
                            assert(self@.strings =~= old(self)@.strings.push(Seq::empty()));
                        }
                    },
                    _ => {},
                }
                Ok(())
            },
        }
    }
}

/// The strings that a shared string part holds.
pub open spec fn shared_strings_of(events: Seq<EventView>, path: Seq<char>) -> Result<
    Seq<Seq<char>>,
    ErrorView,
> {
    match part::state_after::<SharedStringParser>(
        SharedState { strings: Seq::empty(), rich: None },
        events,
        path,
    ) {
        Ok(s) => Ok(s.strings),
        Err(e) => Err(e),
    }
}

/// Whether every string item that was opened has been closed.
pub open spec fn between_items(events: Seq<EventView>) -> bool {
    forall|j: int|
        0 <= j < events.len() && (#[trigger] events[j] matches EventView::Start(tag) && tag.name
            == "si"@) ==> exists|k: int|
            j < k < events.len() && #[trigger] events[k] == EventView::End("si"@)
}

/// The state of reading a shared string part.
spec fn reading(events: Seq<EventView>, path: Seq<char>) -> Result<SharedState, ErrorView> {
    part::state_after::<SharedStringParser>(
        SharedState { strings: Seq::empty(), rich: None },
        events,
        path,
    )
}

proof fn lemma_open_item(events: Seq<EventView>, path: Seq<char>)
    ensures
        reading(events, path) matches Ok(st) ==> (st.rich is Some ==> exists|j: int|
            #![trigger events[j]]
            0 <= j < events.len() && (events[j] matches EventView::Start(tag) && tag.name == "si"@)
                && (forall|k: int|
                j < k < events.len() ==> #[trigger] events[k] != EventView::End("si"@))),
    decreases events.len(),
{
    if events.len() > 0 {
        let front = events.drop_last();
        lemma_open_item(front, path);
        if reading(events, path) is Ok && reading(events, path)->Ok_0.rich is Some {
            let before = reading(front, path)->Ok_0;
            assert(shared_step(before, events.last(), path) == reading(events, path));
            let last = events.len() - 1;
            if before.rich is Some {
                let j = choose|j: int|
                    #![trigger front[j]]
                    0 <= j < front.len() && (front[j] matches EventView::Start(tag) && tag.name
                        == "si"@) && (forall|k: int|
                        j < k < front.len() ==> #[trigger] front[k] != EventView::End("si"@));
                assert(events[j] == front[j]);
                assert forall|k: int| j < k < events.len() implies #[trigger] events[k]
                    != EventView::End("si"@) by {
                    if k < front.len() {
                        assert(events[k] == front[k]);
                    } else {
                        assert(events[k] == events.last());
                    }
                }
            } else {
                assert(events[last] == events.last());
            }
        }
    }
}

proof fn lemma_between_items(events: Seq<EventView>, path: Seq<char>)
    requires
        between_items(events),
    ensures
        reading(events, path) matches Ok(st) ==> st.rich is None,
{
    lemma_open_item(events, path);
}

proof fn lemma_item_gathers(
    strings: Seq<Seq<char>>,
    rich: RichView,
    inside: Seq<EventView>,
    path: Seq<char>,
)
    requires
        forall|i: int|
            0 <= i < inside.len() ==> !rich_text::ends_rich_text(#[trigger] inside[i]) && !(
            inside[i] is DocType) && !(inside[i] is Failure) && !(inside[i] is OverCap),
        rich_text::gathered(rich, inside, path) is Ok,
    ensures
        part::state_after::<SharedStringParser>(
            SharedState { strings, rich: Some(rich) },
            inside,
            path,
        ) == Ok::<SharedState, ErrorView>(
            SharedState { strings, rich: Some(rich_text::gathered(rich, inside, path)->Ok_0) },
        ),
    decreases inside.len(),
{
    if inside.len() > 0 {
        let front = inside.drop_last();
        assert forall|i: int| 0 <= i < front.len() implies !rich_text::ends_rich_text(
            #[trigger] front[i],
        ) && !(front[i] is DocType) && !(front[i] is Failure) && !(front[i] is OverCap) by {
            assert(front[i] == inside[i]);
        }
        assert(inside[inside.len() - 1] == inside.last());
        lemma_item_gathers(strings, rich, front, path);
    }
}

/// Every string item adds one string behind those that came before it: the text that
/// its runs add up to, with carriage returns restored. An empty one adds an empty
/// string.
#[verifier::spinoff_prover]
#[verifier::rlimit(60)]
pub proof fn law_string_items_are_read(
    events: Seq<EventView>,
    tag: TagView,
    inside: Seq<EventView>,
    t: Seq<char>,
    path: Seq<char>,
)
    requires
        between_items(events),
        tag.name == "si"@,
        rich_text::adds_text(inside, t),
    ensures
        shared_strings_of(events, path) matches Ok(v) ==> {
            &&& shared_strings_of(
                events + (seq![EventView::Start(tag)] + inside + seq![EventView::End("si"@)]),
                path,
            ) == Ok::<Seq<Seq<char>>, ErrorView>(v.push(rich_text::restored(t)))
            &&& shared_strings_of(events.push(EventView::Empty(tag)), path) == Ok::<
                Seq<Seq<char>>,
                ErrorView,
            >(v.push(Seq::empty()))
        },
{
    let start = SharedState { strings: Seq::empty(), rich: None };
    let open = seq![EventView::Start(tag)];
    let close = seq![EventView::End("si"@)];
    lemma_between_items(events, path);
    part::lemma_continued::<SharedStringParser>(start, events, open + inside + close, path);
    part::lemma_one_more::<SharedStringParser>(start, events, EventView::Empty(tag), path);
    if let Ok(st) = reading(events, path) {
        let item = rich_text::no_rich_text();
        let opened = SharedState { rich: Some(item), ..st };
        part::lemma_continued::<SharedStringParser>(st, open + inside, close, path);
        part::lemma_continued::<SharedStringParser>(st, open, inside, path);
        part::lemma_step_at::<SharedStringParser>(st, open, path, 0);
        assert(part::state_after::<SharedStringParser>(st, open, path) == Ok::<
            SharedState,
            ErrorView,
        >(opened));
        assert(rich_text::is_between(item));
        assert(rich_text::gathered(item, inside, path) is Ok);
        lemma_item_gathers(st.strings, item, inside, path);
        let full = rich_text::gathered(item, inside, path)->Ok_0;
        assert(full.text =~= t);
        let done = SharedState { rich: Some(full), ..st };
        part::lemma_step_at::<SharedStringParser>(done, close, path, 0);
        assert(close.take(1) =~= close);
    }
}

/// Nothing but a string item adds a string, and none that was there changes.
pub proof fn law_only_string_items_add_strings(
    events: Seq<EventView>,
    ev: EventView,
    path: Seq<char>,
)
    ensures
        shared_strings_of(events.push(ev), path) matches Ok(v) ==> {
            &&& shared_strings_of(events, path) matches Ok(w) && w.is_prefix_of(v) && v.len()
                <= w.len() + 1
            &&& !rich_text::ends_rich_text(ev) && !(ev matches EventView::Empty(tag) && tag.name
                == "si"@) ==> shared_strings_of(events, path) == Ok::<Seq<Seq<char>>, ErrorView>(v)
        },
{
    part::lemma_one_more::<SharedStringParser>(
        SharedState { strings: Seq::empty(), rich: None },
        events,
        ev,
        path,
    );
}

/// Reads a shared string part.
pub fn parse_shared_strings(part: &PartData, path: &str) -> (r: Result<SharedStringTable, Error>)
    ensures
        error::result_view(r) == shared_strings_of(xml::part_events(part@), path@),
{
    match part::read_part(SharedStringParser::new(), part, path) {
        Ok(p) => Ok(SharedStringTable { strings: p.strings }),
        Err(e) => Err(e),
    }
}

} // verus!
