//! Text content: rich text runs and leaf elements.
use crate::error::{Error, ErrorView};
use crate::parse::xml;
use crate::parse::xml::{EventView, TagView, XmlEvent, XmlSource};
use crate::text;
use vstd::prelude::*;

verus! {

/// `s` with every line break written as a single line feed.
pub open spec fn normalized(s: Seq<char>) -> Seq<char>
    decreases s.len(),
{
    if s.len() == 0 {
        s
    } else if s[0] == '\r' {
        seq!['\n'] + normalized(
            if s.len() > 1 && s[1] == '\n' {
                s.skip(2)
            } else {
                s.skip(1)
            },
        )
    } else {
        seq![s[0]] + normalized(s.skip(1))
    }
}

/// Line breaks come out as line feeds: no carriage return is left.
pub proof fn law_normalized_text_has_no_carriage_return(s: Seq<char>)
    ensures
        !normalized(s).contains('\r'),
    decreases s.len(),
{
    if s.len() > 0 {
        let rest = if s[0] == '\r' && s.len() > 1 && s[1] == '\n' {
            s.skip(2)
        } else {
            s.skip(1)
        };
        law_normalized_text_has_no_carriage_return(rest);
        let head = if s[0] == '\r' {
            '\n'
        } else {
            s[0]
        };
        assert(normalized(s) =~= seq![head] + normalized(rest));
        assert forall|i: int| 0 <= i < normalized(s).len() implies normalized(s)[i] != '\r' by {
            if i > 0 {
                assert(normalized(s)[i] == normalized(rest)[i - 1]);
                assert(normalized(rest).contains(normalized(rest)[i - 1]));
            }
        }
    }
}

/// A text without carriage returns stays as it is.
pub proof fn law_normalizing_keeps_other_text(s: Seq<char>)
    requires
        !s.contains('\r'),
    ensures
        normalized(s) == s,
    decreases s.len(),
{
    if s.len() > 0 {
        assert(s.contains(s[0]));
        assert forall|i: int| 0 <= i < s.skip(1).len() implies s.skip(1)[i] != '\r' by {
            assert(s.contains(s[i + 1]));
        }
        law_normalizing_keeps_other_text(s.skip(1));
        assert(seq![s[0]] + s.skip(1) =~= s);
    }
}

/// Appends `s` with its line breaks normalized.
pub fn push_normalized(out: &mut Vec<char>, s: &str)
    ensures
        final(out)@ == old(out)@ + normalized(s@),
{
    let chars: Vec<char> = text::to_chars(s);
    let mut i: usize = 0;
    assert(chars@.skip(0) =~= chars@);
    while i < chars.len()
        invariant
            i <= chars@.len(),
            chars@ == s@,
            chars@.len() == chars.len(),
            out@ + normalized(chars@.skip(i as int)) == old(out)@ + normalized(s@),
        decreases chars@.len() - i,
    {
        let ghost rest = chars@.skip(i as int);
        let ghost before = out@;
        let c: char = chars[i];
        if c == '\r' {
            out.push('\n');
            if i + 1 < chars.len() && chars[i + 1] == '\n' {
                assert(rest.skip(2) =~= chars@.skip(i + 2));
                i += 2;
            } else {
                assert(rest.skip(1) =~= chars@.skip(i + 1));
                i += 1;
            }
            assert(out@ + normalized(chars@.skip(i as int)) =~= before + (seq!['\n'] + normalized(
                chars@.skip(i as int),
            )));
        } else {
            out.push(c);
            assert(rest.skip(1) =~= chars@.skip(i + 1));
            i += 1;
            assert(out@ + normalized(chars@.skip(i as int)) =~= before + (seq![c] + normalized(
                chars@.skip(i as int),
            )));
        }
    }
    assert(normalized(chars@.skip(i as int)) =~= Seq::<char>::empty());
    assert(out@ =~= out@ + normalized(chars@.skip(i as int)));
}

/// A text with its line breaks normalized.
pub fn normalize_line_endings(s: &str) -> (r: String)
    ensures
        r@ == normalized(s@),
{
    let mut out: Vec<char> = Vec::new();
    push_normalized(&mut out, s);
    assert(out@ =~= normalized(s@));
    let r: String = text::from_chars(&out, 0, out.len());
    assert(r@ =~= out@);
    r
}

/// `s` with its last part, from `start` on, trimmed.
pub open spec fn tail_trimmed(s: Seq<char>, start: int) -> Seq<char> {
    s.take(start) + text::trim(s.skip(start))
}

/// Trims `out[start..]` in place.
pub fn trim_tail_in_place(out: &mut Vec<char>, start: usize)
    requires
        start <= old(out)@.len(),
    ensures
        final(out)@ == tail_trimmed(old(out)@, start as int),
{
    let (lo, hi) = text::trim_bounds(out, start);
    let ghost all = out@;
    let mut i: usize = start;
    let mut k: usize = lo;
    while k < hi
        invariant
            start <= lo <= k <= hi <= all.len(),
            out@.len() == all.len(),
            i == start + (k - lo),
            out@.subrange(0, start as int) == all.take(start as int),
            out@.subrange(start as int, i as int) == all.subrange(lo as int, k as int),
            forall|q: int| k <= q < all.len() ==> out@[q] == all[q],
        decreases hi - k,
    {
        let c: char = out[k];
        let ghost before = out@;
        out.set(i, c);
        assert(out@.subrange(0, start as int) =~= before.subrange(0, start as int));
        assert(out@.subrange(start as int, i + 1) =~= before.subrange(start as int, i as int).push(
            c,
        ));
        i += 1;
        k += 1;
        assert(all.subrange(lo as int, k as int) =~= all.subrange(lo as int, k - 1).push(c));
    }
    out.truncate(i);
    assert(out@ =~= tail_trimmed(all, start as int));
}

/// The mark that stands for a carriage return.
pub open spec fn cr_mark() -> Seq<char> {
    seq!['_', 'x', '0', '0', '0', 'D', '_']
}

/// `s` with every mark for a carriage return replaced, from left to right.
pub open spec fn restored(s: Seq<char>) -> Seq<char>
    decreases s.len(),
{
    if s.len() == 0 {
        s
    } else if s.len() >= 7 && s.take(7) == cr_mark() {
        seq!['\r'] + restored(s.skip(7))
    } else {
        seq![s[0]] + restored(s.skip(1))
    }
}

fn mark_at(chars: &Vec<char>, i: usize) -> (r: bool)
    requires
        i <= chars@.len(),
    ensures
        r == (chars@.len() - i >= 7 && chars@.skip(i as int).take(7) == cr_mark()),
{
    let ghost t = chars@.skip(i as int).take(7);
    if chars.len() - i >= 7 && chars[i] == '_' && chars[i + 1] == 'x' && chars[i + 2] == '0'
        && chars[i + 3] == '0' && chars[i + 4] == '0' && chars[i + 5] == 'D' && chars[i + 6]
        == '_' {
        assert(t =~= cr_mark());
        true
    } else {
        proof {
            if chars@.len() - i >= 7 && t == cr_mark() {
                assert(t[0] == chars@[i as int] && t[1] == chars@[i + 1] && t[2] == chars@[i + 2]
                    && t[3] == chars@[i + 3] && t[4] == chars@[i + 4] && t[5] == chars@[i + 5]
                    && t[6] == chars@[i + 6]);
                assert(cr_mark()[0] == '_' && cr_mark()[1] == 'x' && cr_mark()[2] == '0'
                    && cr_mark()[3] == '0' && cr_mark()[4] == '0' && cr_mark()[5] == 'D'
                    && cr_mark()[6] == '_');
            }
        }
        false
    }
}

/// Replaces every mark for a carriage return.
pub fn restore_carriage_returns(chars: &Vec<char>) -> (r: String)
    ensures
        r@ == restored(chars@),
{
    let mut out: String = String::new();
    let mut i: usize = 0;
    assert(chars@.skip(0) =~= chars@);
    assert(out@ + restored(chars@) =~= restored(chars@));
    while i < chars.len()
        invariant
            i <= chars@.len(),
            chars@.len() == chars.len(),
            out@ + restored(chars@.skip(i as int)) == restored(chars@),
        decreases chars@.len() - i,
    {
        let ghost rest = chars@.skip(i as int);
        let ghost before = out@;
        if mark_at(chars, i) {
            out.push('\r');
            assert(rest.skip(7) =~= chars@.skip(i + 7));
            i += 7;
            assert(out@ + restored(chars@.skip(i as int)) =~= before + (seq!['\r'] + restored(
                chars@.skip(i as int),
            )));
        } else {
            let c: char = chars[i];
            out.push(c);
            assert(rest.skip(1) =~= chars@.skip(i + 1));
            i += 1;
            assert(out@ + restored(chars@.skip(i as int)) =~= before + (seq![c] + restored(
                chars@.skip(i as int),
            )));
        }
    }
    assert(restored(chars@.skip(i as int)) =~= Seq::<char>::empty());
    assert(out@ =~= out@ + restored(chars@.skip(i as int)));
    out
}

/// Rich text being gathered from the runs of a string item.
#[derive(Debug, Clone, PartialEq, Eq)]
pub struct RichText {
    text: Vec<char>,
    /// How many formatting or phonetic elements are open.
    skip_depth: u64,
    /// Where the text of the open `t` element begins.
    t_start: Option<usize>,
    /// Whether the open `t` element keeps its white space.
    t_preserve: bool,
}

/// Rich text as contracts speak of it.
#[verifier::ext_equal]
pub struct RichView {
    pub text: Seq<char>,
    pub skip_depth: u64,
    pub t_start: Option<int>,
    pub t_preserve: bool,
}

impl View for RichText {
    type V = RichView;

    closed spec fn view(&self) -> RichView {
        RichView {
            text: self.text@,
            skip_depth: self.skip_depth,
            t_start: match self.t_start {
                Some(i) => Some(i as int),
                None => None,
            },
            t_preserve: self.t_preserve,
        }
    }
}

/// Rich text before its first event.
pub open spec fn no_rich_text() -> RichView {
    RichView { text: Seq::empty(), skip_depth: 0, t_start: None, t_preserve: false }
}

/// Whether an event ends a string item.
pub open spec fn ends_rich_text(ev: EventView) -> bool {
    ev matches EventView::End(n) && (n == "si"@ || n == "is"@)
}

/// Whether an element's content is no text of the run.
pub open spec fn is_aside(name: Seq<char>) -> bool {
    name == "rPr"@ || name == "rPh"@
}

/// Rich text after one more event. Only what stands in a `t` element outside
/// formatting and phonetic elements counts; it is trimmed unless the element
/// says `xml:space="preserve"`.
pub open spec fn rich_step(st: RichView, ev: EventView, path: Seq<char>) -> Result<
    RichView,
    ErrorView,
> {
    let open = st.skip_depth == 0 && st.t_start is Some;
    match ev {
        EventView::Start(tag) => if is_aside(tag.name) {
            Ok(
                RichView {
                    skip_depth: if st.skip_depth == u64::MAX {
                        u64::MAX
                    } else {
                        (st.skip_depth + 1) as u64
                    },
                    ..st
                },
            )
        } else if st.skip_depth == 0 && tag.name == "t"@ {
            match xml::attr_value(tag.attrs, path, "xml:space"@) {
                Ok(v) => Ok(
                    RichView {
                        t_preserve: v == Some("preserve"@),
                        t_start: Some(st.text.len() as int),
                        ..st
                    },
                ),
                Err(e) => Err(e),
            }
        } else {
            Ok(st)
        },
        EventView::End(name) => if is_aside(name) {
            Ok(
                RichView {
                    skip_depth: if st.skip_depth == 0 {
                        0
                    } else {
                        (st.skip_depth - 1) as u64
                    },
                    ..st
                },
            )
        } else if st.skip_depth == 0 && name == "t"@ {
            match st.t_start {
                Some(start) => Ok(
                    RichView {
                        text: if st.t_preserve {
                            st.text
                        } else {
                            tail_trimmed(st.text, start)
                        },
                        t_start: None,
                        ..st
                    },
                ),
                None => Ok(st),
            }
        } else {
            Ok(st)
        },
        EventView::Text(t) | EventView::CData(t) => if open {
            match t {
                Some(s) => Ok(RichView { text: st.text + normalized(s), ..st }),
                None => Err(ErrorView::XmlParse { path }),
            }
        } else {
            Ok(st)
        },
        EventView::Ref(r) => if open {
            match xml::reference_text(r) {
                Some(s) => Ok(RichView { text: st.text + s, ..st }),
                None => Err(ErrorView::XmlParse { path }),
            }
        } else {
            Ok(st)
        },
        EventView::Eof => Err(
            ErrorView::MissingRequiredElement { path, name: "si/is closing tag"@ },
        ),
        _ => Ok(st),
    }
}

/// Whether an event ends a string item.
pub fn is_rich_end(ev: &XmlEvent) -> (r: bool)
    ensures
        r == ends_rich_text(ev@),
{
    match ev {
        XmlEvent::End(n) => text::same(n.as_str(), "si") || text::same(n.as_str(), "is"),
        _ => false,
    }
}

impl RichText {
    /// What holds of rich text at every point.
    pub closed spec fn inv(&self) -> bool {
        self.t_start matches Some(i) ==> i <= self.text@.len()
    }

    /// Rich text before its first event.
    pub fn new() -> (r: RichText)
        ensures
            r@ == no_rich_text(),
            r.inv(),
    {
        let r = RichText { text: Vec::new(), skip_depth: 0, t_start: None, t_preserve: false };
        assert(r@.text =~= Seq::<char>::empty());
        r
    }

    /// Takes one more event.
    pub fn step(&mut self, ev: &XmlEvent, path: &str) -> (r: Result<(), Error>)
        requires
            old(self).inv(),
        ensures
            match rich_step(old(self)@, ev@, path@) {
                Ok(s) => r is Ok && final(self)@ == s && final(self).inv(),
                Err(f) => r matches Err(e) && e@ == f,
            },
    {
        let open: bool = self.skip_depth == 0 && self.t_start.is_some();
        match ev {
            XmlEvent::Start(tag) => {
                let name: &str = tag.name.as_str();
                if text::same(name, "rPr") || text::same(name, "rPh") {
                    if self.skip_depth < u64::MAX {
                        self.skip_depth = self.skip_depth + 1;
                    }
                } else if self.skip_depth == 0 && text::same(name, "t") {
                    match xml::optional_attr(tag, path, "xml:space") {
                        Ok(v) => {
                            self.t_preserve = text::is_some_text(&v, "preserve");
                            self.t_start = Some(self.text.len());
                        },
                        Err(e) => {
                            return Err(e);
                        },
                    }
                }
                Ok(())
            },
            XmlEvent::End(name) => {
                if text::same(name.as_str(), "rPr") || text::same(name.as_str(), "rPh") {
                    if self.skip_depth > 0 {
                        self.skip_depth = self.skip_depth - 1;
                    }
                } else if self.skip_depth == 0 && text::same(name.as_str(), "t") {
                    match self.t_start {
                        Some(start) => {
                            if !self.t_preserve {
                                trim_tail_in_place(&mut self.text, start);
                            }
                            self.t_start = None;
                        },
                        None => {},
                    }
                }
                Ok(())
            },
            XmlEvent::Text(t) => {
                if open {
                    match t {
                        Some(s) => {
                            push_normalized(&mut self.text, s.as_str());
                        },
                        None => {
                            return Err(Error::XmlParse { path: path.to_owned() });
                        },
                    }
                }
                Ok(())
            },
            XmlEvent::CData(t) => {
                if open {
                    match t {
                        Some(s) => {
                            push_normalized(&mut self.text, s.as_str());
                        },
                        None => {
                            return Err(Error::XmlParse { path: path.to_owned() });
                        },
                    }
                }
                Ok(())
            },
            XmlEvent::Ref(r) => {
                if open {
                    let mut piece: String = String::new();
                    match xml::push_general_ref(&mut piece, r, path) {
                        Ok(()) => {},
                        Err(e) => {
                            return Err(e);
                        },
                    }
                    let mut chars: Vec<char> = text::to_chars(piece.as_str());
                    let ghost before = self.text@;
                    assert(piece@ =~= xml::reference_text(r@)->0);
                    let ghost tail = chars@;
                    self.text.append(&mut chars);
                    assert(self.text@ =~= before + tail);
                }
                Ok(())
            },
            XmlEvent::Eof => Err(
                Error::MissingRequiredElement { path: path.to_owned(), name: "si/is closing tag" },
            ),
            _ => Ok(()),
        }
    }

    /// The text gathered so far, with carriage returns restored.
    pub fn to_text(&self) -> (r: String)
        ensures
            r@ == restored(self@.text),
    {
        restore_carriage_returns(&self.text)
    }
}

/// The text of a string item whose opening tag has just been read, and the
/// events that follow its closing tag.
pub open spec fn rich_text_of(events: Seq<EventView>, st: RichView, path: Seq<char>) -> Result<
    (Seq<char>, Seq<EventView>),
    ErrorView,
>
    decreases events.len(),
{
    if events.len() == 0 {
        Err(ErrorView::XmlParse { path })
    } else {
        match xml::event_fault(events[0], path) {
            Some(e) => Err(e),
            None => match rich_step(st, events[0], path) {
                Err(e) => Err(e),
                Ok(next) => if ends_rich_text(events[0]) {
                    Ok((restored(next.text), events.skip(1)))
                } else {
                    rich_text_of(events.skip(1), next, path)
                },
            },
        }
    }
}

/// Reads the text of a string item whose opening tag has just been read, up to
/// its closing tag.
pub fn concat_rich_text(source: &mut XmlSource<'_>, path: &str) -> (r: Result<String, Error>)
    requires
        xml::terminated(old(source).pending()),
    ensures
        match rich_text_of(old(source).pending(), no_rich_text(), path@) {
            Ok((t, rest)) => r matches Ok(s) && s@ == t && final(source).pending() == rest,
            Err(f) => r matches Err(e) && e@ == f,
        },
{
    let mut rich: RichText = RichText::new();
    loop
        invariant
            rich.inv(),
            xml::terminated(source.pending()),
            rich_text_of(source.pending(), rich@, path@) == rich_text_of(
                old(source).pending(),
                no_rich_text(),
                path@,
            ),
        decreases source.pending().len(),
    {
        let ghost before = source.pending();
        let ev: XmlEvent = source.next();
        match xml::check_event(&ev, path) {
            Ok(()) => {},
            Err(e) => {
                return Err(e);
            },
        }
        match rich.step(&ev, path) {
            Ok(()) => {},
            Err(e) => {
                return Err(e);
            },
        }
        if is_rich_end(&ev) {
            return Ok(rich.to_text());
        }
        proof {
            assert(!xml::is_last(ev@));
            assert(source.pending() == before.skip(1));
            assert(source.pending().last() == before.last());
            assert forall|i: int| 0 <= i < source.pending().len() - 1 implies !xml::is_last(
                #[trigger] source.pending()[i],
            ) by {
                assert(source.pending()[i] == before[i + 1]);
            }
        }
    }
}

/// The text of a leaf element after one more event: plain text and references
/// count, anything else does not.
pub open spec fn leaf_step(leaf: Seq<char>, ev: EventView, path: Seq<char>) -> Result<
    Seq<char>,
    ErrorView,
> {
    match ev {
        EventView::Text(t) => match t {
            Some(s) => Ok(leaf + s),
            None => Err(ErrorView::XmlParse { path }),
        },
        EventView::Ref(r) => match xml::reference_text(r) {
            Some(s) => Ok(leaf + s),
            None => Err(ErrorView::XmlParse { path }),
        },
        EventView::Eof => Err(ErrorView::MissingRequiredElement { path, name: "closing tag"@ }),
        _ => Ok(leaf),
    }
}

/// Takes one more event of a leaf element; any end tag ends it.
pub fn read_leaf_text(leaf: &mut String, ev: &XmlEvent, path: &str) -> (r: Result<bool, Error>)
    ensures
        match leaf_step(old(leaf)@, ev@, path@) {
            Ok(s) => r == Ok::<bool, Error>(ev@ is End) && final(leaf)@ == s,
            Err(f) => r matches Err(e) && e@ == f,
        },
{
    match ev {
        XmlEvent::Text(t) => match t {
            Some(s) => {
                text::push_text(leaf, s.as_str());
                Ok(false)
            },
            None => Err(Error::XmlParse { path: path.to_owned() }),
        },
        XmlEvent::Ref(r) => match xml::push_general_ref(leaf, r, path) {
            Ok(()) => Ok(false),
            Err(e) => Err(e),
        },
        XmlEvent::Eof => Err(
            Error::MissingRequiredElement { path: path.to_owned(), name: "closing tag" },
        ),
        XmlEvent::End(_) => Ok(true),
        _ => Ok(false),
    }
}

// ---------------------------------------------------------------------------
// What a string item says

/// What rich text comes to after a sequence of events of which none ends it.
pub open spec fn gathered(st: RichView, events: Seq<EventView>, path: Seq<char>) -> Result<
    RichView,
    ErrorView,
>
    decreases events.len(),
{
    if events.len() == 0 {
        Ok(st)
    } else {
        match gathered(st, events.drop_last(), path) {
            Ok(s) => rich_step(s, events.last(), path),
            Err(e) => Err(e),
        }
    }
}

/// Whether rich text stands between its runs.
pub open spec fn is_between(st: RichView) -> bool {
    st.skip_depth == 0 && st.t_start is None
}

/// Whether events that stand between two runs add a text to what was gathered before,
/// whatever that was, and no more.
pub open spec fn adds_text(events: Seq<EventView>, t: Seq<char>) -> bool {
    &&& forall|i: int|
        0 <= i < events.len() ==> !ends_rich_text(#[trigger] events[i]) && !(events[i] is DocType)
            && !(events[i] is Failure) && !(events[i] is OverCap)
    &&& forall|st: RichView, path: Seq<char>|
        is_between(st) ==> (#[trigger] gathered(st, events, path) matches Ok(next) && is_between(
            next,
        ) && next.text == st.text + t)
}

proof fn lemma_gathered(st: RichView, a: Seq<EventView>, b: Seq<EventView>, path: Seq<char>)
    ensures
        gathered(st, a + b, path) == match gathered(st, a, path) {
            Ok(s) => gathered(s, b, path),
            Err(e) => Err(e),
        },
    decreases b.len(),
{
    if b.len() == 0 {
        assert(a + b =~= a);
    } else {
        lemma_gathered(st, a, b.drop_last(), path);
        assert((a + b).drop_last() =~= a + b.drop_last());
        assert((a + b).last() == b.last());
    }
}

proof fn lemma_gathered_one(st: RichView, a: Seq<EventView>, ev: EventView, path: Seq<char>)
    ensures
        gathered(st, a.push(ev), path) == match gathered(st, a, path) {
            Ok(s) => rich_step(s, ev, path),
            Err(e) => Err(e),
        },
{
    assert(a.push(ev).drop_last() =~= a);
}

/// Names that are told apart.
proof fn lemma_names()
    ensures
        "rPr"@ != "t"@,
        "rPh"@ != "t"@,
        "rPh"@ != "rPr"@,
        "si"@ != "t"@,
        "si"@ != "rPr"@,
        "si"@ != "rPh"@,
        "is"@ != "t"@,
        "is"@ != "rPr"@,
        "is"@ != "rPh"@,
        "is"@ != "si"@,
{
    reveal_strlit("rPr");
    reveal_strlit("t");
    reveal_strlit("rPh");
    reveal_strlit("si");
    reveal_strlit("is");
    assert("rPr"@.len() == 3
        && "t"@.len() == 1
        && "rPh"@.len() == 3
        && "si"@.len() == 2
        && "is"@.len() == 2);
    assert("rPh"@[2] != "rPr"@[2]
        && "is"@[0] != "si"@[0]);
}

/// The end of a string item leaves the text as it is.
pub proof fn lemma_end_of_item(st: RichView, path: Seq<char>)
    ensures
        rich_step(st, EventView::End("si"@), path) == Ok::<RichView, ErrorView>(st),
        rich_step(st, EventView::End("is"@), path) == Ok::<RichView, ErrorView>(st),
{
    lemma_names();
}

/// The text of a `t` element counts: with all its white space if the element says
/// `xml:space="preserve"`, trimmed otherwise.
pub proof fn law_text_elements_count(tag: TagView, space: Option<Seq<char>>, t: Seq<char>)
    requires
        tag.name == "t"@,
        xml::states_opt(tag.attrs, "xml:space"@, space),
        !t.contains('\r'),
    ensures
        adds_text(
            seq![
                EventView::Start(tag),
                EventView::Text(Some(t)),
                EventView::End("t"@),
            ],
            if space == Some("preserve"@) {
                t
            } else {
                text::trim(t)
            },
        ),
{
    let events = seq![
        EventView::Start(tag),
        EventView::Text(Some(t)),
        EventView::End("t"@),
    ];
    let added = if space == Some("preserve"@) {
        t
    } else {
        text::trim(t)
    };
    lemma_names();
    law_normalizing_keeps_other_text(t);
    assert forall|st: RichView, path: Seq<char>| is_between(st) implies (#[trigger] gathered(
        st,
        events,
        path,
    ) matches Ok(next) && is_between(next) && next.text == st.text + added) by {
        xml::lemma_attribute(tag.attrs, path, "xml:space"@, space);
        let none = Seq::<EventView>::empty();
        let one = none.push(EventView::Start(tag));
        let two = one.push(EventView::Text(Some(t)));
        lemma_gathered_one(st, none, EventView::Start(tag), path);
        lemma_gathered_one(st, one, EventView::Text(Some(t)), path);
        lemma_gathered_one(st, two, EventView::End("t"@), path);
        assert(events =~= two.push(EventView::End("t"@)));
        let mid = gathered(st, two, path)->Ok_0;
        assert(mid.text == st.text + t);
        let n = st.text.len() as int;
        assert(mid.text.take(n) =~= st.text);
        assert(mid.text.skip(n) =~= t);
    }
}

/// Whether an event may stand in a formatting or phonetic element that has no other in
/// it.
pub open spec fn may_stand_aside(ev: EventView) -> bool {
    match ev {
        EventView::Start(t) => t.name != "rPr"@ && t.name != "rPh"@,
        EventView::End(n) => n != "rPr"@ && n != "rPh"@ && n != "si"@ && n != "is"@,
        EventView::Empty(_) => true,
        EventView::Text(_) => true,
        EventView::CData(_) => true,
        EventView::Ref(_) => true,
        EventView::Other => true,
        _ => false,
    }
}

proof fn lemma_aside_stays(st: RichView, inside: Seq<EventView>, path: Seq<char>)
    requires
        st.skip_depth == 1,
        forall|i: int|
            0 <= i < inside.len() ==> may_stand_aside(#[trigger] inside[i]),
    ensures
        gathered(st, inside, path) == Ok::<RichView, ErrorView>(st),
    decreases inside.len(),
{
    if inside.len() > 0 {
        let front = inside.drop_last();
        assert forall|i: int| 0 <= i < front.len() implies may_stand_aside(#[trigger] front[i]) by {
            assert(front[i] == inside[i]);
        }
        lemma_aside_stays(st, front, path);
        assert(inside[inside.len() - 1] == inside.last());
    }
}

/// Formatting and phonetic elements add nothing, whatever text stands in them.
pub proof fn law_asides_do_not_count(tag: TagView, inside: Seq<EventView>)
    requires
        tag.name == "rPr"@ || tag.name == "rPh"@,
        forall|i: int|
            0 <= i < inside.len() ==> may_stand_aside(#[trigger] inside[i]),
    ensures
        adds_text(
            seq![EventView::Start(tag)] + inside + seq![EventView::End(tag.name)],
            Seq::empty(),
        ),
{
    let events = seq![EventView::Start(tag)] + inside + seq![EventView::End(tag.name)];
    lemma_names();
    assert forall|i: int| 0 <= i < events.len() implies !ends_rich_text(#[trigger] events[i]) && !(
    events[i] is DocType) && !(events[i] is Failure) && !(events[i] is OverCap) by {
        if 0 < i < events.len() - 1 {
            assert(events[i] == inside[i - 1]);
        }
    }
    assert forall|st: RichView, path: Seq<char>| is_between(st) implies (#[trigger] gathered(
        st,
        events,
        path,
    ) matches Ok(next) && is_between(next) && next.text == st.text + Seq::<char>::empty()) by {
        let none = Seq::<EventView>::empty();
        let open = RichView { skip_depth: 1, ..st };
        lemma_gathered_one(st, none, EventView::Start(tag), path);
        assert(seq![EventView::Start(tag)] =~= none.push(EventView::Start(tag)));
        assert(gathered(st, seq![EventView::Start(tag)], path) == Ok::<RichView, ErrorView>(open));
        lemma_gathered(st, seq![EventView::Start(tag)], inside, path);
        lemma_aside_stays(open, inside, path);
        lemma_gathered_one(
            st,
            seq![EventView::Start(tag)] + inside,
            EventView::End(tag.name),
            path,
        );
        assert(events =~= (seq![EventView::Start(tag)] + inside).push(EventView::End(tag.name)));
        assert(st.text + Seq::<char>::empty() =~= st.text);
    }
}

/// The tags of a run, and text that stands outside a `t` element, add nothing.
pub proof fn law_only_text_elements_count(ev: EventView)
    requires
        match ev {
            EventView::Start(t) => t.name != "t"@ && t.name != "rPr"@ && t.name != "rPh"@,
            EventView::End(n) => n != "t"@ && n != "rPr"@ && n != "rPh"@ && n != "si"@ && n
                != "is"@,
            EventView::Empty(_) => true,
            EventView::Text(_) => true,
            EventView::CData(_) => true,
            EventView::Ref(_) => true,
            EventView::Other => true,
            _ => false,
        },
    ensures
        adds_text(seq![ev], Seq::empty()),
{
    let events = seq![ev];
    assert forall|st: RichView, path: Seq<char>| is_between(st) implies (#[trigger] gathered(
        st,
        events,
        path,
    ) matches Ok(next) && is_between(next) && next.text == st.text + Seq::<char>::empty()) by {
        let none = Seq::<EventView>::empty();
        lemma_gathered_one(st, none, ev, path);
        assert(events =~= none.push(ev));
        assert(st.text + Seq::<char>::empty() =~= st.text);
    }
}

/// Runs come together in their order: what two stretches of events add is what the
/// one adds and then what the other adds.
pub proof fn law_runs_come_together_in_order(
    a: Seq<EventView>,
    b: Seq<EventView>,
    s: Seq<char>,
    t: Seq<char>,
)
    requires
        adds_text(a, s),
        adds_text(b, t),
    ensures
        adds_text(a + b, s + t),
{
    assert forall|i: int| 0 <= i < (a + b).len() implies !ends_rich_text(#[trigger] (a + b)[i]) && !(
    (a + b)[i] is DocType) && !((a + b)[i] is Failure) && !((a + b)[i] is OverCap) by {
        if i < a.len() {
            assert((a + b)[i] == a[i]);
        } else {
            assert((a + b)[i] == b[i - a.len()]);
        }
    }
    assert forall|st: RichView, path: Seq<char>| is_between(st) implies (#[trigger] gathered(
        st,
        a + b,
        path,
    ) matches Ok(next) && is_between(next) && next.text == st.text + (s + t)) by {
        lemma_gathered(st, a, b, path);
        let mid = gathered(st, a, path)->Ok_0;
        assert(is_between(mid));
        assert(gathered(mid, b, path) is Ok);
        assert(st.text + s + t =~= st.text + (s + t));
    }
}

/// A line break written as a carriage return, alone or with a line feed, comes out as a
/// line feed; the text around it stays.
pub proof fn law_line_breaks_are_normalized(a: Seq<char>, b: Seq<char>)
    requires
        !a.contains('\r'),
    ensures
        normalized(a + seq!['\r', '\n'] + b) == a + seq!['\n'] + normalized(b),
        b.len() == 0 || b[0] != '\n' ==> normalized(a + seq!['\r'] + b) == a + seq!['\n']
            + normalized(b),
    decreases a.len(),
{
    let s = a + seq!['\r', '\n'] + b;
    let t = a + seq!['\r'] + b;
    if a.len() == 0 {
        assert(s.skip(2) =~= b);
        assert(t.skip(1) =~= b);
        assert(a + seq!['\n'] =~= seq!['\n']);
    } else {
        let rest = a.skip(1);
        assert(!rest.contains('\r')) by {
            if rest.contains('\r') {
                let i = rest.index_of('\r');
                assert(a[i + 1] == '\r');
            }
        }
        assert(a.contains(a[0]));
        law_line_breaks_are_normalized(rest, b);
        assert(s.skip(1) =~= rest + seq!['\r', '\n'] + b);
        assert(t.skip(1) =~= rest + seq!['\r'] + b);
        assert(s[0] == a[0] && t[0] == a[0]);
        assert(seq![a[0]] + (rest + seq!['\n'] + normalized(b)) =~= a + seq!['\n'] + normalized(b));
    }
}

/// The mark `_x000D_` comes out as a carriage return, and a text without underscores
/// stays as it is.
pub proof fn law_marks_become_carriage_returns(a: Seq<char>, b: Seq<char>)
    requires
        !a.contains('_'),
    ensures
        restored(a) == a,
        restored(a + "_x000D_"@ + b) == a + seq!['\r'] + restored(b),
    decreases a.len(),
{
    reveal_strlit("_x000D_");
    let mark = "_x000D_"@;
    assert(mark =~= cr_mark());
    let s = a + mark + b;
    if a.len() == 0 {
        assert(s.take(7) =~= cr_mark());
        assert(s.skip(7) =~= b);
        assert(a + seq!['\r'] =~= seq!['\r']);
    } else {
        let rest = a.skip(1);
        assert(!rest.contains('_')) by {
            if rest.contains('_') {
                let i = rest.index_of('_');
                assert(a[i + 1] == '_');
            }
        }
        law_marks_become_carriage_returns(rest, b);
        assert(a.contains(a[0]));
        assert(s[0] == a[0]);
        assert(s.take(7)[0] == a[0]);
        assert(a.len() >= 7 ==> a.take(7)[0] == a[0]);
        assert(cr_mark()[0] == '_');
        assert(s.skip(1) =~= rest + mark + b);
        assert(seq![a[0]] + rest =~= a);
        assert(seq![a[0]] + (rest + seq!['\r'] + restored(b)) =~= a + seq!['\r'] + restored(b));
    }
}

} // verus!
