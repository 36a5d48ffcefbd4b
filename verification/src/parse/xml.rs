//! XML events: what the parts of a package are read through.
use crate::container::data::{PartData, PartEnd, PartView};
use crate::container::sanitize;
use crate::container::sanitize::LimitExceeded;
use crate::error;
use crate::error::{Error, ErrorView};
use crate::text;
use quick_xml::events::attributes::{AttrError, Attribute, Attributes};
use quick_xml::events::{BytesRef, BytesStart, Event};
use quick_xml::{Reader, XmlVersion};
use vstd::prelude::*;

verus! {

/// `quick_xml::Reader`, a pull parser over some input.
#[verifier::external_type_specification]
#[verifier::external_body]
#[verifier::reject_recursive_types(R)]
pub struct ExReader<R>(Reader<R>);

/// `quick_xml::events::BytesStart`, a start tag.
#[verifier::external_type_specification]
#[verifier::external_body]
pub struct ExBytesStart<'a>(BytesStart<'a>);

/// `quick_xml::events::BytesRef`, a character or entity reference.
#[verifier::external_type_specification]
#[verifier::external_body]
pub struct ExBytesRef<'a>(BytesRef<'a>);

/// `quick_xml::events::attributes::Attributes`, the attributes of a tag that
/// have not been handed out yet.
#[verifier::external_type_specification]
#[verifier::external_body]
pub struct ExAttributes<'a>(Attributes<'a>);

/// `quick_xml::events::attributes::Attribute`, one attribute.
#[verifier::external_type_specification]
#[verifier::external_body]
pub struct ExAttribute<'a>(Attribute<'a>);

/// `quick_xml::events::attributes::AttrError`, what is wrong with an attribute.
#[verifier::external_type_specification]
#[verifier::external_body]
pub struct ExAttrError(AttrError);

/// An attribute of a tag.
#[derive(Debug, Clone, PartialEq, Eq)]
pub enum XmlAttr {
    /// A name and a normalized value; no value if it cannot be decoded.
    Good { key: String, value: Option<String> },
    /// Something that is no attribute.
    Malformed,
}

/// An attribute as contracts speak of it.
#[verifier::ext_equal]
pub enum AttrView {
    Good { key: Seq<char>, value: Option<Seq<char>> },
    Malformed,
}

impl View for XmlAttr {
    type V = AttrView;

    open spec fn view(&self) -> AttrView {
        match *self {
            XmlAttr::Good { key, value } => AttrView::Good {
                key: key@,
                value: text::text_opt(value),
            },
            XmlAttr::Malformed => AttrView::Malformed,
        }
    }
}

/// The views of a list of attributes.
pub open spec fn attr_views(attrs: Seq<XmlAttr>) -> Seq<AttrView> {
    attrs.map_values(|a: XmlAttr| a@)
}

/// A start tag or an empty-element tag.
#[derive(Debug, Clone, PartialEq, Eq)]
pub struct XmlTag {
    /// The name without its prefix.
    pub name: String,
    pub attrs: Vec<XmlAttr>,
}

/// A tag as contracts speak of it.
#[verifier::ext_equal]
pub struct TagView {
    pub name: Seq<char>,
    pub attrs: Seq<AttrView>,
}

impl View for XmlTag {
    type V = TagView;

    open spec fn view(&self) -> TagView {
        TagView { name: self.name@, attrs: attr_views(self.attrs@) }
    }
}

/// What a reference in text refers to.
#[derive(Debug, Clone, PartialEq, Eq)]
pub enum XmlRef {
    Character(char),
    Entity(String),
    /// A reference to no character, or one that cannot be decoded.
    Undecodable,
}

/// A reference as contracts speak of it.
#[verifier::ext_equal]
pub enum RefView {
    Character(char),
    Entity(Seq<char>),
    Undecodable,
}

impl View for XmlRef {
    type V = RefView;

    open spec fn view(&self) -> RefView {
        match *self {
            XmlRef::Character(c) => RefView::Character(c),
            XmlRef::Entity(n) => RefView::Entity(n@),
            XmlRef::Undecodable => RefView::Undecodable,
        }
    }
}

/// One event of an XML document.
#[derive(Debug, Clone, PartialEq, Eq)]
pub enum XmlEvent {
    Start(XmlTag),
    Empty(XmlTag),
    /// An end tag, with its name without the prefix.
    End(String),
    /// Plain text; nothing if it cannot be decoded.
    Text(Option<String>),
    CData(Option<String>),
    Ref(XmlRef),
    DocType,
    /// A comment, a declaration or a processing instruction.
    Other,
    Eof,
    /// The document is not well-formed from here on.
    Failure,
    /// What follows would exceed a cap.
    OverCap(LimitExceeded),
}

/// An event as contracts speak of it.
#[verifier::ext_equal]
pub enum EventView {
    Start(TagView),
    Empty(TagView),
    End(Seq<char>),
    Text(Option<Seq<char>>),
    CData(Option<Seq<char>>),
    Ref(RefView),
    DocType,
    Other,
    Eof,
    Failure,
    OverCap(LimitExceeded),
}

impl View for XmlEvent {
    type V = EventView;

    open spec fn view(&self) -> EventView {
        match *self {
            XmlEvent::Start(t) => EventView::Start(t@),
            XmlEvent::Empty(t) => EventView::Empty(t@),
            XmlEvent::End(n) => EventView::End(n@),
            XmlEvent::Text(t) => EventView::Text(text::text_opt(t)),
            XmlEvent::CData(t) => EventView::CData(text::text_opt(t)),
            XmlEvent::Ref(r) => EventView::Ref(r@),
            XmlEvent::DocType => EventView::DocType,
            XmlEvent::Other => EventView::Other,
            XmlEvent::Eof => EventView::Eof,
            XmlEvent::Failure => EventView::Failure,
            XmlEvent::OverCap(e) => EventView::OverCap(e),
        }
    }
}

/// An event whose tags and references are still to be taken apart.
pub enum RawEvent<'a> {
    Start(BytesStart<'a>),
    Empty(BytesStart<'a>),
    End(String),
    Text(Option<String>),
    CData(Option<String>),
    Ref(BytesRef<'a>),
    DocType,
    Other,
    Eof,
    Failure,
}

/// The events of the document that bytes hold, up to its end or to where it
/// stops being well-formed.
pub uninterp spec fn document_events(bytes: Seq<u8>) -> Seq<EventView>;

/// Where in the document that bytes hold a reader stands after each of its events, a
/// byte order mark not counted.
pub uninterp spec fn document_positions(bytes: Seq<u8>) -> Seq<u64>;

/// The bytes that a reader was opened over.
pub uninterp spec fn reader_bytes(reader: Reader<&[u8]>) -> Seq<u8>;

/// How many events a reader has handed out.
pub uninterp spec fn events_taken(reader: Reader<&[u8]>) -> nat;

/// The name of a tag without its prefix.
pub uninterp spec fn tag_name(tag: BytesStart<'_>) -> Seq<char>;

/// The attributes of a tag, in order.
pub uninterp spec fn tag_attributes(tag: BytesStart<'_>) -> Seq<AttrView>;

/// The attributes that an iterator has yet to hand out.
pub uninterp spec fn attributes_left(attributes: Attributes<'_>) -> Seq<AttrView>;

/// What a reference refers to.
pub uninterp spec fn reference_target(reference: BytesRef<'_>) -> RefView;

/// The event that a raw event stands for.
pub open spec fn raw_view(raw: RawEvent<'_>) -> EventView {
    match raw {
        RawEvent::Start(t) => EventView::Start(
            TagView { name: tag_name(t), attrs: tag_attributes(t) },
        ),
        RawEvent::Empty(t) => EventView::Empty(
            TagView { name: tag_name(t), attrs: tag_attributes(t) },
        ),
        RawEvent::End(n) => EventView::End(n@),
        RawEvent::Text(t) => EventView::Text(text::text_opt(t)),
        RawEvent::CData(t) => EventView::CData(text::text_opt(t)),
        RawEvent::Ref(r) => EventView::Ref(reference_target(r)),
        RawEvent::DocType => EventView::DocType,
        RawEvent::Other => EventView::Other,
        RawEvent::Eof => EventView::Eof,
        RawEvent::Failure => EventView::Failure,
    }
}

/// Whether an event is the last that a document has.
pub open spec fn is_last(ev: EventView) -> bool {
    ev is Eof || ev is Failure || ev is OverCap
}

/// Whether a sequence of events ends with a last event, and has no other.
pub open spec fn terminated(events: Seq<EventView>) -> bool {
    &&& events.len() > 0
    &&& is_last(events.last())
    &&& forall|i: int| 0 <= i < events.len() - 1 ==> !is_last(#[trigger] events[i])
}

/// `Reader::from_reader` over bytes in memory, set not to trim text: the reader
/// will hand out the events of the document, and the last of them is its end or
/// the first failure.
#[verifier::external_body]
fn open_reader(bytes: &[u8]) -> (r: Reader<&[u8]>)
    ensures
        reader_bytes(r) == bytes@,
        events_taken(r) == 0,
        terminated(document_events(reader_bytes(r))),
{
    let mut reader = Reader::from_reader(bytes);
    reader.config_mut().trim_text(false);
    reader
}

/// `Reader::read_event`: hands out the next event. The name of an end tag comes
/// without its prefix, and in it bytes that are no UTF-8 come as replacement
/// characters.
#[verifier::external_body]
fn read_raw<'a>(reader: &mut Reader<&'a [u8]>) -> (r: RawEvent<'a>)
    ensures
        reader_bytes(*final(reader)) == reader_bytes(*old(reader)),
        events_taken(*old(reader)) < document_events(reader_bytes(*old(reader))).len()
            ==> raw_view(r) == document_events(reader_bytes(*old(reader)))[events_taken(
            *old(reader),
        ) as int] && events_taken(*final(reader)) == events_taken(*old(reader)) + 1,
{
    match reader.read_event() {
        Ok(Event::Start(e)) => RawEvent::Start(e),
        Ok(Event::Empty(e)) => RawEvent::Empty(e),
        Ok(Event::End(e)) => RawEvent::End(String::from_utf8_lossy(e.local_name().as_ref()).into()),
        Ok(Event::Text(e)) => RawEvent::Text(e.decode().ok().map(Into::into)),
        Ok(Event::CData(e)) => RawEvent::CData(e.decode().ok().map(Into::into)),
        Ok(Event::GeneralRef(e)) => RawEvent::Ref(e),
        Ok(Event::DocType(_)) => RawEvent::DocType,
        Ok(Event::Eof) => RawEvent::Eof,
        Ok(_) => RawEvent::Other,
        Err(_) => RawEvent::Failure,
    }
}

/// `Reader::buffer_position`: where in its input the reader stands. A byte order
/// mark at the beginning is not counted.
#[verifier::external_body]
fn position_of(reader: &Reader<&[u8]>) -> (r: u64)
    ensures
        events_taken(*reader) > 0 ==> r == document_positions(
            reader_bytes(*reader),
        )[events_taken(*reader) - 1],
{
    reader.buffer_position()
}

/// `BytesStart::local_name`: the name of a tag without its prefix. In it bytes that
/// are no UTF-8 come as replacement characters.
#[verifier::external_body]
fn name_of(tag: &BytesStart<'_>) -> (r: String)
    ensures
        r@ == tag_name(*tag),
{
    String::from_utf8_lossy(tag.local_name().as_ref()).into()
}

/// `BytesStart::attributes`: an iterator over the attributes of a tag.
#[verifier::external_body]
fn attributes_of<'b>(tag: &'b BytesStart<'_>) -> (r: Attributes<'b>)
    ensures
        attributes_left(r) == tag_attributes(*tag),
{
    tag.attributes()
}

/// `Attributes::next`, and `Attribute::normalized_value` of what it hands out:
/// the next attribute, if there is one. In its name bytes that are no UTF-8 come
/// as replacement characters.
#[verifier::external_body]
fn next_attribute(attributes: &mut Attributes<'_>) -> (r: Option<XmlAttr>)
    ensures
        match r {
            Some(a) => attributes_left(*old(attributes)).len() > 0 && a@ == attributes_left(
                *old(attributes),
            )[0] && attributes_left(*final(attributes)) == attributes_left(
                *old(attributes),
            ).skip(1),
            None => attributes_left(*old(attributes)).len() == 0,
        },
{
    attributes.next().map(|attr| match attr {
        Ok(a) => XmlAttr::Good {
            key: String::from_utf8_lossy(a.key.as_ref()).into(),
            value: a.normalized_value(XmlVersion::Implicit1_0).ok().map(Into::into),
        },
        Err(_) => XmlAttr::Malformed,
    })
}

/// `BytesRef::resolve_char_ref`, and `BytesRef::decode` for a reference that
/// names an entity.
#[verifier::external_body]
fn resolve_reference(reference: &BytesRef<'_>) -> (r: XmlRef)
    ensures
        r@ == reference_target(*reference),
{
    match reference.resolve_char_ref() {
        Ok(Some(c)) => XmlRef::Character(c),
        Ok(None) => match reference.decode() {
            Ok(name) => XmlRef::Entity(name.into_owned()),
            Err(_) => XmlRef::Undecodable,
        },
        Err(_) => XmlRef::Undecodable,
    }
}

/// The text of an entity that every XML document may refer to.
pub open spec fn entity_text(name: Seq<char>) -> Option<Seq<char>> {
    if name == "lt"@ {
        Some("<"@)
    } else if name == "gt"@ {
        Some(">"@)
    } else if name == "amp"@ {
        Some("&"@)
    } else if name == "apos"@ {
        Some("'"@)
    } else if name == "quot"@ {
        Some("\""@)
    } else {
        None
    }
}

/// `quick_xml::escape::resolve_predefined_entity`: the text of one of the five
/// predefined entities.
#[verifier::external_body]
fn predefined_entity(name: &str) -> (r: Option<&'static str>)
    ensures
        (match r {
            Some(t) => Some(t@),
            None => None,
        }) == entity_text(name@),
{
    quick_xml::escape::resolve_predefined_entity(name)
}

// ---------------------------------------------------------------------------
// The events of a part

/// The length of the byte order mark that bytes begin with.
pub open spec fn mark_length(bytes: Seq<u8>) -> nat {
    if bytes.len() >= 3 && bytes[0] == 0xef && bytes[1] == 0xbb && bytes[2] == 0xbf {
        3
    } else {
        0
    }
}

/// How many bytes a reader has used after its first `n` events.
pub open spec fn used(bytes: Seq<u8>, n: nat) -> u64 {
    if n == 0 {
        0
    } else {
        sanitize::counted(document_positions(bytes)[n - 1], mark_length(bytes))
    }
}

/// Whether there is nothing behind a place, or no more than the first characters of
/// markup.
pub open spec fn breaks_off(bytes: Seq<u8>, at: int) -> bool {
    ||| at >= bytes.len()
    ||| at == bytes.len() - 1 && bytes[at] == 0x3c
    ||| at == bytes.len() - 2 && bytes[at] == 0x3c && bytes[at + 1] == 0x21
}

/// Whether an event of a part comes about because the data ends: its end, text up to
/// the end, and markup or a reference of which the end does not come.
pub open spec fn comes_of_end(bytes: Seq<u8>, i: int) -> bool {
    match document_events(bytes)[i] {
        EventView::Eof => true,
        EventView::Text(_) => used(bytes, (i + 1) as nat) >= bytes.len(),
        EventView::Failure => breaks_off(bytes, used(bytes, (i + 1) as nat) as int),
        _ => false,
    }
}

/// The event that stands for what is behind the data of a part.
pub open spec fn end_event(end: PartEnd) -> EventView {
    match end {
        PartEnd::Whole => EventView::Eof,
        PartEnd::Broken => EventView::Failure,
        PartEnd::OverCap(e) => EventView::OverCap(e),
    }
}

/// The event that comes of a part: where its data breaks off, that is what comes in
/// place of events which only the end of the data brings about.
pub open spec fn event_of(part: PartView, i: int) -> EventView {
    if part.end != PartEnd::Whole && comes_of_end(part.bytes, i) {
        end_event(part.end)
    } else {
        document_events(part.bytes)[i]
    }
}

/// The events that come of the first `n` of a part's document, up to the first last
/// one.
pub open spec fn first_events(part: PartView, n: nat) -> Seq<EventView>
    decreases n,
{
    if n == 0 {
        Seq::empty()
    } else {
        let front = first_events(part, (n - 1) as nat);
        if front.len() > 0 && is_last(front.last()) {
            front
        } else {
            front.push(event_of(part, n - 1))
        }
    }
}

/// The events of a part.
pub open spec fn part_events(part: PartView) -> Seq<EventView> {
    first_events(part, document_events(part.bytes).len())
}

proof fn lemma_first_events(part: PartView, n: nat)
    ensures
        ({
            let es = first_events(part, n);
            &&& es.len() <= n
            &&& es.len() < n ==> es.len() > 0 && is_last(es.last())
            &&& forall|i: int| 0 <= i < es.len() ==> #[trigger] es[i] == event_of(part, i)
            &&& forall|i: int| 0 <= i < es.len() - 1 ==> !is_last(#[trigger] es[i])
        }),
    decreases n,
{
    if n > 0 {
        lemma_first_events(part, (n - 1) as nat);
    }
}

/// The events of a part end with a last event and have no other, and each is what
/// comes of an event of its document.
pub proof fn lemma_part_events(part: PartView)
    ensures
        terminated(document_events(part.bytes)) ==> terminated(part_events(part)),
        part_events(part).len() <= document_events(part.bytes).len(),
        forall|i: int|
            0 <= i < part_events(part).len() ==> #[trigger] part_events(part)[i] == event_of(
                part,
                i,
            ),
{
    let n = document_events(part.bytes).len();
    lemma_first_events(part, n);
    let es = part_events(part);
    if es.len() == n && terminated(document_events(part.bytes)) {
        assert(es[n - 1] == event_of(part, n - 1));
        assert(is_last(document_events(part.bytes).last()));
    }
}

/// The events of a part that is there whole are those of its document.
pub proof fn law_whole_parts_are_documents(bytes: Seq<u8>)
    ensures
        terminated(document_events(bytes)) ==> part_events(
            PartView { bytes, end: PartEnd::Whole },
        ) == document_events(bytes),
{
    let part = PartView { bytes, end: PartEnd::Whole };
    if terminated(document_events(bytes)) {
        lemma_part_events(part);
        lemma_first_events(part, document_events(bytes).len());
        let es = part_events(part);
        if es.len() < document_events(bytes).len() {
            assert(es[es.len() - 1] == document_events(bytes)[es.len() - 1]);
        }
        assert(es =~= document_events(bytes));
    }
}

/// A part whose data breaks off never comes to the end of its document.
pub proof fn law_parts_that_break_off_do_not_end(part: PartView, i: int)
    requires
        part.end != PartEnd::Whole,
        0 <= i < part_events(part).len(),
    ensures
        !(part_events(part)[i] is Eof),
{
    lemma_first_events(part, document_events(part.bytes).len());
}

/// A part being read, event by event.
pub struct XmlSource<'a> {
    reader: Reader<&'a [u8]>,
    part: &'a PartData,
}

fn collect_attributes(tag: &BytesStart<'_>) -> (r: Vec<XmlAttr>)
    ensures
        attr_views(r@) == tag_attributes(*tag),
{
    let mut it: Attributes<'_> = attributes_of(tag);
    let mut out: Vec<XmlAttr> = Vec::new();
    let ghost all = tag_attributes(*tag);
    assert(all.skip(0) =~= all);
    loop
        invariant
            all == tag_attributes(*tag),
            out@.len() <= all.len(),
            attr_views(out@) == all.take(out@.len() as int),
            attributes_left(it) == all.skip(out@.len() as int),
        decreases all.len() - out@.len(),
    {
        match next_attribute(&mut it) {
            None => {
                assert(all.take(out@.len() as int) =~= all);
                return out;
            },
            Some(a) => {
                let ghost n = out@.len() as int;
                assert(all.skip(n).skip(1) =~= all.skip(n + 1));
                out.push(a);
                assert(attr_views(out@) =~= all.take(n + 1));
            },
        }
    }
}

fn has_mark(bytes: &Vec<u8>) -> (r: bool)
    ensures
        mark_length(bytes@) == if r {
            3nat
        } else {
            0nat
        },
{
    bytes.len() >= 3 && bytes[0] == 0xef && bytes[1] == 0xbb && bytes[2] == 0xbf
}

fn at_break(bytes: &Vec<u8>, at: u64) -> (r: bool)
    ensures
        r == breaks_off(bytes@, at as int),
{
    let n: u64 = bytes.len() as u64;
    at >= n || (n - at == 1 && bytes[at as usize] == 0x3c) || (n - at == 2 && bytes[at as usize]
        == 0x3c && bytes[at as usize + 1] == 0x21)
}

impl<'a> XmlSource<'a> {
    /// The part that is read.
    pub closed spec fn part(&self) -> PartView {
        self.part@
    }

    /// How many events have been handed out.
    pub closed spec fn taken(&self) -> nat {
        events_taken(self.reader)
    }

    /// Whether the reader is over the part.
    pub closed spec fn is_over_part(&self) -> bool {
        &&& reader_bytes(self.reader) == self.part@.bytes
        &&& terminated(document_events(self.part@.bytes))
        &&& events_taken(self.reader) <= part_events(self.part@).len()
    }

    /// The events that are still to come.
    pub closed spec fn pending(&self) -> Seq<EventView> {
        if self.is_over_part() {
            part_events(self.part@).skip(events_taken(self.reader) as int)
        } else {
            Seq::empty()
        }
    }

    /// A source over a part.
    pub fn new(part: &'a PartData) -> (s: XmlSource<'a>)
        ensures
            s.is_over_part(),
            s.part() == part@,
            s.taken() == 0,
            s.pending() == part_events(part@),
            terminated(s.pending()),
    {
        let s = XmlSource { reader: open_reader(part.bytes.as_slice()), part };
        proof {
            assert(part.bytes@ =~= part@.bytes);
            lemma_part_events(part@);
            assert(part_events(part@).skip(0) =~= part_events(part@));
        }
        s
    }

    /// How many bytes of the part the events that have been handed out took.
    pub fn used(&self) -> (n: u64)
        requires
            self.is_over_part(),
            self.taken() > 0,
        ensures
            n == used(self.part().bytes, self.taken()),
    {
        let at: u64 = position_of(&self.reader);
        let mark: u64 = if has_mark(&self.part.bytes) {
            3
        } else {
            0
        };
        at.saturating_add(mark)
    }

    /// The next event.
    pub fn next(&mut self) -> (ev: XmlEvent)
        requires
            old(self).pending().len() > 0,
        ensures
            ev@ == old(self).pending()[0],
            final(self).pending() == old(self).pending().skip(1),
            final(self).is_over_part(),
            final(self).part() == old(self).part(),
            final(self).taken() == old(self).taken() + 1,
    {
        let ghost k = events_taken(self.reader) as int;
        let ghost part = self.part@;
        proof {
            lemma_part_events(part);
            assert(part_events(part).skip(k).skip(1) =~= part_events(part).skip(k + 1));
        }
        let ev: XmlEvent = match read_raw(&mut self.reader) {
            RawEvent::Start(tag) => {
                let name: String = name_of(&tag);
                let attrs: Vec<XmlAttr> = collect_attributes(&tag);
                XmlEvent::Start(XmlTag { name, attrs })
            },
            RawEvent::Empty(tag) => {
                let name: String = name_of(&tag);
                let attrs: Vec<XmlAttr> = collect_attributes(&tag);
                XmlEvent::Empty(XmlTag { name, attrs })
            },
            RawEvent::End(name) => XmlEvent::End(name),
            RawEvent::Text(t) => XmlEvent::Text(t),
            RawEvent::CData(t) => XmlEvent::CData(t),
            RawEvent::Ref(r) => XmlEvent::Ref(resolve_reference(&r)),
            RawEvent::DocType => XmlEvent::DocType,
            RawEvent::Other => XmlEvent::Other,
            RawEvent::Eof => XmlEvent::Eof,
            RawEvent::Failure => XmlEvent::Failure,
        };
        assert(ev@ == document_events(part.bytes)[k]);
        let broken_off: bool = match self.part.end {
            PartEnd::Whole => false,
            _ => {
                let at: u64 = self.used();
                match &ev {
                    XmlEvent::Eof => true,
                    XmlEvent::Text(_) => at >= self.part.bytes.len() as u64,
                    XmlEvent::Failure => at_break(&self.part.bytes, at),
                    _ => false,
                }
            },
        };
        if broken_off {
            match self.part.end {
                PartEnd::OverCap(e) => XmlEvent::OverCap(e),
                _ => XmlEvent::Failure,
            }
        } else {
            ev
        }
    }
}

/// The error that an event is by itself, whatever the part: a document type
/// declaration, the end of well-formedness, or a cap.
pub open spec fn event_fault(ev: EventView, path: Seq<char>) -> Option<ErrorView> {
    match ev {
        EventView::DocType => Some(ErrorView::DoctypeRejected { path }),
        EventView::Failure => Some(ErrorView::XmlParse { path }),
        EventView::OverCap(e) => Some(
            ErrorView::ZipBombDetected { limit: e.limit, actual: e.actual },
        ),
        _ => None,
    }
}

/// Checks an event for what is an error in every part.
pub fn check_event(ev: &XmlEvent, path: &str) -> (r: Result<(), Error>)
    ensures
        error::plain_result(r) == (match event_fault(ev@, path@) {
            Some(e) => Err(e),
            None => Ok(()),
        }),
{
    match ev {
        XmlEvent::DocType => Err(Error::DoctypeRejected { path: path.to_owned() }),
        XmlEvent::Failure => Err(Error::XmlParse { path: path.to_owned() }),
        XmlEvent::OverCap(e) => Err(Error::ZipBombDetected { limit: e.limit, actual: e.actual }),
        _ => Ok(()),
    }
}

/// The value of the first attribute of the given name, unless something
/// malformed comes before it or it cannot be decoded.
pub open spec fn attr_value(
    attrs: Seq<AttrView>,
    path: Seq<char>,
    name: Seq<char>,
) -> Result<Option<Seq<char>>, ErrorView>
    decreases attrs.len(),
{
    if attrs.len() == 0 {
        Ok(None)
    } else {
        match attrs[0] {
            AttrView::Malformed => Err(ErrorView::XmlParse { path }),
            AttrView::Good { key, value } => if key == name {
                match value {
                    Some(v) => Ok(Some(v)),
                    None => Err(ErrorView::XmlParse { path }),
                }
            } else {
                attr_value(attrs.skip(1), path, name)
            },
        }
    }
}

/// The value of an attribute that must be there.
pub open spec fn required_value(
    attrs: Seq<AttrView>,
    path: Seq<char>,
    name: Seq<char>,
) -> Result<Seq<char>, ErrorView> {
    match attr_value(attrs, path, name) {
        Ok(Some(v)) => Ok(v),
        Ok(None) => Err(ErrorView::MissingRequiredElement { path, name }),
        Err(e) => Err(e),
    }
}

/// Whether attributes state a value under a name: the first of that name has it, and
/// nothing in front of it is malformed.
pub open spec fn states(attrs: Seq<AttrView>, name: Seq<char>, value: Seq<char>) -> bool {
    exists|i: int|
        0 <= i < attrs.len() && (#[trigger] attrs[i]) == (AttrView::Good {
            key: name,
            value: Some(value),
        }) && all_named_otherwise(attrs.take(i), name)
}

/// Whether an attribute is well-formed and has another name.
pub open spec fn is_named_otherwise(attr: AttrView, name: Seq<char>) -> bool {
    attr matches AttrView::Good { key, .. } && key != name
}

/// Whether attributes are all well-formed and none has the given name.
pub open spec fn all_named_otherwise(attrs: Seq<AttrView>, name: Seq<char>) -> bool {
    forall|i: int|
        0 <= i < attrs.len() ==> is_named_otherwise(#[trigger] attrs[i], name)
}

/// Whether attributes state a value under a name, or have no such attribute.
pub open spec fn states_opt(
    attrs: Seq<AttrView>,
    name: Seq<char>,
    value: Option<Seq<char>>,
) -> bool {
    match value {
        Some(v) => states(attrs, name, v),
        None => all_named_otherwise(attrs, name),
    }
}

/// The event that a tag is: a start tag, or an empty-element tag.
pub open spec fn element(tag: TagView, empty: bool) -> EventView {
    if empty {
        EventView::Empty(tag)
    } else {
        EventView::Start(tag)
    }
}

/// The text that events carry: plain text and references, one after the other.
/// Nothing if there is an event of another kind among them, or one that stands for no
/// text.
pub open spec fn carried_text(events: Seq<EventView>) -> Option<Seq<char>>
    decreases events.len(),
{
    if events.len() == 0 {
        Some(Seq::empty())
    } else {
        match (carried_text(events.drop_last()), events.last()) {
            (Some(front), EventView::Text(Some(t))) => Some(front + t),
            (Some(front), EventView::Ref(RefView::Character(c))) => Some(front.push(c)),
            (Some(front), EventView::Ref(RefView::Entity(n))) => match entity_text(n) {
                Some(t) => Some(front + t),
                None => None,
            },
            _ => None,
        }
    }
}

/// An attribute is found by its name, wherever it stands among the others: the value
/// that the first of that name has, and none if there is no such attribute.
pub proof fn law_attributes_are_found_by_name(
    attrs: Seq<AttrView>,
    path: Seq<char>,
    name: Seq<char>,
    value: Seq<char>,
)
    ensures
        states(attrs, name, value) <==> attr_value(attrs, path, name) == Ok::<
            Option<Seq<char>>,
            ErrorView,
        >(Some(value)),
        all_named_otherwise(attrs, name) <==> attr_value(attrs, path, name) == Ok::<
            Option<Seq<char>>,
            ErrorView,
        >(None),
        states(attrs, name, value) ==> required_value(attrs, path, name) == Ok::<
            Seq<char>,
            ErrorView,
        >(value),
        all_named_otherwise(attrs, name) ==> required_value(attrs, path, name) == Err::<
            Seq<char>,
            ErrorView,
        >(ErrorView::MissingRequiredElement { path, name }),
    decreases attrs.len(),
{
    if attrs.len() > 0 {
        let rest = attrs.skip(1);
        law_attributes_are_found_by_name(rest, path, name, value);
        if all_named_otherwise(attrs, name) {
            assert forall|i: int| 0 <= i < rest.len() implies is_named_otherwise(
                #[trigger] rest[i],
                name,
            ) by {
                assert(rest[i] == attrs[i + 1]);
            }
            assert(attrs[0] is Good);
        }
        if attrs[0] is Good && attrs[0]->key != name {
            if all_named_otherwise(rest, name) {
                assert forall|i: int| 0 <= i < attrs.len() implies is_named_otherwise(
                    #[trigger] attrs[i],
                    name,
                ) by {
                    if i > 0 {
                        assert(rest[i - 1] == attrs[i]);
                    }
                }
            }
            if states(rest, name, value) {
                let i = choose|i: int|
                    0 <= i < rest.len() && (#[trigger] rest[i]) == (AttrView::Good {
                        key: name,
                        value: Some(value),
                    }) && all_named_otherwise(rest.take(i), name);
                assert(attrs[i + 1] == rest[i]);
                assert forall|k: int| 0 <= k < i + 1 implies is_named_otherwise(
                    #[trigger] attrs.take(i + 1)[k],
                    name,
                ) by {
                    if k > 0 {
                        assert(rest.take(i)[k - 1] == attrs.take(i + 1)[k]);
                    }
                }
            }
            if states(attrs, name, value) {
                let i = choose|i: int|
                    0 <= i < attrs.len() && (#[trigger] attrs[i]) == (AttrView::Good {
                        key: name,
                        value: Some(value),
                    }) && all_named_otherwise(attrs.take(i), name);
                assert(i > 0);
                assert(attrs[i] == rest[i - 1]);
                assert forall|k: int| 0 <= k < i - 1 implies is_named_otherwise(
                    #[trigger] rest.take(i - 1)[k],
                    name,
                ) by {
                    assert(rest.take(i - 1)[k] == attrs.take(i)[k + 1]);
                }
            }
        } else {
            if states(attrs, name, value) {
                let i = choose|i: int|
                    0 <= i < attrs.len() && (#[trigger] attrs[i]) == (AttrView::Good {
                        key: name,
                        value: Some(value),
                    }) && all_named_otherwise(attrs.take(i), name);
                if i > 0 {
                    assert(attrs.take(i)[0] == attrs[0]);
                }
            }
            if attrs[0] == (AttrView::Good { key: name, value: Some(value) }) {
                assert(all_named_otherwise(attrs.take(0), name));
            }
        }
    }
}

/// What an attribute that may be absent reads as.
pub proof fn lemma_attribute(
    attrs: Seq<AttrView>,
    path: Seq<char>,
    name: Seq<char>,
    value: Option<Seq<char>>,
)
    requires
        states_opt(attrs, name, value),
    ensures
        attr_value(attrs, path, name) == Ok::<Option<Seq<char>>, ErrorView>(value),
{
    let v = match value {
        Some(v) => v,
        None => Seq::empty(),
    };
    law_attributes_are_found_by_name(attrs, path, name, v);
}

/// Whether all attributes are well-formed and can be decoded.
pub open spec fn are_sound(attrs: Seq<AttrView>) -> bool {
    forall|i: int|
        0 <= i < attrs.len() ==> (#[trigger] attrs[i] matches AttrView::Good { value: Some(_), .. })
}

/// Asking sound attributes for one of them is no error.
pub proof fn lemma_sound(attrs: Seq<AttrView>, path: Seq<char>, name: Seq<char>)
    requires
        are_sound(attrs),
    ensures
        attr_value(attrs, path, name) is Ok,
    decreases attrs.len(),
{
    if attrs.len() > 0 {
        let rest = attrs.skip(1);
        assert(attrs[0] is Good);
        assert forall|i: int| 0 <= i < rest.len() implies (#[trigger] rest[i] matches AttrView::Good {
            value: Some(_),
            ..
        }) by {
            assert(rest[i] == attrs[i + 1]);
        }
        lemma_sound(rest, path, name);
    }
}

/// Something malformed in front of an attribute, or an attribute that cannot be
/// decoded, is an error.
pub proof fn law_malformed_attributes_are_not_passed_over(
    attrs: Seq<AttrView>,
    path: Seq<char>,
    name: Seq<char>,
    i: int,
)
    requires
        0 <= i < attrs.len(),
        all_named_otherwise(attrs.take(i), name),
        attrs[i] is Malformed || attrs[i] == (AttrView::Good { key: name, value: None }),
    ensures
        attr_value(attrs, path, name) == Err::<Option<Seq<char>>, ErrorView>(
            ErrorView::XmlParse { path },
        ),
    decreases attrs.len(),
{
    if i > 0 {
        let rest = attrs.skip(1);
        assert(attrs.take(i)[0] == attrs[0]);
        assert forall|k: int| 0 <= k < i - 1 implies is_named_otherwise(
                    #[trigger] rest.take(i - 1)[k],
                    name,
                ) by {
            assert(rest.take(i - 1)[k] == attrs.take(i)[k + 1]);
        }
        law_malformed_attributes_are_not_passed_over(rest, path, name, i - 1);
    }
}

/// The view of a result that may hold a string.
pub open spec fn opt_text_result(r: Result<Option<String>, Error>) -> Result<
    Option<Seq<char>>,
    ErrorView,
> {
    match r {
        Ok(s) => Ok(text::text_opt(s)),
        Err(e) => Err(e@),
    }
}

/// Reads an attribute that may be absent.
pub fn optional_attr(tag: &XmlTag, path: &str, name: &str) -> (r: Result<Option<String>, Error>)
    ensures
        opt_text_result(r) == attr_value(tag@.attrs, path@, name@),
{
    let ghost all = tag@.attrs;
    let mut i: usize = 0;
    assert(all.skip(0) =~= all);
    while i < tag.attrs.len()
        invariant
            i <= tag.attrs@.len(),
            all == attr_views(tag.attrs@),
            attr_value(all.skip(i as int), path@, name@) == attr_value(all, path@, name@),
        decreases tag.attrs@.len() - i,
    {
        proof {
            assert(all.skip(i as int)[0] == tag.attrs@[i as int]@);
            assert(all.skip(i as int).skip(1) =~= all.skip(i + 1));
        }
        match &tag.attrs[i] {
            XmlAttr::Malformed => {
                return Err(Error::XmlParse { path: path.to_owned() });
            },
            XmlAttr::Good { key, value } => {
                if text::same(key.as_str(), name) {
                    return match value {
                        Some(v) => Ok(Some(v.clone())),
                        None => Err(Error::XmlParse { path: path.to_owned() }),
                    };
                }
            },
        }
        i += 1;
    }
    Ok(None)
}

/// Reads an attribute that must be there.
pub fn required_attr(tag: &XmlTag, path: &str, name: &'static str) -> (r: Result<String, Error>)
    ensures
        error::result_view(r) == required_value(tag@.attrs, path@, name@),
{
    match optional_attr(tag, path, name) {
        Ok(Some(v)) => Ok(v),
        Ok(None) => Err(Error::MissingRequiredElement { path: path.to_owned(), name }),
        Err(e) => Err(e),
    }
}

/// The text that a reference stands for.
pub open spec fn reference_text(r: RefView) -> Option<Seq<char>> {
    match r {
        RefView::Character(c) => Some(seq![c]),
        RefView::Entity(n) => entity_text(n),
        RefView::Undecodable => None,
    }
}

/// Appends the text that a reference stands for.
pub fn push_general_ref(out: &mut String, r: &XmlRef, path: &str) -> (res: Result<(), Error>)
    ensures
        match reference_text(r@) {
            Some(t) => res is Ok && final(out)@ == old(out)@ + t,
            None => final(out)@ == old(out)@ && (res matches Err(e) && e@ == (
            ErrorView::XmlParse { path: path@ })),
        },
{
    match r {
        XmlRef::Character(c) => {
            out.push(*c);
            assert(out@ =~= old(out)@ + seq![*c]);
            Ok(())
        },
        XmlRef::Entity(name) => match predefined_entity(name.as_str()) {
            Some(t) => {
                text::push_text(out, t);
                Ok(())
            },
            None => Err(Error::XmlParse { path: path.to_owned() }),
        },
        XmlRef::Undecodable => Err(Error::XmlParse { path: path.to_owned() }),
    }
}

} // verus!
