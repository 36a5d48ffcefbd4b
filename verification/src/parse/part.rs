//! Reading a part: a state machine that takes the part's events one by one.
use crate::container::data::{PartData, PartView};
use crate::error::{Error, ErrorView};
use crate::parse::xml;
use crate::parse::xml::{EventView, XmlEvent, XmlSource};
use vstd::prelude::*;

verus! {

/// What reads one kind of part. Its view is the state that it has reached.
pub trait PartParser: View + Sized {
    /// What holds of every state.
    spec fn inv(&self) -> bool;

    /// Whether nothing that follows matters any more.
    spec fn finished(state: Self::V) -> bool;

    /// The state after one more event.
    spec fn advance(state: Self::V, ev: EventView, path: Seq<char>) -> Result<Self::V, ErrorView>;

    fn is_finished(&self) -> (r: bool)
        ensures
            r == Self::finished(self@),
    ;

    fn step(&mut self, ev: &XmlEvent, path: &str) -> (r: Result<(), Error>)
        requires
            old(self).inv(),
        ensures
            match Self::advance(old(self)@, ev@, path@) {
                Ok(s) => r is Ok && final(self)@ == s && final(self).inv(),
                Err(f) => r matches Err(e) && e@ == f,
            },
    ;
}

/// The state after one more event, if it has not finished before and the event
/// is no error by itself.
pub open spec fn next_state<P: PartParser>(
    state: P::V,
    ev: EventView,
    path: Seq<char>,
) -> Result<P::V, ErrorView> {
    if P::finished(state) {
        Ok(state)
    } else {
        match xml::event_fault(ev, path) {
            Some(e) => Err(e),
            None => P::advance(state, ev, path),
        }
    }
}

/// The state after a sequence of events.
pub open spec fn state_after<P: PartParser>(
    state: P::V,
    events: Seq<EventView>,
    path: Seq<char>,
) -> Result<P::V, ErrorView>
    decreases events.len(),
{
    if events.len() == 0 {
        Ok(state)
    } else {
        match state_after::<P>(state, events.drop_last(), path) {
            Ok(s) => next_state::<P>(s, events.last(), path),
            Err(e) => Err(e),
        }
    }
}

/// Events that follow an error do not change it.
pub proof fn lemma_error_stays<P: PartParser>(
    state: P::V,
    events: Seq<EventView>,
    path: Seq<char>,
    k: int,
)
    requires
        0 <= k <= events.len(),
        state_after::<P>(state, events.take(k), path) is Err,
    ensures
        state_after::<P>(state, events, path) == state_after::<P>(state, events.take(k), path),
    decreases events.len(),
{
    if k == events.len() {
        assert(events.take(k) =~= events);
    } else {
        assert(events.drop_last().take(k) =~= events.take(k));
        lemma_error_stays::<P>(state, events.drop_last(), path, k);
    }
}

/// Events that follow a finished state do not change it.
pub proof fn lemma_finished_stays<P: PartParser>(
    state: P::V,
    events: Seq<EventView>,
    path: Seq<char>,
    k: int,
)
    requires
        0 <= k <= events.len(),
        state_after::<P>(state, events.take(k), path) matches Ok(s) && P::finished(s),
    ensures
        state_after::<P>(state, events, path) == state_after::<P>(state, events.take(k), path),
    decreases events.len(),
{
    if k == events.len() {
        assert(events.take(k) =~= events);
    } else {
        assert(events.drop_last().take(k) =~= events.take(k));
        lemma_finished_stays::<P>(state, events.drop_last(), path, k);
    }
}

/// The state after one more event follows from the state before it.
pub proof fn lemma_one_more<P: PartParser>(
    state: P::V,
    events: Seq<EventView>,
    ev: EventView,
    path: Seq<char>,
)
    ensures
        state_after::<P>(state, events.push(ev), path) == match state_after::<P>(
            state,
            events,
            path,
        ) {
            Ok(s) => next_state::<P>(s, ev, path),
            Err(e) => Err(e),
        },
{
    assert(events.push(ev).drop_last() =~= events);
}

/// The state after a part of a sequence follows from the state one event before.
pub proof fn lemma_step_at<P: PartParser>(
    state: P::V,
    events: Seq<EventView>,
    path: Seq<char>,
    k: int,
)
    requires
        0 <= k < events.len(),
    ensures
        state_after::<P>(state, events.take(0), path) == Ok::<P::V, ErrorView>(state),
        events.take(events.len() as int) == events,
        state_after::<P>(state, events.take(k + 1), path) == match state_after::<P>(
            state,
            events.take(k),
            path,
        ) {
            Ok(s) => next_state::<P>(s, events[k], path),
            Err(e) => Err(e),
        },
{
    assert(events.take(events.len() as int) =~= events);
    assert(events.take(k + 1).drop_last() =~= events.take(k));
    assert(events.take(k + 1).last() == events[k]);
}

/// Reading goes on after some events from the state that they led to.
pub proof fn lemma_continued<P: PartParser>(
    state: P::V,
    events: Seq<EventView>,
    more: Seq<EventView>,
    path: Seq<char>,
)
    ensures
        state_after::<P>(state, events + more, path) == match state_after::<P>(
            state,
            events,
            path,
        ) {
            Ok(s) => state_after::<P>(s, more, path),
            Err(e) => Err(e),
        },
    decreases more.len(),
{
    if more.len() == 0 {
        assert(events + more =~= events);
    } else {
        lemma_continued::<P>(state, events, more.drop_last(), path);
        assert((events + more).drop_last() =~= events + more.drop_last());
        assert((events + more).last() == more.last());
    }
}

/// A part that is read in full had no document type declaration in it, nor a place
/// where it stops being well-formed, unless nothing mattered any more by then.
pub proof fn law_faults_are_not_passed_over<P: PartParser>(
    state: P::V,
    events: Seq<EventView>,
    path: Seq<char>,
    i: int,
)
    requires
        state_after::<P>(state, events, path) is Ok,
        0 <= i < events.len(),
        xml::event_fault(events[i], path) is Some,
    ensures
        state_after::<P>(state, events.take(i), path) matches Ok(s) && P::finished(s),
    decreases events.len(),
{
    let front = events.drop_last();
    if i == events.len() - 1 {
        assert(events.take(i) =~= front);
    } else {
        assert(front.take(i) =~= events.take(i));
        assert(front[i] == events[i]);
        law_faults_are_not_passed_over::<P>(state, front, path, i);
    }
}

/// A document type declaration is what is wrong with a part, whatever follows it,
/// if nothing went wrong before.
pub proof fn law_document_types_are_rejected<P: PartParser>(
    state: P::V,
    events: Seq<EventView>,
    path: Seq<char>,
    i: int,
)
    requires
        0 <= i < events.len(),
        events[i] is DocType,
        state_after::<P>(state, events.take(i), path) matches Ok(s) && !P::finished(s),
    ensures
        state_after::<P>(state, events, path) == Err::<P::V, ErrorView>(
            ErrorView::DoctypeRejected { path },
        ),
{
    assert(events.take(i + 1).drop_last() =~= events.take(i));
    lemma_error_stays::<P>(state, events, path, i + 1);
}

/// How many events a parser takes: all, or as many as it needs to finish.
pub open spec fn events_needed<P: PartParser>(
    state: P::V,
    events: Seq<EventView>,
    path: Seq<char>,
) -> nat
    decreases events.len(),
{
    if events.len() == 0 {
        0
    } else {
        match state_after::<P>(state, events.drop_last(), path) {
            Ok(s) if P::finished(s) => events_needed::<P>(state, events.drop_last(), path),
            _ => events.len(),
        }
    }
}

/// How many bytes of a part a parser takes.
pub open spec fn bytes_needed<P: PartParser>(state: P::V, part: PartView, path: Seq<char>) -> u64 {
    xml::used(part.bytes, events_needed::<P>(state, xml::part_events(part), path))
}

proof fn lemma_not_finished_before<P: PartParser>(
    state: P::V,
    events: Seq<EventView>,
    path: Seq<char>,
    k: int,
)
    requires
        0 <= k <= events.len(),
        state_after::<P>(state, events.take(k), path) matches Ok(s) && P::finished(s),
        events_needed::<P>(state, events.take(k), path) == k,
    ensures
        events_needed::<P>(state, events, path) == k,
    decreases events.len(),
{
    if k == events.len() {
        assert(events.take(k) =~= events);
    } else {
        let front = events.drop_last();
        assert(front.take(k) =~= events.take(k));
        lemma_not_finished_before::<P>(state, front, path, k);
        lemma_finished_stays::<P>(state, front, path, k);
    }
}

/// Takes a part through a parser, and counts how many of its bytes that took.
pub fn read_part_counted<P: PartParser>(parser: P, part: &PartData, path: &str) -> (r: Result<
    (P, u64),
    Error,
>)
    requires
        parser.inv(),
    ensures
        match state_after::<P>(parser@, xml::part_events(part@), path@) {
            Ok(s) => r matches Ok(p) && p.0@ == s && p.0.inv() && p.1 == bytes_needed::<P>(
                parser@,
                part@,
                path@,
            ),
            Err(f) => r matches Err(e) && e@ == f,
        },
{
    let ghost all = xml::part_events(part@);
    let ghost start = parser@;
    let mut p: P = parser;
    let mut source: XmlSource<'_> = XmlSource::new(part);
    let mut count: u64 = 0;
    let mut i: Ghost<int> = Ghost(0);
    assert(all.take(0) =~= Seq::<EventView>::empty());
    assert(all.skip(0) =~= all);
    loop
        invariant
            0 <= i@ < all.len(),
            xml::terminated(all),
            all == xml::part_events(part@),
            source.is_over_part(),
            source.part() == part@,
            source.taken() == i@,
            source.pending() == all.skip(i@),
            count == xml::used(part@.bytes, i@ as nat),
            start == parser@,
            p.inv(),
            state_after::<P>(start, all.take(i@), path@) == Ok::<P::V, ErrorView>(p@),
            events_needed::<P>(start, all.take(i@), path@) == i@,
        decreases all.len() - i@,
    {
        if p.is_finished() {
            proof {
                lemma_finished_stays::<P>(start, all, path@, i@);
                lemma_not_finished_before::<P>(start, all, path@, i@);
            }
            return Ok((p, count));
        }
        let ev: XmlEvent = source.next();
        count = source.used();
        proof {
            assert(ev@ == all[i@]);
            assert(all.take(i@ + 1).drop_last() =~= all.take(i@));
            assert(all.skip(i@).skip(1) =~= all.skip(i@ + 1));
        }
        match xml::check_event(&ev, path) {
            Ok(()) => {},
            Err(e) => {
                proof {
                    lemma_error_stays::<P>(start, all, path@, i@ + 1);
                }
                return Err(e);
            },
        }
        match p.step(&ev, path) {
            Ok(()) => {},
            Err(e) => {
                proof {
                    lemma_error_stays::<P>(start, all, path@, i@ + 1);
                }
                return Err(e);
            },
        }
        if let XmlEvent::Eof = ev {
            proof {
                assert(xml::is_last(all[i@]));
                assert(i@ == all.len() - 1);
                assert(all.take(i@ + 1) =~= all);
            }
            return Ok((p, count));
        }
        i = Ghost(i@ + 1);
    }
}

/// Takes a part through a parser.
pub fn read_part<P: PartParser>(parser: P, part: &PartData, path: &str) -> (r: Result<P, Error>)
    requires
        parser.inv(),
    ensures
        match state_after::<P>(parser@, xml::part_events(part@), path@) {
            Ok(s) => r matches Ok(p) && p@ == s && p.inv(),
            Err(f) => r matches Err(e) && e@ == f,
        },
{
    match read_part_counted(parser, part, path) {
        Ok(read) => Ok(read.0),
        Err(e) => Err(e),
    }
}

} // verus!
