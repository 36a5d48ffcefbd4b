//! Relationship parts: which targets a part refers to, by identifier.
use crate::container::data::PartData;
use crate::error;
use crate::error::{Error, ErrorView};
use crate::parse::part;
use crate::parse::part::PartParser;
use crate::parse::xml;
use crate::parse::xml::{EventView, TagView, XmlEvent, XmlTag};
use crate::text;
use vstd::prelude::*;

verus! {

/// Whether a relationship leads to a part of the package or out of it.
#[derive(Debug, Clone, Copy, PartialEq, Eq, Structural)]
pub enum TargetMode {
    Internal,
    External,
}

/// One relationship.
#[derive(Debug, Clone, PartialEq, Eq)]
pub struct Relationship {
    pub id: String,
    /// The full address of the relationship's type.
    pub rel_type: String,
    /// The path of a part, or an outside address as it is written.
    pub target: String,
    pub target_mode: TargetMode,
}

/// A relationship as contracts speak of it.
#[verifier::ext_equal]
pub struct RelView {
    pub id: Seq<char>,
    pub rel_type: Seq<char>,
    pub target: Seq<char>,
    pub target_mode: TargetMode,
}

impl View for Relationship {
    type V = RelView;

    open spec fn view(&self) -> RelView {
        RelView {
            id: self.id@,
            rel_type: self.rel_type@,
            target: self.target@,
            target_mode: self.target_mode,
        }
    }
}

// ---------------------------------------------------------------------------
// Target paths

/// The pieces of a list that are not empty.
pub open spec fn nonempty(parts: Seq<Seq<char>>) -> Seq<Seq<char>>
    decreases parts.len(),
{
    if parts.len() == 0 {
        parts
    } else {
        let front = nonempty(parts.drop_last());
        if parts.last().len() == 0 {
            front
        } else {
            front.push(parts.last())
        }
    }
}

/// The segments that are left after walking along `parts` from `base`: an empty
/// piece and `.` lead nowhere, `..` goes up unless there is nothing above.
pub open spec fn walked(base: Seq<Seq<char>>, parts: Seq<Seq<char>>) -> Seq<Seq<char>>
    decreases parts.len(),
{
    if parts.len() == 0 {
        base
    } else {
        let at = walked(base, parts.drop_last());
        let p = parts.last();
        if p.len() == 0 || p == seq!['.'] {
            at
        } else if p == seq!['.', '.'] {
            if at.len() == 0 {
                at
            } else {
                at.drop_last()
            }
        } else {
            at.push(p)
        }
    }
}

/// Segments put together with slashes.
pub open spec fn joined(segments: Seq<Seq<char>>) -> Seq<char>
    decreases segments.len(),
{
    if segments.len() == 0 {
        Seq::empty()
    } else if segments.len() == 1 {
        segments[0]
    } else {
        joined(segments.drop_last()) + seq!['/'] + segments.last()
    }
}

/// The segments that a target resolves to: from the package's root if it begins
/// with a slash, else from `base_dir`.
pub open spec fn target_segments(base_dir: Seq<char>, target: Seq<char>) -> Seq<Seq<char>> {
    let base = if target.len() > 0 && target[0] == '/' {
        Seq::empty()
    } else {
        nonempty(text::split(base_dir, '/'))
    };
    walked(base, text::split(target, '/'))
}

/// The path that a target resolves to.
pub open spec fn target_path(base_dir: Seq<char>, target: Seq<char>) -> Seq<char> {
    joined(target_segments(base_dir, target))
}

/// Whether no segment is empty, `.` or `..`.
pub open spec fn plain_segments(segments: Seq<Seq<char>>) -> bool {
    forall|i: int|
        0 <= i < segments.len() ==> (#[trigger] segments[i]).len() > 0 && segments[i] != seq!['.']
            && segments[i] != seq!['.', '.']
}

proof fn lemma_walked_plain(base: Seq<Seq<char>>, parts: Seq<Seq<char>>)
    requires
        plain_segments(base),
    ensures
        plain_segments(walked(base, parts)),
    decreases parts.len(),
{
    if parts.len() > 0 {
        lemma_walked_plain(base, parts.drop_last());
    }
}

/// Resolving a target from a directory without `.` and `..` segments gives
/// a path that has none either, however many `..` the target holds.
pub proof fn law_targets_resolve_inside_the_package(base_dir: Seq<char>, target: Seq<char>)
    requires
        plain_segments(nonempty(text::split(base_dir, '/'))),
    ensures
        plain_segments(target_segments(base_dir, target)),
{
    let base = if target.len() > 0 && target[0] == '/' {
        Seq::empty()
    } else {
        nonempty(text::split(base_dir, '/'))
    };
    lemma_walked_plain(base, text::split(target, '/'));
}

/// A target that begins with a slash resolves the same from every directory.
pub proof fn law_absolute_targets_ignore_the_directory(
    a: Seq<char>,
    b: Seq<char>,
    target: Seq<char>,
)
    requires
        target.len() > 0,
        target[0] == '/',
    ensures
        target_path(a, target) == target_path(b, target),
{
}

/// Whether no segment holds a slash.
pub open spec fn slash_free(segments: Seq<Seq<char>>) -> bool {
    forall|i: int| 0 <= i < segments.len() ==> !(#[trigger] segments[i]).contains('/')
}

proof fn lemma_split_slash_free(s: Seq<char>)
    ensures
        slash_free(text::split(s, '/')),
    decreases s.len(),
{
    s.index_of_first_ensures('/');
    if s.contains('/') {
        let i = s.index_of_first('/')->0;
        lemma_split_slash_free(s.skip(i + 1));
        assert forall|k: int| 0 <= k < text::split(s, '/').len() implies !(#[trigger] text::split(
            s,
            '/',
        )[k]).contains('/') by {
            if k > 0 {
                assert(text::split(s, '/')[k] == text::split(s.skip(i + 1), '/')[k - 1]);
            }
        }
    }
}

proof fn lemma_nonempty_slash_free(parts: Seq<Seq<char>>)
    requires
        slash_free(parts),
    ensures
        slash_free(nonempty(parts)),
    decreases parts.len(),
{
    if parts.len() > 0 {
        lemma_nonempty_slash_free(parts.drop_last());
    }
}

proof fn lemma_walked_slash_free(base: Seq<Seq<char>>, parts: Seq<Seq<char>>)
    requires
        slash_free(base),
        slash_free(parts),
    ensures
        slash_free(walked(base, parts)),
    decreases parts.len(),
{
    if parts.len() > 0 {
        lemma_walked_slash_free(base, parts.drop_last());
    }
}

proof fn lemma_walk_plain(segments: Seq<Seq<char>>)
    requires
        plain_segments(segments),
    ensures
        walked(Seq::empty(), segments) == segments,
    decreases segments.len(),
{
    if segments.len() > 0 {
        lemma_walk_plain(segments.drop_last());
        assert(plain_segments(segments) && segments.last() == segments[segments.len() - 1]);
        assert(segments.drop_last().push(segments.last()) =~= segments);
    }
}

proof fn lemma_split_of_joined(segments: Seq<Seq<char>>)
    requires
        segments.len() > 0,
        plain_segments(segments),
        slash_free(segments),
    ensures
        text::split(joined(segments), '/') == segments,
        joined(segments).len() > 0,
        joined(segments)[0] != '/',
    decreases segments.len(),
{
    if segments.len() == 1 {
        assert(!segments[0].contains('/') && segments[0].len() > 0);
        text::lemma_split_one_piece(segments[0], '/');
        assert(segments =~= seq![segments[0]]);
        assert(segments[0].contains(segments[0][0]));
    } else {
        let front = segments.drop_last();
        let last = segments.last();
        lemma_split_of_joined(front);
        assert(last == segments[segments.len() - 1] && !last.contains('/'));
        text::lemma_split_one_piece(last, '/');
        text::lemma_split_joined(joined(front), last, '/');
        assert(front + seq![last] =~= segments);
    }
}

proof fn lemma_walk_after_empty(parts: Seq<Seq<char>>)
    ensures
        walked(Seq::empty(), seq![Seq::<char>::empty()] + parts) == walked(Seq::empty(), parts),
    decreases parts.len(),
{
    let none = seq![Seq::<char>::empty()];
    if parts.len() == 0 {
        assert(none + parts =~= none);
        assert(none.drop_last() =~= parts);
        assert(walked(Seq::empty(), none) == walked(Seq::empty(), none.drop_last()));
    } else {
        lemma_walk_after_empty(parts.drop_last());
        assert((none + parts).drop_last() =~= none + parts.drop_last());
        assert((none + parts).last() == parts.last());
    }
}

/// A path that a target has resolved to, from a directory without `.` and `..`
/// segments, resolves to itself from the package's root, and so it does from
/// anywhere with a slash put in front.
pub proof fn law_resolved_targets_resolve_to_themselves(
    base_dir: Seq<char>,
    target: Seq<char>,
    from: Seq<char>,
)
    requires
        plain_segments(nonempty(text::split(base_dir, '/'))),
    ensures
        target_path(Seq::empty(), target_path(base_dir, target)) == target_path(base_dir, target),
        target_path(from, seq!['/'] + target_path(base_dir, target)) == target_path(
            base_dir,
            target,
        ),
{
    let segments = target_segments(base_dir, target);
    let path = joined(segments);
    law_targets_resolve_inside_the_package(base_dir, target);
    lemma_split_slash_free(base_dir);
    lemma_split_slash_free(target);
    lemma_nonempty_slash_free(text::split(base_dir, '/'));
    lemma_walked_slash_free(
        if target.len() > 0 && target[0] == '/' {
            Seq::empty()
        } else {
            nonempty(text::split(base_dir, '/'))
        },
        text::split(target, '/'),
    );
    let none = Seq::<char>::empty();
    let root = Seq::<Seq<char>>::empty();
    assert(nonempty(text::split(none, '/')) =~= root) by {
        text::lemma_split_one_piece(none, '/');
        assert(seq![none].drop_last() =~= root);
        assert(nonempty(seq![none].drop_last()) =~= root);
    }
    assert(walked(root, seq![none]) == root) by {
        assert(seq![none].drop_last() =~= root);
        assert(walked(root, seq![none].drop_last()) == root);
    }
    text::lemma_split_one_piece(none, '/');
    if segments.len() == 0 {
        text::lemma_split_joined(none, none, '/');
        assert(none + seq!['/'] + none =~= seq!['/'] + path);
        let both = seq![none] + seq![none];
        assert(both.drop_last() =~= seq![none]);
        assert(walked(root, both) == walked(root, both.drop_last()));
    } else {
        lemma_split_of_joined(segments);
        lemma_walk_plain(segments);
        text::lemma_split_joined(none, path, '/');
        assert(none + seq!['/'] + path =~= seq!['/'] + path);
        lemma_walk_after_empty(segments);
    }
}

proof fn lemma_walk_on(base: Seq<Seq<char>>, a: Seq<Seq<char>>, b: Seq<Seq<char>>)
    ensures
        walked(base, a + b) == walked(walked(base, a), b),
    decreases b.len(),
{
    if b.len() == 0 {
        assert(a + b =~= a);
    } else {
        lemma_walk_on(base, a, b.drop_last());
        assert((a + b).drop_last() =~= a + b.drop_last());
        assert((a + b).last() == b.last());
    }
}

proof fn lemma_walk_down(base: Seq<Seq<char>>, segments: Seq<Seq<char>>)
    requires
        plain_segments(segments),
    ensures
        walked(base, segments) == base + segments,
    decreases segments.len(),
{
    if segments.len() == 0 {
        assert(base + segments =~= base);
    } else {
        lemma_walk_down(base, segments.drop_last());
        assert(segments[segments.len() - 1] == segments.last());
        assert((base + segments.drop_last()).push(segments.last()) =~= base + segments);
    }
}

proof fn lemma_all_nonempty(segments: Seq<Seq<char>>)
    requires
        plain_segments(segments),
    ensures
        nonempty(segments) == segments,
    decreases segments.len(),
{
    if segments.len() > 0 {
        lemma_all_nonempty(segments.drop_last());
        assert(segments[segments.len() - 1] == segments.last());
        assert(segments.drop_last().push(segments.last()) =~= segments);
    }
}

proof fn lemma_base(dirs: Seq<Seq<char>>)
    requires
        plain_segments(dirs),
        slash_free(dirs),
    ensures
        nonempty(text::split(joined(dirs), '/')) == dirs,
{
    if dirs.len() == 0 {
        let none = Seq::<char>::empty();
        text::lemma_split_one_piece(none, '/');
        assert(seq![none].drop_last() =~= Seq::<Seq<char>>::empty());
        assert(nonempty(seq![none].drop_last()) =~= Seq::<Seq<char>>::empty());
        assert(nonempty(seq![none]) =~= dirs);
    } else {
        lemma_split_of_joined(dirs);
        lemma_all_nonempty(dirs);
    }
}

/// A target is looked for from the directory that it is given for: a plain one below
/// it, one with `..` in front beside it, and one with a slash in front below the
/// package's root.
pub proof fn law_targets_lie_where_they_say(dirs: Seq<Seq<char>>, segments: Seq<Seq<char>>)
    requires
        plain_segments(dirs),
        slash_free(dirs),
        plain_segments(segments),
        slash_free(segments),
        segments.len() > 0,
    ensures
        target_path(joined(dirs), joined(segments)) == joined(dirs + segments),
        target_path(joined(dirs), seq!['.', '.', '/'] + joined(segments)) == joined(
            if dirs.len() > 0 {
                dirs.drop_last() + segments
            } else {
                segments
            },
        ),
        target_path(joined(dirs), seq!['.', '/'] + joined(segments)) == joined(dirs + segments),
        target_path(joined(dirs), seq!['/'] + joined(segments)) == joined(segments),
{
    let t = joined(segments);
    let none = Seq::<Seq<char>>::empty();
    lemma_base(dirs);
    lemma_split_of_joined(segments);
    lemma_walk_down(dirs, segments);
    let up = seq!['.', '.'];
    let here = seq!['.'];
    assert(!up.contains('/') && !here.contains('/') && !Seq::<char>::empty().contains('/'));
    text::lemma_split_one_piece(up, '/');
    text::lemma_split_one_piece(here, '/');
    text::lemma_split_one_piece(Seq::empty(), '/');
    text::lemma_split_joined(up, t, '/');
    text::lemma_split_joined(here, t, '/');
    text::lemma_split_joined(Seq::empty(), t, '/');
    assert(up + seq!['/'] + t =~= seq!['.', '.', '/'] + t);
    assert(here + seq!['/'] + t =~= seq!['.', '/'] + t);
    assert(Seq::<char>::empty() + seq!['/'] + t =~= seq!['/'] + t);
    lemma_walk_on(dirs, seq![up], segments);
    lemma_walk_on(dirs, seq![here], segments);
    lemma_walk_after_empty(segments);
    lemma_walk_down(none, segments);
    assert(none + segments =~= segments);
    assert(seq![up].drop_last() =~= none && seq![here].drop_last() =~= none);
    assert(walked(dirs, none) == dirs);
    let above = if dirs.len() > 0 {
        dirs.drop_last()
    } else {
        dirs
    };
    assert(up != here) by {
        assert(up.len() == 2 && here.len() == 1);
    }
    assert(walked(dirs, seq![up]) == above);
    assert(walked(dirs, seq![here]) == dirs);
    lemma_walk_down(above, segments);
}

fn is_dot(s: &Vec<char>) -> (r: bool)
    ensures
        r == (s@ == seq!['.']),
{
    if s.len() == 1 && s[0] == '.' {
        assert(s@ =~= seq!['.']);
        true
    } else {
        assert(s@ == seq!['.'] ==> s@.len() == 1 && s@[0] == '.');
        false
    }
}

fn is_dot_dot(s: &Vec<char>) -> (r: bool)
    ensures
        r == (s@ == seq!['.', '.']),
{
    if s.len() == 2 && s[0] == '.' && s[1] == '.' {
        assert(s@ =~= seq!['.', '.']);
        true
    } else {
        assert(s@ == seq!['.', '.'] ==> s@.len() == 2 && s@[0] == '.' && s@[1] == '.');
        false
    }
}

fn join_segments(segments: &Vec<Vec<char>>) -> (r: String)
    ensures
        r@ == joined(text::texts(segments@)),
{
    let ghost all = text::texts(segments@);
    let mut out: String = String::new();
    let mut i: usize = 0;
    assert(all.take(0) =~= Seq::<Seq<char>>::empty());
    while i < segments.len()
        invariant
            i <= segments@.len(),
            all == text::texts(segments@),
            out@ == joined(all.take(i as int)),
        decreases segments@.len() - i,
    {
        proof {
            assert(all.take(i + 1).drop_last() =~= all.take(i as int));
            assert(all.take(i + 1).last() == segments@[i as int]@);
        }
        if i > 0 {
            out.push('/');
        }
        let seg: String = text::from_chars(&segments[i], 0, segments[i].len());
        assert(seg@ =~= segments@[i as int]@);
        text::push_text(&mut out, seg.as_str());
        i += 1;
        assert(out@ =~= joined(all.take(i as int)));
    }
    assert(all.take(all.len() as int) =~= all);
    out
}

fn base_segments(base_dir: &str) -> (r: Vec<Vec<char>>)
    ensures
        text::texts(r@) == nonempty(text::split(base_dir@, '/')),
{
    let chars: Vec<char> = text::to_chars(base_dir);
    let parts: Vec<Vec<char>> = text::split_chars(&chars, '/');
    let ghost all = text::split(base_dir@, '/');
    let mut out: Vec<Vec<char>> = Vec::new();
    let mut i: usize = 0;
    assert(all.take(0) =~= Seq::<Seq<char>>::empty());
    assert(text::texts(out@) =~= nonempty(all.take(0)));
    while i < parts.len()
        invariant
            i <= parts@.len(),
            all == text::texts(parts@),
            text::texts(out@) == nonempty(all.take(i as int)),
        decreases parts@.len() - i,
    {
        proof {
            assert(all.take(i + 1).drop_last() =~= all.take(i as int));
            assert(all.take(i + 1).last() == parts@[i as int]@);
        }
        if parts[i].len() > 0 {
            let piece: Vec<char> = text::copy_range(&parts[i], 0, parts[i].len());
            assert(piece@ =~= parts@[i as int]@);
            let ghost before = out@;
            out.push(piece);
            assert(text::texts(out@) =~= text::texts(before).push(piece@));
        }
        i += 1;
    }
    assert(all.take(all.len() as int) =~= all);
    out
}

/// Resolves a relationship's target to the path of a part.
pub fn resolve_target_path(base_dir: &str, target: &str) -> (r: String)
    ensures
        r@ == target_path(base_dir@, target@),
{
    let chars: Vec<char> = text::to_chars(target);
    let mut segments: Vec<Vec<char>> = if chars.len() > 0 && chars[0] == '/' {
        let none: Vec<Vec<char>> = Vec::new();
        assert(text::texts(none@) =~= Seq::<Seq<char>>::empty());
        none
    } else {
        base_segments(base_dir)
    };
    let parts: Vec<Vec<char>> = text::split_chars(&chars, '/');
    let ghost base = text::texts(segments@);
    let ghost all = text::split(target@, '/');
    let mut i: usize = 0;
    assert(all.take(0) =~= Seq::<Seq<char>>::empty());
    while i < parts.len()
        invariant
            i <= parts@.len(),
            all == text::texts(parts@),
            text::texts(segments@) == walked(base, all.take(i as int)),
        decreases parts@.len() - i,
    {
        let part: &Vec<char> = &parts[i];
        let ghost before = segments@;
        proof {
            assert(all.take(i + 1).drop_last() =~= all.take(i as int));
            assert(all.take(i + 1).last() == part@);
        }
        if part.len() == 0 || is_dot(part) {
        } else if is_dot_dot(part) {
            if segments.len() > 0 {
                let _ = segments.pop();
                assert(text::texts(segments@) =~= text::texts(before).drop_last());
            }
        } else {
            let piece: Vec<char> = text::copy_range(part, 0, part.len());
            assert(piece@ =~= part@);
            segments.push(piece);
            assert(text::texts(segments@) =~= text::texts(before).push(piece@));
        }
        i += 1;
    }
    assert(all.take(all.len() as int) =~= all);
    join_segments(&segments)
}

// ---------------------------------------------------------------------------
// The map

/// Relationships by identifier.
#[derive(Debug, Clone)]
pub struct RelationshipMap {
    entries: Vec<Relationship>,
}

impl View for RelationshipMap {
    type V = Seq<RelView>;

    closed spec fn view(&self) -> Seq<RelView> {
        self.entries@.map_values(|r: Relationship| r@)
    }
}

/// The place of the relationship with an identifier; the length if there is none.
pub open spec fn place_of(entries: Seq<RelView>, id: Seq<char>) -> int
    decreases entries.len(),
{
    if entries.len() == 0 || entries[0].id == id {
        0
    } else {
        1 + place_of(entries.skip(1), id)
    }
}

/// The relationship with an identifier.
pub open spec fn lookup(entries: Seq<RelView>, id: Seq<char>) -> Option<RelView> {
    let i = place_of(entries, id);
    if i < entries.len() {
        Some(entries[i])
    } else {
        None
    }
}

/// The relationships with one more, which takes the place of one with the same
/// identifier.
pub open spec fn with_entry(entries: Seq<RelView>, rel: RelView) -> Seq<RelView> {
    let i = place_of(entries, rel.id);
    if i < entries.len() {
        entries.update(i, rel)
    } else {
        entries.push(rel)
    }
}

/// The target of the first relationship whose type ends with `suffix`.
pub open spec fn target_of_type(entries: Seq<RelView>, suffix: Seq<char>) -> Option<Seq<char>>
    decreases entries.len(),
{
    if entries.len() == 0 {
        None
    } else if text::ends_with(entries[0].rel_type, suffix) {
        Some(entries[0].target)
    } else {
        target_of_type(entries.skip(1), suffix)
    }
}

proof fn lemma_place_of(entries: Seq<RelView>, id: Seq<char>)
    ensures
        0 <= place_of(entries, id) <= entries.len(),
        place_of(entries, id) < entries.len() ==> entries[place_of(entries, id)].id == id,
        forall|k: int| 0 <= k < place_of(entries, id) ==> (#[trigger] entries[k]).id != id,
    decreases entries.len(),
{
    if entries.len() > 0 && entries[0].id != id {
        lemma_place_of(entries.skip(1), id);
        let p = place_of(entries.skip(1), id);
        assert forall|k: int| 0 <= k < p + 1 implies (#[trigger] entries[k]).id != id by {
            if k > 0 {
                assert(entries.skip(1)[k - 1].id != id);
            }
        }
    }
}

/// After a relationship is put in, its identifier leads to it and every other
/// identifier leads to what it led to before.
pub proof fn law_last_relationship_of_an_id_counts(
    entries: Seq<RelView>,
    rel: RelView,
    id: Seq<char>,
)
    ensures
        lookup(with_entry(entries, rel), id) == if id == rel.id {
            Some(rel)
        } else {
            lookup(entries, id)
        },
{
    let after = with_entry(entries, rel);
    lemma_place_of(entries, rel.id);
    lemma_place_of(entries, id);
    lemma_place_of(after, id);
    let p = place_of(entries, rel.id);
    let q = place_of(after, id);
    let r = place_of(entries, id);
    if id == rel.id {
        if p < entries.len() {
            assert(after[p].id == id);
            if q > p {
                assert(after[p].id != id);
            } else if q < p {
                assert(after[q] == entries[q]);
            }
        } else {
            assert(after[entries.len() as int].id == id);
            if q < entries.len() {
                assert(after[q] == entries[q]);
            }
        }
    } else {
        if r < entries.len() {
            assert(after[r] == entries[r]);
            if q < r {
                assert(after[q].id == id);
                assert(q == p || after[q] == entries[q]);
            }
        } else if q < after.len() {
            assert(q == p || after[q] == entries[q]);
        }
    }
}

/// An identifier leads to the relationship that has it, and to none if none has it.
pub proof fn law_relationships_are_found_by_identifier(
    entries: Seq<RelView>,
    id: Seq<char>,
    k: int,
)
    requires
        forall|j: int| 0 <= j < k ==> (#[trigger] entries[j]).id != id,
        k == entries.len() || (0 <= k < entries.len() && entries[k].id == id),
    ensures
        lookup(entries, id) == if k == entries.len() {
            None
        } else {
            Some(entries[k])
        },
{
    lemma_place_of(entries, id);
    let p = place_of(entries, id);
    if p < k {
        assert(entries[p].id != id);
    }
    if k < p {
        assert(entries[k].id != id);
    }
}

/// A type leads to the target of the first relationship whose type ends with it, and to
/// none if there is none.
pub proof fn law_targets_are_found_by_type(entries: Seq<RelView>, suffix: Seq<char>, k: int)
    requires
        forall|j: int|
            0 <= j < k ==> !text::ends_with((#[trigger] entries[j]).rel_type, suffix),
        k == entries.len() || (0 <= k < entries.len() && text::ends_with(
            entries[k].rel_type,
            suffix,
        )),
    ensures
        target_of_type(entries, suffix) == if k == entries.len() {
            None
        } else {
            Some(entries[k].target)
        },
    decreases entries.len(),
{
    if k > 0 {
        let rest = entries.skip(1);
        assert forall|j: int| 0 <= j < k - 1 implies !text::ends_with(
            (#[trigger] rest[j]).rel_type,
            suffix,
        ) by {
            assert(rest[j] == entries[j + 1]);
        }
        assert(entries[0].rel_type == entries[0].rel_type);
        law_targets_are_found_by_type(rest, suffix, k - 1);
    }
}

impl RelationshipMap {
    /// A map without relationships.
    pub fn new() -> (m: RelationshipMap)
        ensures
            m@ == Seq::<RelView>::empty(),
    {
        let m = RelationshipMap { entries: Vec::new() };
        assert(m@ =~= Seq::<RelView>::empty());
        m
    }

    fn find(&self, id: &str) -> (i: usize)
        ensures
            i == place_of(self@, id@),
            i <= self.entries@.len(),
    {
        let ghost all = self@;
        let mut i: usize = 0;
        assert(all.skip(0) =~= all);
        while i < self.entries.len()
            invariant
                i <= self.entries@.len(),
                all == self@,
                all.len() == self.entries@.len(),
                i + place_of(all.skip(i as int), id@) == place_of(all, id@),
            decreases self.entries@.len() - i,
        {
            proof {
                assert(all.skip(i as int)[0] == self.entries@[i as int]@);
                assert(all.skip(i as int).skip(1) =~= all.skip(i + 1));
            }
            if text::same(self.entries[i].id.as_str(), id) {
                return i;
            }
            i += 1;
        }
        i
    }

    /// Puts a relationship in, in place of one with the same identifier.
    pub fn insert(&mut self, rel: Relationship)
        ensures
            final(self)@ == with_entry(old(self)@, rel@),
    {
        let i: usize = self.find(rel.id.as_str());
        if i < self.entries.len() {
            self.entries.set(i, rel);
            assert(self@ =~= old(self)@.update(i as int, rel@));
        } else {
            self.entries.push(rel);
            assert(self@ =~= old(self)@.push(rel@));
        }
    }

    /// How many relationships there are.
    pub fn len(&self) -> (n: usize)
        ensures
            n == self@.len(),
    {
        self.entries.len()
    }

    /// The relationship with an identifier.
    pub fn get(&self, id: &str) -> (r: Option<&Relationship>)
        ensures
            (match r {
                Some(rel) => Some(rel@),
                None => None,
            }) == lookup(self@, id@),
    {
        let i: usize = self.find(id);
        if i < self.entries.len() {
            assert(self@[i as int] == self.entries@[i as int]@);
            Some(&self.entries[i])
        } else {
            None
        }
    }

    /// The target of the first relationship whose type ends with `suffix`.
    pub fn target_of_type(&self, suffix: &str) -> (r: Option<String>)
        ensures
            text::text_opt(r) == target_of_type(self@, suffix@),
    {
        let ghost all = self@;
        let mut i: usize = 0;
        assert(all.skip(0) =~= all);
        while i < self.entries.len()
            invariant
                i <= self.entries@.len(),
                all == self@,
                all.len() == self.entries@.len(),
                target_of_type(all.skip(i as int), suffix@) == target_of_type(all, suffix@),
            decreases self.entries@.len() - i,
        {
            proof {
                assert(all.skip(i as int)[0] == self.entries@[i as int]@);
                assert(all.skip(i as int).skip(1) =~= all.skip(i + 1));
            }
            if text::text_ends_with(self.entries[i].rel_type.as_str(), suffix) {
                return Some(self.entries[i].target.clone());
            }
            i += 1;
        }
        None
    }
}

// ---------------------------------------------------------------------------
// The parser

/// Relationships being read.
pub struct RelationshipParser {
    pub part_dir: String,
    pub map: RelationshipMap,
}

/// The state of reading relationships.
#[verifier::ext_equal]
pub struct RelState {
    /// The directory of the part that the relationships belong to.
    pub part_dir: Seq<char>,
    pub entries: Seq<RelView>,
}

impl View for RelationshipParser {
    type V = RelState;

    open spec fn view(&self) -> RelState {
        RelState { part_dir: self.part_dir@, entries: self.map@ }
    }
}

/// The relationship that a `Relationship` element states.
pub open spec fn relationship_of(tag: TagView, part_dir: Seq<char>, path: Seq<char>) -> Result<
    RelView,
    ErrorView,
> {
    match xml::required_value(tag.attrs, path, "Id"@) {
        Err(e) => Err(e),
        Ok(id) => match xml::required_value(tag.attrs, path, "Type"@) {
            Err(e) => Err(e),
            Ok(rel_type) => match xml::required_value(tag.attrs, path, "Target"@) {
                Err(e) => Err(e),
                Ok(target) => match xml::attr_value(tag.attrs, path, "TargetMode"@) {
                    Err(e) => Err(e),
                    Ok(mode) => if mode == Some("External"@) {
                        Ok(RelView { id, rel_type, target, target_mode: TargetMode::External })
                    } else {
                        Ok(
                            RelView {
                                id,
                                rel_type,
                                target: target_path(part_dir, target),
                                target_mode: TargetMode::Internal,
                            },
                        )
                    },
                },
            },
        },
    }
}

/// Reads a `Relationship` element.
pub fn read_relationship(tag: &XmlTag, part_dir: &str, path: &str) -> (r: Result<
    Relationship,
    Error,
>)
    ensures
        error::result_view(r) == relationship_of(tag@, part_dir@, path@),
{
    let id: String = match xml::required_attr(tag, path, "Id") {
        Ok(v) => v,
        Err(e) => {
            return Err(e);
        },
    };
    let rel_type: String = match xml::required_attr(tag, path, "Type") {
        Ok(v) => v,
        Err(e) => {
            return Err(e);
        },
    };
    let target: String = match xml::required_attr(tag, path, "Target") {
        Ok(v) => v,
        Err(e) => {
            return Err(e);
        },
    };
    let mode: Option<String> = match xml::optional_attr(tag, path, "TargetMode") {
        Ok(v) => v,
        Err(e) => {
            return Err(e);
        },
    };
    if text::is_some_text(&mode, "External") {
        Ok(Relationship { id, rel_type, target, target_mode: TargetMode::External })
    } else {
        let resolved: String = resolve_target_path(part_dir, target.as_str());
        Ok(Relationship { id, rel_type, target: resolved, target_mode: TargetMode::Internal })
    }
}

/// The relationships after one more event.
pub open spec fn rel_step(st: RelState, ev: EventView, path: Seq<char>) -> Result<
    RelState,
    ErrorView,
> {
    match ev {
        EventView::Start(tag) | EventView::Empty(tag) => if tag.name == "Relationship"@ {
            match relationship_of(tag, st.part_dir, path) {
                Ok(rel) => Ok(RelState { entries: with_entry(st.entries, rel), ..st }),
                Err(e) => Err(e),
            }
        } else {
            Ok(st)
        },
        _ => Ok(st),
    }
}

impl RelationshipParser {
    fn element(&mut self, tag: &XmlTag, path: &str) -> (r: Result<(), Error>)
        ensures
            match rel_step(old(self)@, EventView::Start(tag@), path@) {
                Ok(s) => r is Ok && final(self)@ == s,
                Err(f) => r matches Err(e) && e@ == f,
            },
    {
        if text::same(tag.name.as_str(), "Relationship") {
            match read_relationship(tag, self.part_dir.as_str(), path) {
                Ok(rel) => {
                    self.map.insert(rel);
                },
                Err(e) => {
                    return Err(e);
                },
            }
        }
        Ok(())
    }
}

impl PartParser for RelationshipParser {
    open spec fn inv(&self) -> bool {
        true
    }

    open spec fn finished(state: RelState) -> bool {
        false
    }

    open spec fn advance(state: RelState, ev: EventView, path: Seq<char>) -> Result<
        RelState,
        ErrorView,
    > {
        rel_step(state, ev, path)
    }

    fn is_finished(&self) -> (r: bool) {
        false
    }

    fn step(&mut self, ev: &XmlEvent, path: &str) -> (r: Result<(), Error>) {
        match ev {
            XmlEvent::Start(tag) => self.element(tag, path),
            XmlEvent::Empty(tag) => self.element(tag, path),
            _ => Ok(()),
        }
    }
}

/// The relationships that a part states, of which `part_dir` is the directory of
/// the part that they belong to.
pub open spec fn relationships_of(
    events: Seq<EventView>,
    part_dir: Seq<char>,
    path: Seq<char>,
) -> Result<Seq<RelView>, ErrorView> {
    match part::state_after::<RelationshipParser>(
        RelState { part_dir, entries: Seq::empty() },
        events,
        path,
    ) {
        Ok(s) => Ok(s.entries),
        Err(e) => Err(e),
    }
}

/// Every `Relationship` element is found under its identifier, with its type and its
/// target: an outside address as it is written, and the path of a part as seen from the
/// part's directory. Other identifiers lead where they led before, and other elements
/// change nothing.
pub proof fn law_relationship_elements_are_read(
    events: Seq<EventView>,
    tag: TagView,
    empty: bool,
    id: Seq<char>,
    rel_type: Seq<char>,
    target: Seq<char>,
    mode: Option<Seq<char>>,
    other: Seq<char>,
    part_dir: Seq<char>,
    path: Seq<char>,
)
    requires
        xml::states(tag.attrs, "Id"@, id),
        xml::states(tag.attrs, "Type"@, rel_type),
        xml::states(tag.attrs, "Target"@, target),
        xml::states_opt(tag.attrs, "TargetMode"@, mode),
    ensures
        ({
            let before = relationships_of(events, part_dir, path);
            let after = relationships_of(events.push(xml::element(tag, empty)), part_dir, path);
            before matches Ok(m) ==> {
                &&& tag.name != "Relationship"@ ==> after == before
                &&& tag.name == "Relationship"@ ==> {
                    let rel = if mode == Some("External"@) {
                        RelView { id, rel_type, target, target_mode: TargetMode::External }
                    } else {
                        RelView {
                            id,
                            rel_type,
                            target: target_path(part_dir, target),
                            target_mode: TargetMode::Internal,
                        }
                    };
                    &&& after is Ok
                    &&& lookup(after->Ok_0, id) == Some(rel)
                    &&& other != id ==> lookup(after->Ok_0, other) == lookup(m, other)
                    &&& lookup(m, id) is None ==> after->Ok_0 == m.push(rel)
                }
            }
        }),
{
    let start = RelState { part_dir, entries: Seq::empty() };
    let ev = xml::element(tag, empty);
    part::lemma_one_more::<RelationshipParser>(start, events, ev, path);
    lemma_dir_stays(events, part_dir, path);
    xml::law_attributes_are_found_by_name(tag.attrs, path, "Id"@, id);
    xml::law_attributes_are_found_by_name(tag.attrs, path, "Type"@, rel_type);
    xml::law_attributes_are_found_by_name(tag.attrs, path, "Target"@, target);
    xml::lemma_attribute(tag.attrs, path, "TargetMode"@, mode);
    if let Ok(m) = relationships_of(events, part_dir, path) {
        if let Ok(rel) = relationship_of(tag, part_dir, path) {
            law_last_relationship_of_an_id_counts(m, rel, id);
            law_last_relationship_of_an_id_counts(m, rel, other);
            lemma_place_of(m, id);
        }
    }
}

proof fn lemma_dir_stays(events: Seq<EventView>, part_dir: Seq<char>, path: Seq<char>)
    ensures
        part::state_after::<RelationshipParser>(
            RelState { part_dir, entries: Seq::empty() },
            events,
            path,
        ) matches Ok(st) ==> st.part_dir == part_dir,
    decreases events.len(),
{
    if events.len() > 0 {
        lemma_dir_stays(events.drop_last(), part_dir, path);
    }
}

/// Reads a relationship part.
pub fn parse_relationships(part: &PartData, part_dir: &str, path: &str) -> (r: Result<
    RelationshipMap,
    Error,
>)
    ensures
        error::result_view(r) == relationships_of(
            xml::part_events(part@),
            part_dir@,
            path@,
        ),
{
    let parser = RelationshipParser { part_dir: part_dir.to_owned(), map: RelationshipMap::new() };
    match part::read_part(parser, part, path) {
        Ok(p) => Ok(p.map),
        Err(e) => Err(e),
    }
}

} // verus!
