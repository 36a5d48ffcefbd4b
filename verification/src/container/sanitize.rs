//! What an archive's entries must satisfy: safe names and bounded sizes.
use crate::error;
use crate::error::{Error, ErrorView};
use crate::text;
use vstd::prelude::*;

verus! {

/// The default cap on one entry's uncompressed size, in bytes: 512 MiB.
pub const DEFAULT_MAX_UNCOMPRESSED_SIZE: u64 = 536_870_912;

/// The default cap on the archive's uncompressed size, in bytes: 2 GiB.
pub const DEFAULT_MAX_TOTAL_UNCOMPRESSED_SIZE: u64 = 2_147_483_648;

/// The default cap on the number of cells of one sheet.
pub const DEFAULT_MAX_CELLS_PER_SHEET: usize = 5_000_000;

/// The caps that reading a workbook observes.
#[derive(Debug, Clone, Copy, PartialEq, Eq, Structural)]
pub struct SizeLimits {
    /// The cap on one entry's uncompressed size, in bytes.
    pub max_entry_size: u64,
    /// The cap on the uncompressed size of all entries read, in bytes.
    pub max_total_size: u64,
    /// The cap on the number of cells of one sheet.
    pub max_cells_per_sheet: usize,
}

impl Default for SizeLimits {
    fn default() -> (l: SizeLimits)
        ensures
            l.max_entry_size == DEFAULT_MAX_UNCOMPRESSED_SIZE,
            l.max_total_size == DEFAULT_MAX_TOTAL_UNCOMPRESSED_SIZE,
            l.max_cells_per_sheet == DEFAULT_MAX_CELLS_PER_SHEET,
    {
        SizeLimits {
            max_entry_size: DEFAULT_MAX_UNCOMPRESSED_SIZE,
            max_total_size: DEFAULT_MAX_TOTAL_UNCOMPRESSED_SIZE,
            max_cells_per_sheet: DEFAULT_MAX_CELLS_PER_SHEET,
        }
    }
}

/// An ASCII letter.
pub open spec fn is_letter(c: char) -> bool {
    ('a' <= c && c <= 'z') || ('A' <= c && c <= 'Z')
}

/// Whether an entry name stays below the archive's root: it is not empty, not
/// absolute, holds no backslash, no drive prefix and no `..` segment.
pub open spec fn is_safe_name(s: Seq<char>) -> bool {
    &&& s.len() > 0
    &&& s[0] != '/'
    &&& !s.contains('\\')
    &&& !(s.len() >= 2 && is_letter(s[0]) && s[1] == ':')
    &&& !text::split(s, '/').contains(seq!['.', '.'])
}

/// Whether a way up stands at a place of a name: two points between slashes or ends.
pub open spec fn leads_up_at(s: Seq<char>, i: int) -> bool {
    &&& 0 <= i && i + 2 <= s.len()
    &&& s[i] == '.' && s[i + 1] == '.'
    &&& i == 0 || s[i - 1] == '/'
    &&& i + 2 == s.len() || s[i + 2] == '/'
}

proof fn lemma_way_up_is_a_piece(s: Seq<char>, i: int)
    requires
        leads_up_at(s, i),
    ensures
        text::split(s, '/').contains(seq!['.', '.']),
{
    let up = seq!['.', '.'];
    let rest = s.skip(i);
    assert(!up.contains('/'));
    text::lemma_split_one_piece(up, '/');
    assert(text::split(rest, '/').contains(up)) by {
        if i + 2 == s.len() {
            assert(rest =~= up);
            assert(seq![up][0] == up);
        } else {
            let tail = s.skip(i + 3);
            assert(rest =~= up + seq!['/'] + tail);
            text::lemma_split_joined(up, tail, '/');
            assert(text::split(rest, '/')[0] == up);
        }
    }
    if i == 0 {
        assert(rest =~= s);
    } else {
        let head = s.take(i - 1);
        assert(s =~= head + seq!['/'] + rest);
        text::lemma_split_joined(head, rest, '/');
        let k = choose|k: int|
            0 <= k < text::split(rest, '/').len() && text::split(rest, '/')[k] == up;
        assert(text::split(s, '/')[text::split(head, '/').len() + k] == up);
    }
}

proof fn lemma_pieces_lead_up(s: Seq<char>)
    requires
        text::split(s, '/').contains(seq!['.', '.']),
    ensures
        exists|i: int| #[trigger] leads_up_at(s, i),
    decreases s.len(),
{
    let up = seq!['.', '.'];
    s.index_of_first_ensures('/');
    let pieces = text::split(s, '/');
    let k = choose|k: int| 0 <= k < pieces.len() && pieces[k] == up;
    if s.contains('/') {
        let n = s.index_of_first('/')->0;
        let rest = s.skip(n + 1);
        if k == 0 {
            assert(s.take(n) == up);
            assert(s[0] == up[0] && s[1] == up[1]);
            assert(leads_up_at(s, 0));
        } else {
            assert(text::split(rest, '/')[k - 1] == up);
            lemma_pieces_lead_up(rest);
            let i = choose|i: int| #[trigger] leads_up_at(rest, i);
            assert(leads_up_at(s, i + n + 1));
        }
    } else {
        assert(pieces[0] == s);
        assert(leads_up_at(s, 0));
    }
}

/// A name is safe exactly if it is not empty, does not begin with a slash or with a drive
/// letter and its colon, and has no backslash and no way up anywhere.
pub proof fn law_safe_names_stay_below(s: Seq<char>)
    ensures
        is_safe_name(s) <==> {
            &&& s.len() > 0 && s[0] != '/'
            &&& forall|i: int| 0 <= i < s.len() ==> #[trigger] s[i] != '\\'
            &&& s.len() >= 2 && s[1] == ':' ==> !('a' <= s[0] <= 'z' || 'A' <= s[0] <= 'Z')
            &&& forall|i: int| !#[trigger] leads_up_at(s, i)
        },
{
    if text::split(s, '/').contains(seq!['.', '.']) {
        lemma_pieces_lead_up(s);
    }
    assert forall|i: int| #[trigger] leads_up_at(s, i) implies text::split(s, '/').contains(
        seq!['.', '.'],
    ) by {
        lemma_way_up_is_a_piece(s, i);
    }
    if s.contains('\\') {
        let i = choose|i: int| 0 <= i < s.len() && s[i] == '\\';
        assert(s[i] == '\\');
    }
}

/// What checking an entry name yields.
pub open spec fn name_check(s: Seq<char>) -> Result<(), ErrorView> {
    if is_safe_name(s) {
        Ok(())
    } else {
        Err(ErrorView::ZipSlipDetected { entry_name: s })
    }
}

fn is_parent(segment: &Vec<char>) -> (r: bool)
    ensures
        r == (segment@ == seq!['.', '.']),
{
    if segment.len() == 2 && segment[0] == '.' && segment[1] == '.' {
        assert(segment@ =~= seq!['.', '.']);
        true
    } else {
        assert(segment@ == seq!['.', '.'] ==> segment@.len() == 2 && segment@[0] == '.'
            && segment@[1] == '.');
        false
    }
}

fn safe_name(chars: &Vec<char>) -> (r: bool)
    ensures
        r == is_safe_name(chars@),
{
    if chars.len() == 0 {
        return false;
    }
    if chars[0] == '/' {
        return false;
    }
    proof {
        chars@.index_of_first_ensures('\\');
    }
    if let Some(i) = text::find_char(chars, '\\') {
        return false;
    }
    let first: char = chars[0];
    if chars.len() >= 2 && (('a' <= first && first <= 'z') || ('A' <= first && first <= 'Z'))
        && chars[1] == ':' {
        return false;
    }
    let segments: Vec<Vec<char>> = text::split_chars(chars, '/');
    let ghost names = text::split(chars@, '/');
    let mut i: usize = 0;
    while i < segments.len()
        invariant
            i <= segments@.len(),
            names == text::split(chars@, '/'),
            names == text::texts(segments@),
            forall|k: int| 0 <= k < i ==> #[trigger] names[k] != seq!['.', '.'],
        decreases segments@.len() - i,
    {
        assert(names[i as int] == segments@[i as int]@);
        if is_parent(&segments[i]) {
            assert(names.contains(names[i as int]));
            return false;
        }
        i += 1;
    }
    true
}

/// Checks that an entry name stays below the archive's root.
pub fn validate_entry_path(name: &str) -> (r: Result<(), Error>)
    ensures
        error::plain_result(r) == name_check(name@),
{
    let chars: Vec<char> = text::to_chars(name);
    if safe_name(&chars) {
        Ok(())
    } else {
        Err(Error::ZipSlipDetected { entry_name: name.to_owned() })
    }
}

/// A size cap that was exceeded, and by what.
#[derive(Debug, Clone, Copy, PartialEq, Eq, Structural)]
pub struct LimitExceeded {
    pub limit: u64,
    pub actual: u64,
}

/// Why no more bytes of an entry come.
#[derive(Debug, Clone, Copy, PartialEq, Eq, Structural)]
pub enum ReadFault {
    /// They would exceed a cap.
    Limit(LimitExceeded),
    /// The entry is broken here.
    Broken,
}

/// Hands out an entry's bytes while counting them against two caps: one for the
/// entry, one for everything read so far.
#[derive(Debug)]
pub struct BoundedReader<'a> {
    /// What is still to be handed out.
    pub inner: &'a [u8],
    /// Whether the entry ends where `inner` does; otherwise it is broken there.
    pub intact: bool,
    pub per_entry_limit: u64,
    /// How many bytes of the entry have been handed out.
    pub per_entry_read: u64,
    /// How many bytes have been handed out of all entries together.
    pub cumulative_read: &'a mut u64,
    pub cumulative_limit: u64,
}

/// A counter that does not wrap around.
pub open spec fn counted(count: u64, n: nat) -> u64 {
    if count + n > u64::MAX {
        u64::MAX
    } else {
        (count + n) as u64
    }
}

/// What two counters say against their caps; the entry's cap comes first.
pub open spec fn within(
    per_entry_read: u64,
    per_entry_limit: u64,
    cumulative_read: u64,
    cumulative_limit: u64,
) -> Result<(), LimitExceeded> {
    if per_entry_read > per_entry_limit {
        Err(LimitExceeded { limit: per_entry_limit, actual: per_entry_read })
    } else if cumulative_read > cumulative_limit {
        Err(LimitExceeded { limit: cumulative_limit, actual: cumulative_read })
    } else {
        Ok(())
    }
}

/// What has been read may be as much as the caps say and no more; whichever cap is
/// exceeded is told, the entry's before the other.
pub proof fn law_caps_may_be_reached(entry: u64, entry_cap: u64, all: u64, all_cap: u64)
    ensures
        within(entry, entry_cap, all, all_cap) is Ok <==> entry <= entry_cap && all <= all_cap,
        within(entry, entry_cap, all, all_cap) matches Err(e) ==> e.actual > e.limit && (entry
            > entry_cap ==> e.limit == entry_cap && e.actual == entry) && (entry <= entry_cap
            ==> e.limit == all_cap && e.actual == all),
{
}

/// Counters add up what is read, up to the largest that they can hold.
pub proof fn law_counters_add_up(count: u64, a: nat, b: nat)
    ensures
        counted(counted(count, a), b) == counted(count, a + b),
        counted(count, 0) == count,
        count + a <= u64::MAX ==> counted(count, a) - count == a,
        counted(count, a) >= count,
{
}

impl<'a> BoundedReader<'a> {
    /// A reader of `inner`, which is all of an entry, that counts on from
    /// `cumulative_read`.
    pub fn new(
        inner: &'a [u8],
        per_entry_limit: u64,
        cumulative_read: &'a mut u64,
        cumulative_limit: u64,
    ) -> (r: BoundedReader<'a>)
        ensures
            r.inner@ == inner@,
            r.intact,
            r.per_entry_limit == per_entry_limit,
            r.per_entry_read == 0,
            *r.cumulative_read == *old(cumulative_read),
            *final(r.cumulative_read) == *final(cumulative_read),
            r.cumulative_limit == cumulative_limit,
    {
        BoundedReader {
            inner,
            intact: true,
            per_entry_limit,
            per_entry_read: 0,
            cumulative_read,
            cumulative_limit,
        }
    }

    /// Appends the next bytes to `out`, `max` of them or as many as are left, unless a
    /// cap is exceeded; the bytes are counted either way. Where none is left of a broken
    /// entry, that is the fault, and nothing is counted.
    pub fn read(&mut self, max: usize, out: &mut Vec<u8>) -> (r: Result<usize, ReadFault>)
        ensures
            ({
                let n = if max <= old(self).inner@.len() {
                    max as nat
                } else {
                    old(self).inner@.len()
                };
                &&& final(self).inner@ == old(self).inner@.skip(n as int)
                &&& final(self).per_entry_read == counted(old(self).per_entry_read, n)
                &&& *final(self).cumulative_read == counted(*old(self).cumulative_read, n)
                &&& if old(self).inner@.len() == 0 && !old(self).intact {
                    r == Err::<usize, ReadFault>(ReadFault::Broken) && final(out)@ == old(out)@
                } else {
                    match within(
                        final(self).per_entry_read,
                        final(self).per_entry_limit,
                        *final(self).cumulative_read,
                        final(self).cumulative_limit,
                    ) {
                        Ok(()) => r == Ok::<usize, ReadFault>(n as usize) && final(out)@
                            == old(out)@ + old(self).inner@.take(n as int),
                        Err(e) => r == Err::<usize, ReadFault>(ReadFault::Limit(e)) && final(out)@
                            == old(out)@,
                    }
                }
            }),
            final(self).intact == old(self).intact,
            final(self).per_entry_limit == old(self).per_entry_limit,
            final(self).cumulative_limit == old(self).cumulative_limit,
            *final(final(self).cumulative_read) == *final(old(self).cumulative_read),
    {
        let data: &'a [u8] = self.inner;
        if data.len() == 0 && !self.intact {
            assert(data@.skip(0) =~= data@);
            return Err(ReadFault::Broken);
        }
        let n: usize = if max <= data.len() {
            max
        } else {
            data.len()
        };
        self.inner = &data[n..data.len()];
        assert(self.inner@ =~= data@.skip(n as int));
        self.per_entry_read = self.per_entry_read.saturating_add(n as u64);
        *self.cumulative_read = (*self.cumulative_read).saturating_add(n as u64);
        if self.per_entry_read > self.per_entry_limit {
            return Err(
                ReadFault::Limit(
                    LimitExceeded { limit: self.per_entry_limit, actual: self.per_entry_read },
                ),
            );
        }
        if *self.cumulative_read > self.cumulative_limit {
            return Err(
                ReadFault::Limit(
                    LimitExceeded { limit: self.cumulative_limit, actual: *self.cumulative_read },
                ),
            );
        }
        let next: &[u8] = &data[0..n];
        assert(next@ =~= data@.take(n as int));
        out.extend_from_slice(next);
        Ok(n)
    }

    /// Appends everything that is left to `out`, unless a cap is exceeded; the
    /// bytes are counted either way. Behind them a broken entry is at fault.
    pub fn read_to_end(&mut self, out: &mut Vec<u8>) -> (r: Result<usize, ReadFault>)
        ensures
            final(self).inner@.len() == 0,
            final(self).intact == old(self).intact,
            final(self).per_entry_limit == old(self).per_entry_limit,
            final(self).cumulative_limit == old(self).cumulative_limit,
            final(self).per_entry_read == counted(old(self).per_entry_read, old(self).inner@.len()),
            *final(self).cumulative_read == counted(
                *old(self).cumulative_read,
                old(self).inner@.len(),
            ),
            *final(final(self).cumulative_read) == *final(old(self).cumulative_read),
            match within(
                final(self).per_entry_read,
                final(self).per_entry_limit,
                *final(self).cumulative_read,
                final(self).cumulative_limit,
            ) {
                Ok(()) => r == (if old(self).intact {
                    Ok::<usize, ReadFault>(old(self).inner.len())
                } else {
                    Err(ReadFault::Broken)
                }) && final(out)@ == old(out)@ + old(self).inner@,
                Err(e) => if old(self).inner@.len() == 0 && !old(self).intact {
                    r == Err::<usize, ReadFault>(ReadFault::Broken) && final(out)@ == old(out)@
                } else {
                    r == Err::<usize, ReadFault>(ReadFault::Limit(e)) && final(out)@ == old(out)@
                },
            },
    {
        let all: usize = self.inner.len();
        assert(self.inner@.take(all as int) =~= self.inner@);
        match self.read(all, out) {
            Ok(n) => {
                if self.intact {
                    Ok(n)
                } else {
                    Err(ReadFault::Broken)
                }
            },
            Err(e) => Err(e),
        }
    }
}

} // verus!
