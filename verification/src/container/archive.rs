//! The archive that holds a package's parts.
use crate::container::data::{PartData, PartEnd, PartView, READ_SIZE};
use crate::container::sanitize;
use crate::container::sanitize::{BoundedReader, DEFAULT_MAX_TOTAL_UNCOMPRESSED_SIZE};
use crate::container::sanitize::{DEFAULT_MAX_UNCOMPRESSED_SIZE, ReadFault};
use crate::error;
use crate::error::{Error, ErrorView};
use std::io::{BufReader, Cursor, Read};
use vstd::prelude::*;
use zip::result::ZipError;
use zip::ZipArchive;

verus! {

/// `zip::ZipArchive`, an archive whose directory has been read.
#[verifier::external_type_specification]
#[verifier::external_body]
#[verifier::reject_recursive_types(R)]
pub struct ExZipArchive<R>(ZipArchive<R>);

/// `std::io::Cursor`, a position in bytes that are held in memory.
#[verifier::external_type_specification]
#[verifier::external_body]
#[verifier::reject_recursive_types(T)]
pub struct ExCursor<T>(Cursor<T>);

/// What an archive has under a name.
#[verifier::ext_equal]
pub enum EntryView {
    /// No entry.
    Missing,
    /// An entry that cannot be opened, with the reason.
    Refused(Seq<char>),
    /// An entry: the uncompressed data that comes of it, and whether it ends there or
    /// is broken there.
    Opened { data: Seq<u8>, intact: bool },
}

/// What reading an entry brought.
pub enum EntryRead {
    Missing,
    Refused(String),
    /// Bytes behind which the entry is broken.
    Broken(Vec<u8>),
    Data(Vec<u8>),
}

/// Why bytes are not an archive; `None` if they are one.
pub uninterp spec fn zip_failure(bytes: Seq<u8>) -> Option<Seq<char>>;

/// The entry names of the archive that bytes hold, in the order of its directory.
pub uninterp spec fn zip_names(bytes: Seq<u8>) -> Seq<Seq<char>>;

/// What the archive that bytes hold has under a name.
pub uninterp spec fn zip_entry(bytes: Seq<u8>, name: Seq<char>) -> EntryView;

/// The bytes that an archive was opened from.
pub uninterp spec fn zip_source(archive: ZipArchive<Cursor<Vec<u8>>>) -> Seq<u8>;

/// `ZipArchive::new` on bytes in memory: reads the archive's directory, or says
/// why it cannot. The outcome depends on the bytes alone.
#[verifier::external_body]
fn open_archive(bytes: Vec<u8>) -> (r: Result<ZipArchive<Cursor<Vec<u8>>>, String>)
    ensures
        match r {
            Ok(a) => zip_failure(bytes@) is None && zip_source(a) == bytes@,
            Err(m) => zip_failure(bytes@) == Some(m@),
        },
{
    ZipArchive::new(Cursor::new(bytes)).map_err(|e| e.to_string())
}

/// The character sequences of a list of strings.
pub open spec fn string_views(v: Seq<String>) -> Seq<Seq<char>> {
    v.map_values(|s: String| s@)
}

/// `ZipArchive::file_names`: every entry's name, in the order of the directory.
#[verifier::external_body]
fn archive_names(archive: &ZipArchive<Cursor<Vec<u8>>>) -> (r: Vec<String>)
    ensures
        string_views(r@) == zip_names(zip_source(*archive)),
{
    archive.file_names().map(String::from).collect()
}

/// `ZipArchive::index_for_name`: whether there is an entry of this name, exactly
/// as it is written.
#[verifier::external_body]
fn archive_has(archive: &ZipArchive<Cursor<Vec<u8>>>, name: &str) -> (r: bool)
    ensures
        r == !(zip_entry(zip_source(*archive), name@) is Missing),
{
    archive.index_for_name(name).is_some()
}

/// `ZipArchive::by_name` and reading the entry that it opens, up to `cap` bytes: the
/// beginning of the uncompressed data, or why there is none. Where decompression or
/// the checksum fails before the cap is reached, what came until then is told apart
/// from an entry that ended. The entry is read through a buffer of a fixed size, so
/// that how much comes before it fails depends on the archive's bytes alone.
#[verifier::external_body]
fn read_entry(
    archive: &mut ZipArchive<Cursor<Vec<u8>>>,
    name: &str,
    cap: u64,
) -> (r: EntryRead)
    ensures
        zip_source(*final(archive)) == zip_source(*old(archive)),
        match zip_entry(zip_source(*old(archive)), name@) {
            EntryView::Missing => r is Missing,
            EntryView::Refused(m) => r matches EntryRead::Refused(s) && s@ == m,
            EntryView::Opened { data, intact } => if data.len() >= cap {
                r matches EntryRead::Data(d) && d@ == data.take(cap as int)
            } else if intact {
                r matches EntryRead::Data(d) && d@ == data
            } else {
                r matches EntryRead::Broken(d) && d@ == data
            },
        },
{
    let mut bytes = Vec::new();
    match archive.by_name(name) {
        Ok(file) => {
            let mut input = BufReader::with_capacity(READ_SIZE as usize, file).take(cap).bytes();
            let end = input.try_for_each(|b| b.map(|b| bytes.push(b)));
            match end {
                Ok(()) => EntryRead::Data(bytes),
                Err(_) => EntryRead::Broken(bytes),
            }
        },
        Err(ZipError::FileNotFound) => EntryRead::Missing,
        Err(e) => EntryRead::Refused(e.to_string()),
    }
}

/// A package's archive, with caps on what is read from it.
pub struct ZipContainer {
    archive: ZipArchive<Cursor<Vec<u8>>>,
    max_entry_size: u64,
    max_total_size: u64,
    /// How many bytes have been read from entries so far.
    total_read: u64,
    /// The data of the entry that was opened last.
    buffer: Vec<u8>,
}

/// A container as contracts speak of it.
#[verifier::ext_equal]
pub struct ContainerView {
    pub source: Seq<u8>,
    pub max_entry_size: u64,
    pub max_total_size: u64,
    pub total_read: u64,
}

impl View for ZipContainer {
    type V = ContainerView;

    closed spec fn view(&self) -> ContainerView {
        ContainerView {
            source: zip_source(self.archive),
            max_entry_size: self.max_entry_size,
            max_total_size: self.max_total_size,
            total_read: self.total_read,
        }
    }
}

/// What checking a list of entry names yields: the first unsafe one decides.
pub open spec fn names_check(names: Seq<Seq<char>>) -> Result<(), ErrorView>
    decreases names.len(),
{
    if names.len() == 0 {
        Ok(())
    } else {
        match names_check(names.drop_last()) {
            Ok(()) => sanitize::name_check(names.last()),
            Err(e) => Err(e),
        }
    }
}

/// What opening bytes as a container yields: it must be an archive, and all its
/// entry names must be safe.
pub open spec fn open_check(bytes: Seq<u8>) -> Result<(), ErrorView> {
    match zip_failure(bytes) {
        Some(m) => Err(ErrorView::InvalidPackage(m)),
        None => names_check(zip_names(bytes)),
    }
}

/// A container before anything has been read from it, with the default caps.
pub open spec fn fresh_container(bytes: Seq<u8>) -> ContainerView {
    ContainerView {
        source: bytes,
        max_entry_size: DEFAULT_MAX_UNCOMPRESSED_SIZE,
        max_total_size: DEFAULT_MAX_TOTAL_UNCOMPRESSED_SIZE,
        total_read: 0,
    }
}

/// Entry names pass exactly when all of them are safe; otherwise the first one that
/// is not is what is wrong.
pub proof fn law_all_entry_names_must_be_safe(names: Seq<Seq<char>>)
    ensures
        match names_check(names) {
            Ok(()) => forall|i: int|
                0 <= i < names.len() ==> sanitize::is_safe_name(#[trigger] names[i]),
            Err(e) => exists|i: int| #[trigger]
                is_first_unsafe(names, i) && e == (ErrorView::ZipSlipDetected {
                    entry_name: names[i],
                }),
        },
    decreases names.len(),
{
    if names.len() > 0 {
        let front = names.drop_last();
        law_all_entry_names_must_be_safe(front);
        assert forall|i: int| 0 <= i < front.len() implies #[trigger] names[i] == front[i] by {}
        if names_check(front) is Err {
            let i = choose|i: int| #[trigger]
                is_first_unsafe(front, i) && names_check(front)->Err_0 == (
                ErrorView::ZipSlipDetected { entry_name: front[i] });
            assert(is_first_unsafe(names, i));
        } else if names_check(names) is Err {
            assert(is_first_unsafe(names, names.len() - 1));
        }
    }
}

/// The first name of a list that is not safe.
pub open spec fn is_first_unsafe(names: Seq<Seq<char>>, i: int) -> bool {
    &&& 0 <= i < names.len()
    &&& !sanitize::is_safe_name(names[i])
    &&& forall|k: int| 0 <= k < i ==> sanitize::is_safe_name(#[trigger] names[k])
}

/// How many bytes of an entry two caps leave room for, after `total_read` bytes of
/// other entries.
pub open spec fn room_within(max_entry_size: u64, total_read: u64, max_total_size: u64) -> u64 {
    let total = if max_total_size == u64::MAX {
        u64::MAX
    } else if total_read > max_total_size {
        0
    } else {
        (max_total_size - total_read) as u64
    };
    if max_entry_size <= total {
        max_entry_size
    } else {
        total
    }
}

/// How many bytes of an entry both caps leave room for.
pub open spec fn room(c: ContainerView) -> u64 {
    room_within(c.max_entry_size, c.total_read, c.max_total_size)
}

/// How many bytes of an entry are asked for at most: as many at a time as there is
/// room for, and once more.
pub open spec fn most_asked(c: ContainerView) -> u64 {
    let n = (room(c) / READ_SIZE + 1) * READ_SIZE;
    if n > u64::MAX {
        u64::MAX
    } else {
        n as u64
    }
}

/// The bytes that come when an entry is read.
pub open spec fn bytes_asked(c: ContainerView, data: Seq<u8>) -> Seq<u8> {
    if data.len() >= most_asked(c) {
        data.take(most_asked(c) as int)
    } else {
        data
    }
}

/// The part that bytes of an entry make, behind which it may be broken. What is asked
/// for at a time is counted as soon as it comes: bytes that exceed a cap do not become
/// part of it, nor do those that came with them.
pub open spec fn bounded_part(
    got: Seq<u8>,
    broken: bool,
    max_entry_size: u64,
    total_read: u64,
    max_total_size: u64,
) -> PartView {
    let room = room_within(max_entry_size, total_read, max_total_size);
    match sanitize::within(
        sanitize::counted(0, got.len()),
        max_entry_size,
        sanitize::counted(total_read, got.len()),
        max_total_size,
    ) {
        Err(e) => if got.len() > 0 {
            PartView {
                bytes: got.take(room / READ_SIZE * READ_SIZE),
                end: PartEnd::OverCap(e),
            }
        } else if broken {
            PartView { bytes: got, end: PartEnd::Broken }
        } else {
            PartView { bytes: got, end: PartEnd::OverCap(e) }
        },
        Ok(()) => PartView {
            bytes: got,
            end: if broken {
                PartEnd::Broken
            } else {
                PartEnd::Whole
            },
        },
    }
}

/// The part that an entry's data makes.
pub open spec fn part_of(c: ContainerView, data: Seq<u8>, intact: bool) -> PartView {
    bounded_part(
        bytes_asked(c, data),
        !intact && data.len() < most_asked(c),
        c.max_entry_size,
        c.total_read,
        c.max_total_size,
    )
}

/// What fetching a part from a container yields.
#[verifier::ext_equal]
pub enum Fetched {
    Failed(ErrorView),
    Missing,
    /// The part, and how many bytes have been read once all of it is used.
    Opened(PartView, u64),
}

/// What fetching the part `name` yields: the name must be safe, and what is read
/// must stay within both caps.
pub open spec fn fetch(c: ContainerView, name: Seq<char>) -> Fetched {
    if !sanitize::is_safe_name(name) {
        Fetched::Failed(ErrorView::ZipSlipDetected { entry_name: name })
    } else {
        match zip_entry(c.source, name) {
            EntryView::Missing => Fetched::Missing,
            EntryView::Refused(m) => Fetched::Failed(ErrorView::InvalidPackage(m)),
            EntryView::Opened { data, intact } => {
                let part = part_of(c, data, intact);
                Fetched::Opened(part, sanitize::counted(c.total_read, part.bytes.len()))
            },
        }
    }
}

/// A part whose entry is intact and stays within both caps comes whole.
pub proof fn law_parts_within_the_caps_come_whole(c: ContainerView, data: Seq<u8>)
    requires
        data.len() <= c.max_entry_size,
        c.total_read + data.len() <= c.max_total_size,
    ensures
        part_of(c, data, true) == (PartView { bytes: data, end: PartEnd::Whole }),
{
    lemma_room(c);
    if data.len() == most_asked(c) {
        assert(data.take(data.len() as int) =~= data);
    }
}

/// A part that exceeds a cap is cut off where it still stays within both, and the cap
/// is told together with a count that exceeds it.
pub proof fn law_parts_over_a_cap_are_cut_off(c: ContainerView, data: Seq<u8>, intact: bool)
    requires
        c.total_read <= c.max_total_size,
        c.total_read + data.len() < u64::MAX,
        data.len() > c.max_entry_size || c.total_read + data.len() > c.max_total_size,
    ensures
        ({
            let part = part_of(c, data, intact);
            &&& part.bytes.len() <= c.max_entry_size
            &&& c.total_read + part.bytes.len() <= c.max_total_size
            &&& part.bytes == data.take(part.bytes.len() as int)
            &&& part.end matches PartEnd::OverCap(e) && e.actual > e.limit && (e.limit
                == c.max_entry_size || e.limit == c.max_total_size)
        }),
{
    lemma_room(c);
    let got = bytes_asked(c, data);
    let kept = room(c) / READ_SIZE * READ_SIZE;
    assert(got.take(kept as int) =~= data.take(kept as int));
}

/// A part never has more bytes than both caps leave room for.
pub proof fn law_parts_stay_within_the_caps(c: ContainerView, data: Seq<u8>, intact: bool)
    requires
        c.total_read <= c.max_total_size,
    ensures
        part_of(c, data, intact).bytes.len() <= c.max_entry_size,
        sanitize::counted(c.total_read, part_of(c, data, intact).bytes.len()) <= c.max_total_size,
{
    lemma_room(c);
}

proof fn lemma_room(c: ContainerView)
    ensures
        room(c) / READ_SIZE * READ_SIZE <= room(c) < (room(c) / READ_SIZE + 1) * READ_SIZE,
        room(c) < u64::MAX ==> room(c) < most_asked(c),
        most_asked(c) > 0,
{
    assert(READ_SIZE == 8192);
}

impl ZipContainer {
    /// Opens an archive that is held in memory.
    pub fn open_reader(bytes: Vec<u8>) -> (r: Result<ZipContainer, Error>)
        ensures
            match r {
                Ok(c) => open_check(bytes@) is Ok && c@ == fresh_container(bytes@),
                Err(e) => open_check(bytes@) == Err::<(), ErrorView>(e@),
            },
    {
        let archive: ZipArchive<Cursor<Vec<u8>>> = match open_archive(bytes) {
            Ok(a) => a,
            Err(m) => {
                return Err(Error::InvalidPackage(m));
            },
        };
        let names: Vec<String> = archive_names(&archive);
        let ghost all = zip_names(bytes@);
        let mut i: usize = 0;
        assert(all.take(0) =~= Seq::<Seq<char>>::empty());
        while i < names.len()
            invariant
                i <= names@.len(),
                all == string_views(names@),
                all == zip_names(bytes@),
                zip_failure(bytes@) is None,
                names_check(all.take(i as int)) == Ok::<(), ErrorView>(()),
            decreases names@.len() - i,
        {
            proof {
                assert(all.take(i + 1).drop_last() =~= all.take(i as int));
                assert(all[i as int] == names@[i as int]@);
            }
            match sanitize::validate_entry_path(names[i].as_str()) {
                Ok(()) => {},
                Err(e) => {
                    proof {
                        lemma_names_check_stops(all, i + 1);
                    }
                    return Err(e);
                },
            }
            i += 1;
        }
        assert(all.take(all.len() as int) =~= all);
        Ok(
            ZipContainer {
                archive,
                max_entry_size: DEFAULT_MAX_UNCOMPRESSED_SIZE,
                max_total_size: DEFAULT_MAX_TOTAL_UNCOMPRESSED_SIZE,
                total_read: 0,
                buffer: Vec::new(),
            },
        )
    }

    /// The same container with another cap on one entry.
    pub fn with_max_entry_size(self, limit: u64) -> (c: ZipContainer)
        ensures
            c@ == (ContainerView { max_entry_size: limit, ..self@ }),
    {
        ZipContainer { max_entry_size: limit, ..self }
    }

    /// The same container with another cap on everything read.
    pub fn with_max_total_size(self, limit: u64) -> (c: ZipContainer)
        ensures
            c@ == (ContainerView { max_total_size: limit, ..self@ }),
    {
        ZipContainer { max_total_size: limit, ..self }
    }

    /// How many bytes have been read from entries so far.
    pub fn total_read(&self) -> (n: u64)
        ensures
            n == self@.total_read,
    {
        self.total_read
    }

    /// Every entry's name.
    pub fn entry_names(&self) -> (r: Vec<String>)
        ensures
            string_views(r@) == zip_names(self@.source),
    {
        archive_names(&self.archive)
    }

    /// Whether there is an entry of this name; the name must be safe.
    pub fn has_entry(&self, name: &str) -> (r: Result<bool, Error>)
        ensures
            error::plain_result(r) == entry_check(self@.source, name@),
    {
        match sanitize::validate_entry_path(name) {
            Ok(()) => Ok(archive_has(&self.archive, name)),
            Err(e) => Err(e),
        }
    }

    /// Opens the entry of this name for reading within the caps; `None` if there
    /// is no such entry.
    pub fn get_entry(&mut self, name: &str) -> (r: Result<Option<BoundedReader<'_>>, Error>)
        ensures
            final(self)@ == (ContainerView {
                total_read: final(self)@.total_read,
                ..old(self)@
            }),
            match r {
                Err(e) => final(self)@ == old(self)@ && fetch(old(self)@, name@)
                    == Fetched::Failed(e@),
                Ok(None) => final(self)@ == old(self)@ && fetch(old(self)@, name@) is Missing,
                Ok(Some(reader)) => {
                    &&& sanitize::is_safe_name(name@)
                    &&& reader.per_entry_limit == old(self)@.max_entry_size
                    &&& reader.per_entry_read == 0
                    &&& reader.cumulative_limit == old(self)@.max_total_size
                    &&& *reader.cumulative_read == old(self)@.total_read
                    &&& *final(reader.cumulative_read) == final(self)@.total_read
                    &&& zip_entry(old(self)@.source, name@) matches EntryView::Opened {
                        data,
                        intact,
                    } && reader.inner@ == bytes_asked(old(self)@, data) && reader.intact == (intact
                        || data.len() >= most_asked(old(self)@))
                },
            },
    {
        match sanitize::validate_entry_path(name) {
            Ok(()) => {},
            Err(e) => {
                return Err(e);
            },
        }
        let left: u64 = if self.max_total_size == u64::MAX {
            u64::MAX
        } else {
            self.max_total_size.saturating_sub(self.total_read)
        };
        let least: u64 = if self.max_entry_size <= left {
            self.max_entry_size
        } else {
            left
        };
        assert(least == room(self@));
        let asked: u128 = (least / READ_SIZE) as u128 * READ_SIZE as u128 + READ_SIZE as u128;
        let cap: u64 = if asked > u64::MAX as u128 {
            u64::MAX
        } else {
            asked as u64
        };
        assert(cap == most_asked(self@));
        let intact: bool;
        match read_entry(&mut self.archive, name, cap) {
            EntryRead::Missing => {
                return Ok(None);
            },
            EntryRead::Refused(m) => {
                return Err(Error::InvalidPackage(m));
            },
            EntryRead::Broken(bytes) => {
                self.buffer = bytes;
                intact = false;
            },
            EntryRead::Data(bytes) => {
                self.buffer = bytes;
                intact = true;
            },
        }
        Ok(
            Some(
                BoundedReader {
                    inner: self.buffer.as_slice(),
                    intact,
                    per_entry_limit: self.max_entry_size,
                    per_entry_read: 0,
                    cumulative_read: &mut self.total_read,
                    cumulative_limit: self.max_total_size,
                },
            ),
        )
    }

    /// Fetches a part; `None` if there is no such part. Its bytes count as read.
    pub fn fetch_part(&mut self, name: &str) -> (r: Result<Option<PartData>, Error>)
        ensures
            match fetch(old(self)@, name@) {
                Fetched::Failed(f) => (r matches Err(e) && e@ == f) && final(self)@ == old(self)@,
                Fetched::Missing => r == Ok::<Option<PartData>, Error>(None) && final(self)@
                    == old(self)@,
                Fetched::Opened(part, total) => (r matches Ok(Some(p)) && p@ == part)
                    && final(self)@ == (ContainerView { total_read: total, ..old(self)@ }),
            },
    {
        let read_before: u64 = self.total_read;
        let mut out: Vec<u8> = Vec::new();
        let end: PartEnd;
        match self.get_entry(name) {
            Err(e) => {
                return Err(e);
            },
            Ok(None) => {
                return Ok(None);
            },
            Ok(Some(mut reader)) => {
                proof {
                    lemma_room(old(self)@);
                }
                end = gather(&mut reader, &mut out);
            },
        }
        self.total_read = read_before.saturating_add(out.len() as u64);
        Ok(Some(PartData { bytes: out, end }))
    }

    /// Counts, in place of what has been read since `before` were read, `n` bytes.
    pub fn recount(&mut self, before: u64, n: u64)
        ensures
            final(self)@ == (ContainerView {
                total_read: sanitize::counted(before, n as nat),
                ..old(self)@
            }),
    {
        self.total_read = before.saturating_add(n);
    }
}

/// Takes what a reader hands out, as much at a time as is asked for, until there is
/// no more or a fault.
fn gather(reader: &mut BoundedReader<'_>, out: &mut Vec<u8>) -> (end: PartEnd)
    requires
        old(reader).per_entry_read == 0,
        old(out)@.len() == 0,
        room_within(
            old(reader).per_entry_limit,
            *old(reader).cumulative_read,
            old(reader).cumulative_limit,
        ) == u64::MAX || old(reader).inner@.len() <= (room_within(
            old(reader).per_entry_limit,
            *old(reader).cumulative_read,
            old(reader).cumulative_limit,
        ) / READ_SIZE + 1) * READ_SIZE,
    ensures
        (PartView { bytes: final(out)@, end }) == bounded_part(
            old(reader).inner@,
            !old(reader).intact,
            old(reader).per_entry_limit,
            *old(reader).cumulative_read,
            old(reader).cumulative_limit,
        ),
        *final(final(reader).cumulative_read) == *final(old(reader).cumulative_read),
{
    let ghost got = reader.inner@;
    let ghost start = *reader.cumulative_read;
    let ghost limit = reader.per_entry_limit;
    let ghost total_limit = reader.cumulative_limit;
    let ghost room = room_within(limit, start, total_limit);
    let ghost mut at: int = 0;
    assert(got.skip(0) =~= got);
    loop
        invariant
            got == old(reader).inner@,
            start == *old(reader).cumulative_read,
            limit == old(reader).per_entry_limit,
            total_limit == old(reader).cumulative_limit,
            room == room_within(limit, start, total_limit),
            room == u64::MAX || got.len() <= (room / READ_SIZE + 1) * READ_SIZE,
            reader.per_entry_limit == limit,
            reader.cumulative_limit == total_limit,
            reader.intact == old(reader).intact,
            *final(reader.cumulative_read) == *final(old(reader).cumulative_read),
            0 <= at <= got.len(),
            at % READ_SIZE as int == 0 || at == got.len(),
            reader.inner@ == got.skip(at),
            out@ == got.take(at),
            reader.per_entry_read == sanitize::counted(0, at as nat),
            *reader.cumulative_read == sanitize::counted(start, at as nat),
            at > 0 ==> sanitize::within(
                sanitize::counted(0, at as nat),
                limit,
                sanitize::counted(start, at as nat),
                total_limit,
            ) is Ok,
        decreases got.len() - at,
    {
        let ghost n = if got.len() - at <= READ_SIZE {
            got.len() - at
        } else {
            READ_SIZE as int
        };
        let ghost before = out@;
        assert(reader.inner@.len() == got.len() - at);
        match reader.read(READ_SIZE as usize, out) {
            Err(ReadFault::Broken) => {
                assert(got.take(at) =~= got);
                return PartEnd::Broken;
            },
            Err(ReadFault::Limit(e)) => {
                proof {
                    assert(at > 0 ==> at <= room);
                    assert(at + n > room || got.len() == 0);
                    assert(at + n == got.len());
                    if got.len() > 0 {
                        assert(at == room / READ_SIZE * READ_SIZE);
                    } else {
                        assert(got.take(at) =~= got);
                    }
                }
                return PartEnd::OverCap(e);
            },
            Ok(count) => {
                proof {
                    assert(got.skip(at).skip(n) =~= got.skip(at + n));
                    assert(got.take(at) + got.skip(at).take(n) =~= got.take(at + n));
                }
                if count == 0 {
                    assert(got.take(at) =~= got);
                    return PartEnd::Whole;
                }
                proof {
                    at = at + n;
                }
            },
        }
    }
}

/// What asking for an entry's existence yields.
pub open spec fn entry_check(source: Seq<u8>, name: Seq<char>) -> Result<bool, ErrorView> {
    match sanitize::name_check(name) {
        Ok(()) => Ok(!(zip_entry(source, name) is Missing)),
        Err(e) => Err(e),
    }
}

/// Names that follow an unsafe one do not change the outcome.
proof fn lemma_names_check_stops(names: Seq<Seq<char>>, k: int)
    requires
        0 <= k <= names.len(),
        names_check(names.take(k)) is Err,
    ensures
        names_check(names) == names_check(names.take(k)),
    decreases names.len(),
{
    if k == names.len() {
        assert(names.take(k) =~= names);
    } else {
        assert(names.drop_last().take(k) =~= names.take(k));
        lemma_names_check_stops(names.drop_last(), k);
    }
}

/// A container takes entries of up to 512 MiB and up to 2 GiB of them together, and
/// begins with nothing read.
pub proof fn law_containers_begin_with_default_caps(bytes: Seq<u8>)
    ensures
        ({
            let c = fresh_container(bytes);
            &&& c.max_entry_size == 512 * 1024 * 1024
            &&& c.max_total_size == 4 * c.max_entry_size
            &&& c.total_read == 0
            &&& c.source == bytes
        }),
{
}

/// Whether there is a part is asked of safe names only; an unsafe one is told.
pub proof fn law_only_safe_names_are_looked_up(source: Seq<u8>, name: Seq<char>)
    ensures
        entry_check(source, name) == (if !sanitize::is_safe_name(name) {
            Err(ErrorView::ZipSlipDetected { entry_name: name })
        } else if zip_entry(source, name) == EntryView::Missing {
            Ok(false)
        } else {
            Ok(true)
        }),
{
}

} // verus!
