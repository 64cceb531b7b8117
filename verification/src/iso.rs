use vstd::prelude::*;
use vstd::utf8::*;
use crate::text::{nonempty_pieces, split_nonempty, string_views, trim_end, trim_end_char};
use crate::bytes::{
    bytes_before, index_of, lemma_index_of_from, prefix_before, utf8_str,
};

verus! {

/// Size of a logical block of an ISO 9660 image.
pub const LOGICAL_BLOCK_SIZE: u64 = 2048;

/// Block that holds the primary volume descriptor.
pub const PVD_LBA: u64 = 16;

/// A file or a directory recorded in an ISO 9660 image.
#[derive(Debug)]
pub struct DirectoryEntry {
    /// First logical block of the extent.
    pub lba: u64,
    /// Length of the extent in bytes.
    pub size: u32,
    /// Whether the record describes a directory.
    pub is_dir: bool,
    /// The recorded name, cut at its first `;`.
    pub identifier: String,
}

/// What a directory record holds, as plain values.
pub struct EntryView {
    pub lba: u64,
    pub size: u32,
    pub is_dir: bool,
    pub identifier: Seq<char>,
}

impl View for DirectoryEntry {
    type V = EntryView;

    open spec fn view(&self) -> EntryView {
        EntryView {
            lba: self.lba,
            size: self.size,
            is_dir: self.is_dir,
            identifier: self.identifier@,
        }
    }
}

impl DirectoryEntry {
    /// A copy of this entry.
    pub fn duplicate(&self) -> (res: DirectoryEntry)
        ensures
            res@ == self@,
    {
        DirectoryEntry {
            lba: self.lba,
            size: self.size,
            is_dir: self.is_dir,
            identifier: self.identifier.clone(),
        }
    }
}

/// Why ISO 9660 data could not be read.
#[derive(Debug, Clone, Copy, PartialEq, Eq, Structural)]
pub enum IsoError {
    /// The volume descriptor does not carry type code 1.
    NotPrimaryVolume,
    /// A recorded name is not valid UTF-8.
    InvalidName,
    /// A record is shorter than its own fields say.
    Truncated,
}

/// The views of a sequence of entries.
pub open spec fn entry_views(v: Seq<DirectoryEntry>) -> Seq<EntryView> {
    v.map_values(|e: DirectoryEntry| e@)
}

/// The little-endian 32-bit number stored at `at`.
pub open spec fn le_u32_at(s: Seq<u8>, at: int) -> int {
    s[at] + 256 * s[at + 1] + 65536 * s[at + 2] + 16777216 * s[at + 3]
}

/// A directory record is long enough for its fixed fields and for its name.
pub open spec fn record_fits(rec: Seq<u8>) -> bool {
    rec.len() >= 33 && 33 + rec[32] <= rec.len()
}

/// The name bytes of a directory record.
pub open spec fn record_name(rec: Seq<u8>) -> Seq<u8> {
    rec.subrange(33, 33 + rec[32])
}

/// What a directory record describes: the extent's block (bytes 2..6) and
/// length (bytes 10..14), the directory flag (bit 1 of byte 25), and the name
/// (byte 32 gives its length) up to its first `;`.
pub open spec fn spec_parse_entry(rec: Seq<u8>) -> Result<EntryView, IsoError> {
    if !record_fits(rec) {
        Err(IsoError::Truncated)
    } else if !valid_utf8(record_name(rec)) {
        Err(IsoError::InvalidName)
    } else {
        Ok(
            EntryView {
                lba: le_u32_at(rec, 2) as u64,
                size: le_u32_at(rec, 10) as u32,
                is_dir: rec[25] & 2 != 0,
                identifier: decode_utf8(prefix_before(record_name(rec), 0x3Bu8)),
            },
        )
    }
}

/// The view of a parsing result.
pub open spec fn entry_result_view(r: Result<DirectoryEntry, IsoError>) -> Result<
    EntryView,
    IsoError,
> {
    match r {
        Ok(e) => Ok(e@),
        Err(x) => Err(x),
    }
}

/// The view of a parsing result that holds several entries.
pub open spec fn entries_result_view(r: Result<Vec<DirectoryEntry>, IsoError>) -> Result<
    Seq<EntryView>,
    IsoError,
> {
    match r {
        Ok(v) => Ok(entry_views(v@)),
        Err(x) => Err(x),
    }
}

/// The part of valid UTF-8 before an ASCII byte is valid UTF-8 too.
pub proof fn lemma_prefix_before_ascii_valid(s: Seq<u8>, x: u8)
    requires
        valid_utf8(s),
        x <= 0x7f,
    ensures
        valid_utf8(prefix_before(s, x)),
{
    lemma_index_of_from(s, x, 0);
    match index_of(s, x) {
        Some(i) => {
            is_char_boundary_iff_is_leading_byte(s, i);
            valid_utf8_split(s, i);
            assert(s.take(i) =~= s.subrange(0, i));
        },
        None => {},
    }
}

/// Reads a directory record.
pub fn parse_directory_entry(slice: &[u8]) -> (res: Result<DirectoryEntry, IsoError>)
    requires
        record_fits(slice@),
    ensures
        entry_result_view(res) == spec_parse_entry(slice@),
{
    let lba: u64 = slice[2] as u64 + slice[3] as u64 * 256 + slice[4] as u64 * 65536
        + slice[5] as u64 * 16777216;
    let size: u32 = slice[10] as u32 + slice[11] as u32 * 256 + slice[12] as u32 * 65536
        + slice[13] as u32 * 16777216;
    let flags = slice[25];
    let is_dir = (flags & 2) != 0;
    let name_len = slice[32] as usize;
    let raw = vstd::slice::slice_subrange(slice, 33, 33 + name_len);
    match utf8_str(raw) {
        None => Err(IsoError::InvalidName),
        Some(_) => {
            let clean = bytes_before(raw, 0x3B);
            proof {
                lemma_prefix_before_ascii_valid(raw@, 0x3Bu8);
            }
            match utf8_str(clean) {
                Some(text) => Ok(DirectoryEntry { lba, size, is_dir, identifier: text.to_owned() }),
                None => Err(IsoError::InvalidName),
            }
        },
    }
}

/// The start of the logical block after the one that holds `offset`.
pub open spec fn next_block_start(offset: int) -> int {
    offset + (LOGICAL_BLOCK_SIZE - offset % (LOGICAL_BLOCK_SIZE as int))
}

/// The record stands for the directory itself (`.`) or for its parent
/// (`..`): its name is the single byte 0 or 1. A record whose name length
/// is 1 but which ends before the name byte is passed over the same way.
pub open spec fn is_self_or_parent(rec: Seq<u8>) -> bool {
    rec[32] == 1 && (rec.len() <= 33 || rec[33] <= 1)
}

/// The entries listed in the directory extent `buf` from byte `offset` on:
/// records follow one another, each starting with its own length; records
/// never cross a block boundary, so a zero length byte only pads out the
/// rest of a block and the list goes on at the next block, up to the end of
/// the extent; the records for `.` and `..` are left out.
pub open spec fn spec_dir_records(buf: Seq<u8>, offset: int) -> Result<Seq<EntryView>, IsoError>
    decreases buf.len() - offset,
{
    if offset < 0 || offset >= buf.len() {
        Ok(seq![])
    } else if buf[offset] == 0 {
        if next_block_start(offset) >= buf.len() {
            Ok(seq![])
        } else {
            spec_dir_records(buf, next_block_start(offset))
        }
    } else if offset + buf[offset] > buf.len() {
        Err(IsoError::Truncated)
    } else {
        let rec = buf.subrange(offset, offset + buf[offset]);
        let rest = spec_dir_records(buf, offset + buf[offset]);
        if rec.len() <= 32 {
            Err(IsoError::Truncated)
        } else if is_self_or_parent(rec) {
            rest
        } else {
            match spec_parse_entry(rec) {
                Err(e) => Err(e),
                Ok(e) => match rest {
                    Ok(r) => Ok(seq![e] + r),
                    Err(x) => Err(x),
                },
            }
        }
    }
}

/// `done` followed by what `rest` lists.
pub open spec fn prepend_entries(done: Seq<EntryView>, rest: Result<Seq<EntryView>, IsoError>) -> Result<
    Seq<EntryView>,
    IsoError,
> {
    match rest {
        Ok(r) => Ok(done + r),
        Err(x) => Err(x),
    }
}

/// Lists the entries of a directory extent, block after block (`.` and
/// `..` left out).
pub fn read_dir_contents(buffer: &[u8]) -> (res: Result<Vec<DirectoryEntry>, IsoError>)
    ensures
        entries_result_view(res) == spec_dir_records(buffer@, 0),
{
    let len = buffer.len();
    let mut entries: Vec<DirectoryEntry> = Vec::new();
    let mut offset: usize = 0;
    assert(entry_views(entries@) =~= Seq::<EntryView>::empty());
    while offset < len
        invariant
            len == buffer@.len(),
            offset <= len,
            spec_dir_records(buffer@, 0) == prepend_entries(
                entry_views(entries@),
                spec_dir_records(buffer@, offset as int),
            ),
        decreases len - offset,
    {
        let record_len = buffer[offset] as usize;
        if record_len == 0 {
            // Padding: the next record starts at the next block.
            let to_next_block = 2048 - offset % 2048;
            if to_next_block >= len - offset {
                assert(entry_views(entries@) + Seq::<EntryView>::empty() =~= entry_views(
                    entries@,
                ));
                return Ok(entries);
            }
            offset = offset + to_next_block;
            continue;
        }
        if record_len > len - offset {
            return Err(IsoError::Truncated);
        }
        let record = vstd::slice::slice_subrange(buffer, offset, offset + record_len);
        if record_len <= 32 {
            return Err(IsoError::Truncated);
        }
        let self_or_parent = record[32] == 1 && (record_len <= 33 || record[33] <= 1);
        if !self_or_parent {
            if 33 + record[32] as usize > record_len {
                return Err(IsoError::Truncated);
            }
            match parse_directory_entry(record) {
                Ok(entry) => {
                    let ghost before = entries@;
                    entries.push(entry);
                    proof {
                        assert(entry_views(entries@) =~= entry_views(before) + seq![entry@]);
                        match spec_dir_records(buffer@, offset + record_len) {
                            Ok(r) => {
                                assert(entry_views(before) + (seq![entry@] + r) =~= entry_views(
                                    entries@,
                                ) + r);
                            },
                            Err(_) => {},
                        }
                    }
                },
                Err(e) => {
                    return Err(e);
                },
            }
        }
        offset = offset + record_len;
    }
    assert(entry_views(entries@) + Seq::<EntryView>::empty() =~= entry_views(entries@));
    Ok(entries)
}

/// The root directory that a primary volume descriptor records: the
/// descriptor must carry type code 1, and its root record is bytes 156..190.
pub open spec fn spec_volume_root(sector: Seq<u8>) -> Result<EntryView, IsoError> {
    if sector[0] != 1 {
        Err(IsoError::NotPrimaryVolume)
    } else {
        spec_parse_entry(sector.subrange(156, 190))
    }
}

/// Reads the root directory entry out of the primary volume descriptor.
pub fn read_volume_root(sector: &[u8]) -> (res: Result<DirectoryEntry, IsoError>)
    requires
        sector@.len() == LOGICAL_BLOCK_SIZE,
    ensures
        entry_result_view(res) == spec_volume_root(sector@),
{
    if sector[0] != 1 {
        return Err(IsoError::NotPrimaryVolume);
    }
    let root_record = vstd::slice::slice_subrange(sector, 156, 190);
    if 33 + root_record[32] as usize > root_record.len() {
        return Err(IsoError::Truncated);
    }
    parse_directory_entry(root_record)
}

/// Byte offset of a logical block in the image.
pub fn block_offset(lba: u64) -> (res: u64)
    requires
        lba <= u32::MAX,
    ensures
        res == lba * LOGICAL_BLOCK_SIZE,
{
    lba * LOGICAL_BLOCK_SIZE
}

/// How an entry's name reads as a path component: the recorded name
/// without its trailing `;` run, then without its trailing `.` run.
pub open spec fn component_name(identifier: Seq<char>) -> Seq<char> {
    trim_end(trim_end(identifier, ';'), '.')
}

/// The position of the first entry at or after `from` whose name reads as `name`.
pub open spec fn named_index_from(entries: Seq<EntryView>, name: Seq<char>, from: int) -> Option<int>
    decreases entries.len() - from,
{
    if from < 0 || from >= entries.len() {
        None
    } else if component_name(entries[from].identifier) == name {
        Some(from)
    } else {
        named_index_from(entries, name, from + 1)
    }
}

/// The first entry whose name reads as `name`.
pub open spec fn find_named(entries: Seq<EntryView>, name: Seq<char>) -> Option<EntryView> {
    match named_index_from(entries, name, 0) {
        Some(i) => Some(entries[i]),
        None => None,
    }
}

/// The name of an entry as a path component.
pub fn entry_component_name(entry: &DirectoryEntry) -> (res: String)
    ensures
        res@ == component_name(entry.identifier@),
{
    let without_versions = trim_end_char(entry.identifier.as_str(), ';');
    trim_end_char(without_versions.as_str(), '.')
}

/// A copy of the first entry whose name reads as `name`.
pub fn find_entry(entries: &Vec<DirectoryEntry>, name: &str) -> (res: Option<DirectoryEntry>)
    ensures
        res matches Some(e) ==> find_named(entry_views(entries@), name@) == Some(e@),
        res is None ==> find_named(entry_views(entries@), name@) is None,
{
    let ghost views = entry_views(entries@);
    let n = entries.len();
    let mut i: usize = 0;
    while i < n
        invariant
            n == entries@.len(),
            views == entry_views(entries@),
            i <= n,
            named_index_from(views, name@, i as int) == named_index_from(views, name@, 0),
        decreases n - i,
    {
        let candidate = entry_component_name(&entries[i]);
        if candidate == name.to_owned() {
            assert(views[i as int] == entries@[i as int]@);
            return Some(entries[i].duplicate());
        }
        assert(views[i as int] == entries@[i as int]@);
        i = i + 1;
    }
    None
}

/// Where a path lookup in an image stands: the path's components, how many
/// of them were resolved, and the entry reached so far.
pub struct PathLookup {
    components: Vec<String>,
    position: usize,
    current: DirectoryEntry,
}

/// What a path lookup needs next, or how it ended.
pub enum LookupStep {
    /// The contents of this directory are needed.
    ReadDirectory(DirectoryEntry),
    /// The path names this entry.
    Found(DirectoryEntry),
    /// The path names nothing: a component is missing, or a file stands
    /// where a directory is needed.
    Missing,
}

impl PathLookup {
    /// The resolved count never exceeds the number of components.
    #[verifier::type_invariant]
    spec fn well_formed(&self) -> bool {
        self.position <= self.components@.len()
    }

    /// The path's components as plain character sequences.
    pub closed spec fn component_views(&self) -> Seq<Seq<char>> {
        string_views(self.components@)
    }

    /// How many components were resolved.
    pub closed spec fn resolved(&self) -> nat {
        self.position as nat
    }

    /// The entry reached so far.
    pub closed spec fn reached(&self) -> EntryView {
        self.current@
    }

    /// Starts looking up `path` (components separated by `/`, empty ones
    /// ignored) from the directory `root`.
    pub fn new(root: &DirectoryEntry, path: &str) -> (res: PathLookup)
        ensures
            res.component_views() == nonempty_pieces(path@, '/'),
            res.resolved() == 0,
            res.reached() == root@,
    {
        PathLookup { components: split_nonempty(path, '/'), position: 0, current: root.duplicate() }
    }

    /// How many components were resolved.
    pub fn position(&self) -> (res: usize)
        ensures
            res == self.resolved(),
    {
        self.position
    }

    /// What the lookup needs next: all components resolved gives the entry
    /// reached; a file reached before the end gives `Missing`; otherwise the
    /// directory reached must be read.
    pub fn step(&self) -> (res: LookupStep)
        ensures
            self.resolved() == self.component_views().len() ==> (res matches LookupStep::Found(e)
                && e@ == self.reached()),
            self.resolved() < self.component_views().len() && !self.reached().is_dir ==> res
                is Missing,
            self.resolved() < self.component_views().len() && self.reached().is_dir ==> (
            res matches LookupStep::ReadDirectory(d) && d@ == self.reached()),
    {
        proof {
            use_type_invariant(self);
        }
        if self.position == self.components.len() {
            LookupStep::Found(self.current.duplicate())
        } else if !self.current.is_dir {
            LookupStep::Missing
        } else {
            LookupStep::ReadDirectory(self.current.duplicate())
        }
    }

    /// Resolves the next component among the `entries` of the directory
    /// reached; gives false, and changes nothing, when no entry has that name.
    pub fn enter(&mut self, entries: &Vec<DirectoryEntry>) -> (found: bool)
        requires
            old(self).resolved() < old(self).component_views().len(),
        ensures
            final(self).component_views() == old(self).component_views(),
            match find_named(
                entry_views(entries@),
                old(self).component_views()[old(self).resolved() as int],
            ) {
                Some(e) => found && final(self).resolved() == old(self).resolved() + 1
                    && final(self).reached() == e,
                None => !found && final(self).resolved() == old(self).resolved()
                    && final(self).reached() == old(self).reached(),
            },
    {
        proof {
            use_type_invariant(&*self);
        }
        let count = self.components.len();
        assert(self.position < count);
        let name = self.components[self.position].as_str();
        match find_entry(entries, name) {
            Some(e) => {
                self.current = e;
                self.position = self.position + 1;
                true
            },
            None => false,
        }
    }
}

} // verus!
