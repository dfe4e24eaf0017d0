//! Checkpoint and history files: names, headers, order, and what is evicted.
//!
//! A file is a small plain header, so that a foreign or an outdated file is told apart
//! cheaply, and a compressed body.

use vstd::prelude::*;
use vstd::slice::slice_subrange;
use crate::bytes::{
    bytes_give_the_number_back, decimal, decimals_read_back, le_bytes, le_value, lemma_le_bound,
    lemma_le_len, lemma_limits, number_in, parse_number, push_decimal, push_le, read_le,
};
use crate::order::{arranged, key_views, leads, stable_order};
use crate::phase::{index_of, Phase};
use crate::text::{chars_of, spells, string_of};

verus! {

/// Format version of checkpoint files.
pub const PLANET_FORMAT_VERSION: u32 = 5;

/// Bytes before the body of a checkpoint file: magic, format version, flags.
pub const PLANET_HEADER_LEN: usize = 16;

/// Bytes before the body of a history file: magic, version, time, phase.
pub const HIST_HEADER_LEN: usize = 25;

/// Compression level of every body.
pub const ZSTD_LEVEL: i32 = 3;

/// Error of a compressor or decompressor.
#[verifier::external_type_specification]
#[verifier::external_body]
pub struct ExIoError(std::io::Error);

/// What `zstd::stream::encode_all` makes of bytes at a level.
pub uninterp spec fn compressed(bytes: Seq<u8>, level: int) -> Seq<u8>;

/// What `zstd::stream::decode_all` makes of bytes; `None` where they are no zstd frames.
pub uninterp spec fn decompressed(bytes: Seq<u8>) -> Option<Seq<u8>>;

/// Calls `zstd::stream::encode_all`. What comes back is fixed by the bytes and the level, and
/// decompresses to the bytes again. When the call fails is not stated: that rests on the
/// memory that the compressor can get.
#[verifier::external_body]
fn zstd_encode(bytes: &[u8], level: i32) -> (r: Result<Vec<u8>, std::io::Error>)
    ensures
        r matches Ok(v) ==> v@ == compressed(bytes@, level as int),
        r matches Ok(v) ==> decompressed(v@) == Some(bytes@),
{
    zstd::stream::encode_all(bytes, level)
}

/// Calls `zstd::stream::decode_all`. What comes back is fixed by the bytes. When the call
/// fails is not stated: that rests on the memory that the decompressor can get, besides the
/// bytes.
#[verifier::external_body]
fn zstd_decode(bytes: &[u8]) -> (r: Result<Vec<u8>, std::io::Error>)
    ensures
        r matches Ok(v) ==> decompressed(bytes@) == Some(v@),
{
    zstd::stream::decode_all(bytes)
}

/// Why a file was not written or not read.
#[derive(Debug, PartialEq, Eq, Clone, Copy, Structural)]
pub enum StoreError {
    /// Shorter than its header.
    Truncated,
    /// Not a file of this kind.
    BadMagic,
    /// Written in another format.
    Version { found: u32 },
    /// The body could not be compressed.
    Compress,
    /// The body could not be decompressed.
    Decompress,
}

/// The first bytes of a checkpoint file: `IWPLANET`.
pub open spec fn planet_magic() -> Seq<u8> {
    seq![73u8, 87u8, 80u8, 76u8, 65u8, 78u8, 69u8, 84u8]
}

/// The first bytes of a history file: `IWHIST` and two zeros.
pub open spec fn hist_magic() -> Seq<u8> {
    seq![73u8, 87u8, 72u8, 73u8, 83u8, 84u8, 0u8, 0u8]
}

/// A checkpoint file with a body: magic, format version, no flags, body.
pub open spec fn checkpoint_frame(body: Seq<u8>) -> Seq<u8> {
    planet_magic() + le_bytes(PLANET_FORMAT_VERSION as nat, 4) + le_bytes(0, 4) + body
}

/// The body of a checkpoint file, or why there is none.
pub open spec fn checkpoint_body(buf: Seq<u8>) -> Result<Seq<u8>, StoreError> {
    if buf.len() < PLANET_HEADER_LEN {
        Err(StoreError::Truncated)
    } else if buf.take(8) != planet_magic() {
        Err(StoreError::BadMagic)
    } else if le_value(buf.subrange(8, 12)) != PLANET_FORMAT_VERSION {
        Err(StoreError::Version { found: le_value(buf.subrange(8, 12)) as u32 })
    } else {
        Ok(buf.skip(PLANET_HEADER_LEN as int))
    }
}

/// The header of a history file.
pub open spec fn hist_header(version: u64, time_bits: u64, phase: Phase) -> Seq<u8> {
    hist_magic() + le_bytes(version as nat, 8) + le_bytes(time_bits as nat, 8) + seq![
        index_of(phase) as u8,
    ]
}

/// What is wrong with the header of a history file, if anything.
pub open spec fn hist_fault(buf: Seq<u8>) -> Option<StoreError> {
    if buf.len() < HIST_HEADER_LEN {
        Some(StoreError::Truncated)
    } else if buf.take(8) != hist_magic() {
        Some(StoreError::BadMagic)
    } else {
        None
    }
}

/// The first bytes of a checkpoint file.
fn magic_of_planets() -> (m: Vec<u8>)
    ensures
        m@ == planet_magic(),
{
    let m: Vec<u8> = vec![73u8, 87u8, 80u8, 76u8, 65u8, 78u8, 69u8, 84u8];
    assert(m@ =~= planet_magic());
    m
}

/// The first bytes of a history file.
fn magic_of_history() -> (m: Vec<u8>)
    ensures
        m@ == hist_magic(),
{
    let m: Vec<u8> = vec![73u8, 87u8, 72u8, 73u8, 83u8, 84u8, 0u8, 0u8];
    assert(m@ =~= hist_magic());
    m
}

/// Whether `buf` starts with `magic`.
fn starts_with(buf: &[u8], magic: &Vec<u8>) -> (r: bool)
    requires
        magic@.len() <= buf@.len(),
    ensures
        r == (buf@.take(magic@.len() as int) == magic@),
{
    let mut i: usize = 0;
    while i < magic.len()
        invariant
            i <= magic@.len() <= buf@.len(),
            forall|k: int| 0 <= k < i ==> buf@[k] == magic@[k],
        decreases magic@.len() - i,
    {
        if buf[i] != magic[i] {
            assert(buf@.take(magic@.len() as int)[i as int] != magic@[i as int]);
            return false;
        }
        i = i + 1;
    }
    assert(buf@.take(magic@.len() as int) =~= magic@);
    true
}

/// Appends bytes.
fn push_all(out: &mut Vec<u8>, more: &[u8])
    ensures
        final(out)@ == old(out)@ + more@,
{
    let ghost was = out@;
    let mut i: usize = 0;
    assert(out@ =~= was + more@.take(0));
    while i < more.len()
        invariant
            i <= more@.len(),
            out@ == was + more@.take(i as int),
        decreases more@.len() - i,
    {
        out.push(more[i]);
        i = i + 1;
        assert(out@ =~= was + more@.take(i as int));
    }
    assert(more@.take(i as int) =~= more@);
}

/// The checkpoint file with a compressed body.
pub fn frame_checkpoint(body: &[u8]) -> (buf: Vec<u8>)
    ensures
        buf@ == checkpoint_frame(body@),
{
    let mut buf = magic_of_planets();
    push_le(&mut buf, PLANET_FORMAT_VERSION as u64, 4);
    push_le(&mut buf, 0, 4);
    push_all(&mut buf, body);
    buf
}

/// The compressed body of a checkpoint file.
pub fn open_checkpoint<'a>(buf: &'a [u8]) -> (r: Result<&'a [u8], StoreError>)
    ensures
        match checkpoint_body(buf@) {
            Ok(body) => r matches Ok(b) && b@ == body,
            Err(e) => r matches Err(f) && e == f,
        },
{
    if buf.len() < PLANET_HEADER_LEN {
        return Err(StoreError::Truncated);
    }
    if !starts_with(buf, &magic_of_planets()) {
        return Err(StoreError::BadMagic);
    }
    let found = read_le(buf, 8, 4);
    proof {
        lemma_le_bound(buf@.subrange(8, 12));
        lemma_limits();
    }
    if found != PLANET_FORMAT_VERSION as u64 {
        return Err(StoreError::Version { found: found as u32 });
    }
    let body = slice_subrange(buf, PLANET_HEADER_LEN, buf.len());
    assert(body@ =~= buf@.skip(PLANET_HEADER_LEN as int));
    Ok(body)
}

/// Refuses a history file without a whole header of its kind.
pub fn validate_header(buf: &[u8]) -> (r: Result<(), StoreError>)
    ensures
        r == match hist_fault(buf@) {
            Some(e) => Err::<(), StoreError>(e),
            None => Ok::<(), StoreError>(()),
        },
{
    if buf.len() < HIST_HEADER_LEN {
        return Err(StoreError::Truncated);
    }
    if !starts_with(buf, &magic_of_history()) {
        return Err(StoreError::BadMagic);
    }
    Ok(())
}

/// Version and time, as the bits of a number, from the header of a history file.
pub fn read_header(header: &[u8]) -> (r: Result<(u64, u64), StoreError>)
    ensures
        match hist_fault(header@) {
            Some(e) => r == Err::<(u64, u64), StoreError>(e),
            None => r matches Ok(h) && h.0 == le_value(header@.subrange(8, 16)) && h.1 == le_value(
                header@.subrange(16, 24),
            ),
        },
{
    match validate_header(header) {
        Err(e) => Err(e),
        Ok(()) => Ok((read_le(header, 8, 8), read_le(header, 16, 8))),
    }
}

/// The history file with a compressed body.
pub fn frame_snapshot(version: u64, time_bits: u64, phase: Phase, body: &[u8]) -> (buf: Vec<u8>)
    ensures
        buf@ == hist_header(version, time_bits, phase) + body@,
{
    let mut buf = magic_of_history();
    push_le(&mut buf, version, 8);
    push_le(&mut buf, time_bits, 8);
    buf.push(phase.index() as u8);
    assert(buf@ =~= hist_header(version, time_bits, phase));
    push_all(&mut buf, body);
    buf
}

/// Where the last dot of a name is.
pub open spec fn last_dot(s: Seq<char>) -> Option<int>
    decreases s.len(),
{
    if s.len() == 0 {
        None
    } else if s.last() == '.' {
        Some(s.len() - 1)
    } else {
        last_dot(s.drop_last())
    }
}

/// The stem of a file name with the given extension. A name that only starts with a dot has
/// no extension.
pub open spec fn stem_before(name: Seq<char>, ext: Seq<char>) -> Option<Seq<char>> {
    match last_dot(name) {
        Some(p) => if p > 0 && name.skip(p + 1) == ext {
            Some(name.take(p))
        } else {
            None
        },
        None => None,
    }
}

/// Where the last dot is, if it is not the first character.
fn dot_in(s: &Vec<char>) -> (r: Option<usize>)
    ensures
        match last_dot(s@) {
            Some(p) => if p > 0 {
                r == Some(p as usize) && p < s@.len()
            } else {
                r is None
            },
            None => r is None,
        },
{
    let mut i: usize = s.len();
    assert(s@.take(i as int) =~= s@);
    while i > 0
        invariant
            i <= s@.len(),
            last_dot(s@) == last_dot(s@.take(i as int)),
        decreases i,
    {
        if s[i - 1] == '.' {
            return if i > 1 {
                Some(i - 1)
            } else {
                None
            };
        }
        assert(s@.take(i as int).drop_last() =~= s@.take(i - 1));
        i = i - 1;
    }
    None
}

/// The tag of a checkpoint file, by its name; `None` for any other file.
pub fn checkpoint_tag(name: &str) -> (r: Option<String>)
    ensures
        match stem_before(name@, "iwp"@) {
            Some(t) => r matches Some(s) && s@ == t,
            None => r is None,
        },
{
    let s = chars_of(name);
    let n: usize = s.len();
    match dot_in(&s) {
        None => None,
        Some(p) => {
            assert(s@.subrange(p + 1, s@.len() as int) =~= s@.skip(p + 1));
            assert(s@.subrange(0, p as int) =~= s@.take(p as int));
            if spells(&s, p + 1, n, "iwp") {
                Some(string_of(&s, 0, p))
            } else {
                None
            }
        },
    }
}

/// The version of a history file, by its name.
pub open spec fn version_in(name: Seq<char>) -> Option<u64> {
    match stem_before(name, "iwh"@) {
        Some(t) => number_in(t),
        None => None,
    }
}

/// The version of a history file, by its name; `None` for any other file.
pub fn history_version(name: &str) -> (r: Option<u64>)
    ensures
        r == version_in(name@),
{
    let s = chars_of(name);
    let n: usize = s.len();
    match dot_in(&s) {
        None => None,
        Some(p) => {
            assert(s@.subrange(p + 1, s@.len() as int) =~= s@.skip(p + 1));
            assert(s@.subrange(0, p as int) =~= s@.take(p as int));
            if spells(&s, p + 1, n, "iwh") {
                parse_number(slice_subrange(s.as_slice(), 0, p))
            } else {
                None
            }
        },
    }
}

/// A file below a directory: each step is joined to what stands before it.
#[derive(Debug)]
pub struct FilePath {
    pub root: String,
    pub steps: Vec<String>,
}

/// A path as characters.
pub struct Route {
    pub root: Seq<char>,
    pub steps: Seq<Seq<char>>,
}

impl View for FilePath {
    type V = Route;

    open spec fn view(&self) -> Route {
        Route { root: self.root@, steps: Seq::new(self.steps@.len(), |i: int| self.steps@[i]@) }
    }
}

/// A file to write in two moves: the bytes go to a scratch file, which then takes the
/// target's name, so that the target is never seen half written.
#[derive(Debug)]
pub struct WritePlan {
    pub bytes: Vec<u8>,
    pub scratch: FilePath,
    pub target: FilePath,
}

/// Appends text.
fn push_text(out: &mut String, more: &str)
    ensures
        final(out)@ == old(out)@ + more@,
{
    let ghost was = out@;
    let s = chars_of(more);
    let mut i: usize = 0;
    assert(out@ =~= was + s@.take(0));
    while i < s.len()
        invariant
            i <= s@.len(),
            s@ == more@,
            out@ == was + s@.take(i as int),
        decreases s@.len() - i,
    {
        out.push(s[i]);
        i = i + 1;
        assert(out@ =~= was + s@.take(i as int));
    }
    assert(s@.take(i as int) =~= more@);
}

/// A checkpoint file and when it was last changed.
#[derive(Debug)]
pub struct SavedFile {
    pub tag: String,
    pub modified: i128,
}

/// Checkpoints are listed by time, then by name.
pub open spec fn saved_key(s: SavedFile) -> Seq<i128> {
    seq![s.modified] + Seq::new(s.tag@.len(), |i: int| s.tag@[i] as u32 as i128)
}

/// The keys of checkpoints.
pub open spec fn saved_keys(found: Seq<SavedFile>) -> Seq<Seq<i128>> {
    Seq::new(found.len(), |i: int| saved_key(found[i]))
}

/// `tags` are the tags of `found`, in the order of time, then of name.
pub open spec fn lists(tags: Seq<String>, found: Seq<SavedFile>, order: Seq<usize>) -> bool {
    &&& arranged(saved_keys(found), order, found.len() as int)
    &&& tags.len() == found.len()
    &&& forall|i: int| 0 <= i < tags.len() ==> (#[trigger] tags[i])@ == found[order[i] as int].tag@
}

/// Full checkpoints, one file per tag in a directory.
#[derive(Debug)]
pub struct FileStore {
    pub dir: String,
}

/// The file of a checkpoint.
pub open spec fn checkpoint_route(dir: Seq<char>, tag: Seq<char>) -> Route {
    Route { root: dir, steps: seq![tag + ".iwp"@] }
}

/// The scratch file of a checkpoint.
pub open spec fn checkpoint_scratch(dir: Seq<char>, tag: Seq<char>) -> Route {
    Route { root: dir, steps: seq![tag + ".iwp.tmp"@] }
}

impl FileStore {
    /// A store in a directory.
    pub fn new(dir: String) -> (s: FileStore)
        ensures
            s.dir == dir,
    {
        FileStore { dir }
    }

    /// The file of a tag.
    pub fn path_for(&self, tag: &str) -> (p: FilePath)
        ensures
            p@ == checkpoint_route(self.dir@, tag@),
    {
        let mut name = String::new();
        push_text(&mut name, tag);
        push_text(&mut name, ".iwp");
        let p = FilePath { root: self.dir.clone(), steps: vec![name] };
        assert(name@ =~= tag@ + ".iwp"@);
        assert(p@.steps =~= checkpoint_route(self.dir@, tag@).steps);
        p
    }

    /// The scratch file of a tag.
    pub fn scratch_for(&self, tag: &str) -> (p: FilePath)
        ensures
            p@ == checkpoint_scratch(self.dir@, tag@),
    {
        let mut name = String::new();
        push_text(&mut name, tag);
        push_text(&mut name, ".iwp.tmp");
        let p = FilePath { root: self.dir.clone(), steps: vec![name] };
        assert(name@ =~= tag@ + ".iwp.tmp"@);
        assert(p@.steps =~= checkpoint_scratch(self.dir@, tag@).steps);
        p
    }

    /// How to write a checkpoint: the serialized planet, compressed, behind its header.
    pub fn save(&self, tag: &str, body: &[u8]) -> (r: Result<WritePlan, StoreError>)
        ensures
            match r {
                Ok(plan) => {
                    &&& plan.bytes@ == checkpoint_frame(compressed(body@, ZSTD_LEVEL as int))
                    &&& decompressed(compressed(body@, ZSTD_LEVEL as int)) == Some(body@)
                    &&& plan.scratch@ == checkpoint_scratch(self.dir@, tag@)
                    &&& plan.target@ == checkpoint_route(self.dir@, tag@)
                },
                Err(e) => e == StoreError::Compress,
            },
    {
        let squeezed = match zstd_encode(body, ZSTD_LEVEL) {
            Ok(v) => v,
            Err(_) => {
                return Err(StoreError::Compress);
            },
        };
        let bytes = frame_checkpoint(squeezed.as_slice());
        Ok(WritePlan { bytes, scratch: self.scratch_for(tag), target: self.path_for(tag) })
    }

    /// The serialized planet in the bytes of a checkpoint file.
    pub fn load(&self, buf: &[u8]) -> (r: Result<Vec<u8>, StoreError>)
        ensures
            match checkpoint_body(buf@) {
                Err(e) => r matches Err(f) && f == e,
                Ok(body) => match r {
                    Ok(v) => decompressed(body) == Some(v@),
                    Err(f) => f == StoreError::Decompress,
                },
            },
    {
        match open_checkpoint(buf) {
            Err(e) => Err(e),
            Ok(body) => match zstd_decode(body) {
                Ok(v) => Ok(v),
                Err(_) => Err(StoreError::Decompress),
            },
        }
    }

    /// The tags of checkpoint files, oldest first, and by name where the times are the same.
    pub fn list(&self, found: &Vec<SavedFile>) -> (tags: Vec<String>)
        ensures
            exists|order: Seq<usize>| lists(tags@, found@, order),
    {
        let mut keys: Vec<Vec<i128>> = Vec::new();
        let mut i: usize = 0;
        while i < found.len()
            invariant
                i <= found@.len(),
                keys@.len() == i,
                forall|k: int| 0 <= k < i ==> (#[trigger] keys@[k])@ == saved_key(found@[k]),
            decreases found@.len() - i,
        {
            keys.push(key_of(&found[i]));
            i = i + 1;
        }
        assert(key_views(keys@) =~= saved_keys(found@));
        let order = stable_order(&keys);
        let mut tags: Vec<String> = Vec::new();
        let mut j: usize = 0;
        while j < order.len()
            invariant
                j <= order@.len(),
                order@.len() == found@.len(),
                tags@.len() == j,
                arranged(saved_keys(found@), order@, found@.len() as int),
                forall|k: int|
                    0 <= k < j ==> (#[trigger] tags@[k])@ == found@[order@[k] as int].tag@,
            decreases order@.len() - j,
        {
            tags.push(found[order[j]].tag.clone());
            j = j + 1;
        }
        assert(lists(tags@, found@, order@));
        tags
    }
}

/// The key by which a checkpoint is listed.
fn key_of(s: &SavedFile) -> (key: Vec<i128>)
    ensures
        key@ == saved_key(*s),
{
    let mut key: Vec<i128> = vec![s.modified];
    let c = chars_of(s.tag.as_str());
    let mut i: usize = 0;
    assert(key@ =~= seq![s.modified]);
    while i < c.len()
        invariant
            i <= c@.len(),
            c@ == s.tag@,
            key@ == seq![s.modified] + Seq::new(i as nat, |k: int| s.tag@[k] as u32 as i128),
        decreases c@.len() - i,
    {
        key.push(c[i] as u32 as i128);
        i = i + 1;
        assert(key@ =~= seq![s.modified] + Seq::new(i as nat, |k: int| s.tag@[k] as u32 as i128));
    }
    key
}

/// A history file: its version and its size.
#[derive(Debug, Clone, Copy)]
pub struct HistFile {
    pub version: u64,
    pub size_bytes: u64,
}

/// The keys of history files.
pub open spec fn hist_keys(files: Seq<HistFile>) -> Seq<Seq<i128>> {
    Seq::new(files.len(), |i: int| seq![files[i].version as i128])
}

/// Bytes of the files that `order` names from place `at` on.
pub open spec fn bytes_from(files: Seq<HistFile>, order: Seq<usize>, at: int) -> nat
    decreases order.len() - at,
{
    if at >= order.len() {
        0
    } else {
        files[order[at] as int].size_bytes as nat + bytes_from(files, order, at + 1)
    }
}

/// With `at` files evicted no further one has to go: what is left fits, or is one file.
pub open spec fn settled(files: Seq<HistFile>, order: Seq<usize>, cap: nat, at: int) -> bool {
    bytes_from(files, order, at) <= cap || order.len() - at <= 1
}

/// `at` is the fewest evictions, oldest first, after which no further file has to go.
pub open spec fn fewest(files: Seq<HistFile>, order: Seq<usize>, cap: nat, at: int) -> bool {
    &&& 0 <= at <= order.len()
    &&& settled(files, order, cap, at)
    &&& forall|k: int| 0 <= k < at ==> !#[trigger] settled(files, order, cap, k)
}

/// `gone` are the files to evict of `files`, oldest first.
pub open spec fn evicts(
    gone: Seq<usize>,
    files: Seq<HistFile>,
    cap: nat,
    order: Seq<usize>,
) -> bool {
    &&& arranged(hist_keys(files), order, files.len() as int)
    &&& fewest(files, order, cap, gone.len() as int)
    &&& gone == order.take(gone.len() as int)
}

/// Snapshots for scrubbing back through a run, one file per version, within a disk budget.
#[derive(Debug)]
pub struct HistoryStore {
    pub dir: String,
    pub cap_bytes: u64,
}

/// The file of a snapshot.
pub open spec fn history_route(dir: Seq<char>, version: u64) -> Route {
    Route { root: dir, steps: seq!["history"@, decimal(version as nat) + ".iwh"@] }
}

/// The scratch file of a snapshot.
pub open spec fn history_scratch(dir: Seq<char>, version: u64) -> Route {
    Route { root: dir, steps: seq!["history"@, decimal(version as nat) + ".iwh.tmp"@] }
}

impl HistoryStore {
    /// A store below a directory, with a budget.
    pub fn new(dir: String, cap_bytes: u64) -> (s: HistoryStore)
        ensures
            s.dir == dir,
            s.cap_bytes == cap_bytes,
    {
        HistoryStore { dir, cap_bytes }
    }

    /// The directory of the snapshots.
    pub fn folder(&self) -> (p: FilePath)
        ensures
            p@ == (Route { root: self.dir@, steps: seq!["history"@] }),
    {
        let mut name = String::new();
        push_text(&mut name, "history");
        let p = FilePath { root: self.dir.clone(), steps: vec![name] };
        assert(name@ =~= "history"@);
        assert(p@.steps =~= seq!["history"@]);
        p
    }

    /// The file of a version.
    pub fn path_for(&self, version: u64) -> (p: FilePath)
        ensures
            p@ == history_route(self.dir@, version),
    {
        let mut p = self.folder();
        assert(p@.steps.len() == 1);
        assert(p.steps@[0]@ == p@.steps[0]);
        let mut name = String::new();
        push_decimal(&mut name, version);
        push_text(&mut name, ".iwh");
        assert(name@ =~= decimal(version as nat) + ".iwh"@);
        p.steps.push(name);
        assert(p@.steps =~= history_route(self.dir@, version).steps);
        p
    }

    /// The scratch file of a version.
    pub fn scratch_for(&self, version: u64) -> (p: FilePath)
        ensures
            p@ == history_scratch(self.dir@, version),
    {
        let mut p = self.folder();
        assert(p@.steps.len() == 1);
        assert(p.steps@[0]@ == p@.steps[0]);
        let mut name = String::new();
        push_decimal(&mut name, version);
        push_text(&mut name, ".iwh.tmp");
        assert(name@ =~= decimal(version as nat) + ".iwh.tmp"@);
        p.steps.push(name);
        assert(p@.steps =~= history_scratch(self.dir@, version).steps);
        p
    }

    /// How to write a snapshot: serialized and compressed, behind its header.
    pub fn write_snapshot(
        &self,
        version: u64,
        time_bits: u64,
        phase: Phase,
        body: &[u8],
    ) -> (r: Result<WritePlan, StoreError>)
        ensures
            match r {
                Ok(plan) => {
                    &&& plan.bytes@ == hist_header(version, time_bits, phase) + compressed(
                        body@,
                        ZSTD_LEVEL as int,
                    )
                    &&& decompressed(compressed(body@, ZSTD_LEVEL as int)) == Some(body@)
                    &&& plan.scratch@ == history_scratch(self.dir@, version)
                    &&& plan.target@ == history_route(self.dir@, version)
                },
                Err(e) => e == StoreError::Compress,
            },
    {
        let squeezed = match zstd_encode(body, ZSTD_LEVEL) {
            Ok(v) => v,
            Err(_) => {
                return Err(StoreError::Compress);
            },
        };
        let bytes = frame_snapshot(version, time_bits, phase, squeezed.as_slice());
        Ok(WritePlan { bytes, scratch: self.scratch_for(version), target: self.path_for(version) })
    }

    /// The serialized snapshot in the bytes of a history file.
    pub fn load(&self, buf: &[u8]) -> (r: Result<Vec<u8>, StoreError>)
        ensures
            match hist_fault(buf@) {
                Some(e) => r matches Err(f) && f == e,
                None => match r {
                    Ok(v) => decompressed(buf@.skip(HIST_HEADER_LEN as int)) == Some(v@),
                    Err(f) => f == StoreError::Decompress,
                },
            },
    {
        match validate_header(buf) {
            Err(e) => Err(e),
            Ok(()) => {
                let body = slice_subrange(buf, HIST_HEADER_LEN, buf.len());
                assert(body@ =~= buf@.skip(HIST_HEADER_LEN as int));
                match zstd_decode(body) {
                    Ok(v) => Ok(v),
                    Err(_) => Err(StoreError::Decompress),
                }
            },
        }
    }

    /// The order in which snapshots are listed: oldest version first.
    pub fn list(&self, files: &Vec<HistFile>) -> (order: Vec<usize>)
        ensures
            arranged(hist_keys(files@), order@, files@.len() as int),
    {
        let mut keys: Vec<Vec<i128>> = Vec::new();
        let mut i: usize = 0;
        while i < files.len()
            invariant
                i <= files@.len(),
                keys@.len() == i,
                forall|k: int|
                    0 <= k < i ==> (#[trigger] keys@[k])@ == seq![files@[k].version as i128],
            decreases files@.len() - i,
        {
            let key: Vec<i128> = vec![files[i].version as i128];
            assert(key@ =~= seq![files@[i as int].version as i128]);
            keys.push(key);
            i = i + 1;
        }
        assert(key_views(keys@) =~= hist_keys(files@));
        stable_order(&keys)
    }

    /// The files to evict, oldest first, until the rest is within the budget. One file stays
    /// whatever its size.
    pub fn enforce_cap(&self, files: &Vec<HistFile>) -> (gone: Vec<usize>)
        ensures
            exists|order: Seq<usize>| evicts(gone@, files@, self.cap_bytes as nat, order),
    {
        let order = self.list(files);
        let mut total: u128 = 0;
        let mut i: usize = order.len();
        while i > 0
            invariant
                i <= order@.len(),
                order@.len() == files@.len(),
                arranged(hist_keys(files@), order@, files@.len() as int),
                total == bytes_from(files@, order@, i as int),
                total <= (order@.len() - i) * u64::MAX,
            decreases i,
        {
            i = i - 1;
            assert((order@.len() - i) * u64::MAX <= u64::MAX * u64::MAX) by (nonlinear_arith)
                requires
                    order@.len() - i <= u64::MAX,
            ;
            assert((order@.len() - i) * u64::MAX == (order@.len() - i - 1) * u64::MAX + u64::MAX)
                by (nonlinear_arith);
            total = total + files[order[i]].size_bytes as u128;
        }
        let mut gone: Vec<usize> = Vec::new();
        assert(gone@ =~= order@.take(0));
        while total > self.cap_bytes as u128 && order.len() - gone.len() > 1
            invariant
                gone@.len() <= order@.len(),
                order@.len() == files@.len(),
                arranged(hist_keys(files@), order@, files@.len() as int),
                gone@ == order@.take(gone@.len() as int),
                total == bytes_from(files@, order@, gone@.len() as int),
                forall|k: int|
                    0 <= k < gone@.len() ==> !#[trigger] settled(
                        files@,
                        order@,
                        self.cap_bytes as nat,
                        k,
                    ),
            decreases order@.len() - gone@.len(),
        {
            let at = gone.len();
            let f = order[at];
            gone.push(f);
            total = total - files[f].size_bytes as u128;
            assert(gone@ =~= order@.take(gone@.len() as int));
        }
        assert(settled(files@, order@, self.cap_bytes as nat, gone@.len() as int));
        assert(evicts(gone@, files@, self.cap_bytes as nat, order@));
        gone
    }
}

/// What was saved is what is loaded: a written checkpoint opens, and its body decompresses to
/// what was serialized.
pub proof fn checkpoints_read_back(body: Seq<u8>)
    requires
        decompressed(compressed(body, ZSTD_LEVEL as int)) == Some(body),
    ensures
        checkpoint_body(checkpoint_frame(compressed(body, ZSTD_LEVEL as int))) matches Ok(c)
            && decompressed(c) == Some(body),
{
    let c = compressed(body, ZSTD_LEVEL as int);
    let buf = checkpoint_frame(c);
    lemma_limits();
    bytes_give_the_number_back(PLANET_FORMAT_VERSION as nat, 4);
    lemma_le_len(0, 4);
    assert(buf.take(8) =~= planet_magic());
    assert(buf.subrange(8, 12) =~= le_bytes(PLANET_FORMAT_VERSION as nat, 4));
    assert(buf.skip(PLANET_HEADER_LEN as int) =~= c);
}

/// What was pushed is what is loaded: a written snapshot has a sound header, which gives back
/// version and time, and its body decompresses to what was serialized.
pub proof fn snapshots_read_back(version: u64, time_bits: u64, phase: Phase, body: Seq<u8>)
    requires
        decompressed(compressed(body, ZSTD_LEVEL as int)) == Some(body),
    ensures
        ({
            let buf = hist_header(version, time_bits, phase) + compressed(body, ZSTD_LEVEL as int);
            &&& hist_fault(buf) is None
            &&& le_value(buf.subrange(8, 16)) == version
            &&& le_value(buf.subrange(16, 24)) == time_bits
            &&& decompressed(buf.skip(HIST_HEADER_LEN as int)) == Some(body)
        }),
{
    let c = compressed(body, ZSTD_LEVEL as int);
    let buf = hist_header(version, time_bits, phase) + c;
    lemma_limits();
    bytes_give_the_number_back(version as nat, 8);
    bytes_give_the_number_back(time_bits as nat, 8);
    assert(buf.take(8) =~= hist_magic());
    assert(buf.subrange(8, 16) =~= le_bytes(version as nat, 8));
    assert(buf.subrange(16, 24) =~= le_bytes(time_bits as nat, 8));
    assert(buf.skip(HIST_HEADER_LEN as int) =~= c);
}

/// A dot that no other dot follows is the last one.
proof fn lemma_last_dot(a: Seq<char>, b: Seq<char>)
    requires
        forall|i: int| 0 <= i < b.len() ==> b[i] != '.',
    ensures
        last_dot(a + seq!['.'] + b) == Some(a.len() as int),
    decreases b.len(),
{
    let s = a + seq!['.'] + b;
    if b.len() > 0 {
        lemma_last_dot(a, b.drop_last());
        assert(s.drop_last() =~= a + seq!['.'] + b.drop_last());
    }
}

/// A checkpoint's file is found under its tag again, and its scratch file under none. A tag
/// must not be empty: a name that starts with its only dot has no extension.
pub proof fn checkpoint_names_read_back(tag: Seq<char>)
    requires
        tag.len() > 0,
    ensures
        stem_before(tag + ".iwp"@, "iwp"@) == Some(tag),
        stem_before(tag + ".iwp.tmp"@, "iwp"@) is None,
{
    reveal_strlit("iwp");
    reveal_strlit(".iwp");
    reveal_strlit(".iwp.tmp");
    let a = tag + ".iwp"@;
    assert(a =~= tag + seq!['.'] + "iwp"@);
    lemma_last_dot(tag, "iwp"@);
    assert(a.skip(tag.len() as int + 1) =~= "iwp"@);
    assert(a.take(tag.len() as int) =~= tag);
    let b = tag + ".iwp.tmp"@;
    let front = tag + ".iwp"@;
    let back = seq!['t', 'm', 'p'];
    assert(b =~= front + seq!['.'] + back);
    lemma_last_dot(front, back);
    assert(b.skip(front.len() as int + 1)[0] == 't');
}

/// A snapshot's file is found under its version again, and its scratch file under none.
pub proof fn history_names_read_back(version: u64)
    ensures
        version_in(decimal(version as nat) + ".iwh"@) == Some(version),
        version_in(decimal(version as nat) + ".iwh.tmp"@) is None,
{
    reveal_strlit("iwh");
    reveal_strlit(".iwh");
    reveal_strlit(".iwh.tmp");
    let n = decimal(version as nat);
    decimals_read_back(version);
    let a = n + ".iwh"@;
    assert(a =~= n + seq!['.'] + "iwh"@);
    lemma_last_dot(n, "iwh"@);
    assert(a.skip(n.len() as int + 1) =~= "iwh"@);
    assert(a.take(n.len() as int) =~= n);
    let b = n + ".iwh.tmp"@;
    let front = n + ".iwh"@;
    let back = seq!['t', 'm', 'p'];
    assert(b =~= front + seq!['.'] + back);
    lemma_last_dot(front, back);
    assert(b.skip(front.len() as int + 1)[0] == 't');
}

/// Evicting leaves the newest snapshots: one at least, within the budget unless one is all
/// that is left, and none of them older than an evicted one. Where everything fits, nothing
/// is evicted.
pub proof fn eviction_keeps_the_newest(
    gone: Seq<usize>,
    files: Seq<HistFile>,
    cap: nat,
    order: Seq<usize>,
)
    requires
        evicts(gone, files, cap, order),
    ensures
        files.len() > 0 ==> gone.len() < files.len(),
        bytes_from(files, order, gone.len() as int) <= cap || files.len() - gone.len() <= 1,
        bytes_from(files, order, 0) <= cap ==> gone.len() == 0,
        forall|i: int, j: int|
            0 <= i < gone.len() <= j < files.len() ==> files[#[trigger] order[i] as int].version
                <= files[#[trigger] order[j] as int].version,
{
    if gone.len() > 0 {
        assert(!settled(files, order, cap, gone.len() - 1));
        assert(!settled(files, order, cap, 0));
    }
    assert forall|i: int, j: int| 0 <= i < gone.len() <= j < files.len() implies files[
        #[trigger] order[i] as int].version <= files[#[trigger] order[j] as int].version by {
        assert(leads(hist_keys(files), order[i] as int, order[j] as int));
    }
}

/// A checkpoint is opened exactly where it has a whole header, starts with `IWPLANET`, and was
/// written in the format of today; its body is all that follows the header. Of a file that fails
/// in several ways the first is told.
pub proof fn foreign_checkpoints_are_refused(buf: Seq<u8>)
    ensures
        checkpoint_body(buf) is Ok <==> buf.len() >= 16 && buf[0] == 73 && buf[1] == 87 && buf[2]
            == 80 && buf[3] == 76 && buf[4] == 65 && buf[5] == 78 && buf[6] == 69 && buf[7] == 84
            && buf[8] == 5 && buf[9] == 0 && buf[10] == 0 && buf[11] == 0,
        checkpoint_body(buf) matches Ok(body) ==> body == buf.skip(16),
        checkpoint_body(buf) == Err::<Seq<u8>, StoreError>(StoreError::Truncated) <==> buf.len()
            < 16,
        checkpoint_body(buf) matches Err(StoreError::Version { found }) ==> found != 5 && found
            == buf[8] + 256 * buf[9] + 65536 * buf[10] + 16777216 * buf[11],
{
    if buf.len() >= 16 {
        let v = buf.subrange(8, 12);
        lemma_four(v);
        let m = buf.take(8);
        if buf[0] == 73 && buf[1] == 87 && buf[2] == 80 && buf[3] == 76 && buf[4] == 65 && buf[5]
            == 78 && buf[6] == 69 && buf[7] == 84 {
            assert(m =~= planet_magic());
        } else if m == planet_magic() {
            assert(forall|i: int| 0 <= i < 8 ==> m[i] == buf[i]);
            assert(m[0] == 73 && m[1] == 87 && m[2] == 80 && m[3] == 76 && m[4] == 65 && m[5] == 78
                && m[6] == 69 && m[7] == 84);
        }
    }
}

/// The value of four bytes.
proof fn lemma_four(v: Seq<u8>)
    requires
        v.len() == 4,
    ensures
        le_value(v) == v[0] + 256 * v[1] + 65536 * v[2] + 16777216 * v[3],
{
    reveal_with_fuel(le_value, 5);
    assert(v.drop_first().drop_first().drop_first().drop_first().len() == 0);
    assert(v.drop_first()[0] == v[1]);
    assert(v.drop_first().drop_first()[0] == v[2]);
    assert(v.drop_first().drop_first().drop_first()[0] == v[3]);
}

/// A history file is accepted exactly where it has a whole header and starts with `IWHIST` and
/// two zeros; a checkpoint is never taken for one, nor the other way round.
pub proof fn foreign_snapshots_are_refused(buf: Seq<u8>)
    ensures
        hist_fault(buf) is None <==> buf.len() >= 25 && buf[0] == 73 && buf[1] == 87 && buf[2]
            == 72 && buf[3] == 73 && buf[4] == 83 && buf[5] == 84 && buf[6] == 0 && buf[7] == 0,
        hist_fault(buf) == Some(StoreError::Truncated) <==> buf.len() < 25,
        checkpoint_body(buf) is Ok ==> hist_fault(buf) is Some,
{
    foreign_checkpoints_are_refused(buf);
    if buf.len() >= 25 {
        let m = buf.take(8);
        if buf[0] == 73 && buf[1] == 87 && buf[2] == 72 && buf[3] == 73 && buf[4] == 83 && buf[5]
            == 84 && buf[6] == 0 && buf[7] == 0 {
            assert(m =~= hist_magic());
        } else if m == hist_magic() {
            assert(forall|i: int| 0 <= i < 8 ==> m[i] == buf[i]);
            assert(m[0] == 73 && m[1] == 87 && m[2] == 72 && m[3] == 73 && m[4] == 83 && m[5] == 84
                && m[6] == 0 && m[7] == 0);
        }
    }
}

/// Every checkpoint that was found is listed once, an older one before a newer one.
pub proof fn checkpoints_are_listed_by_age(
    tags: Seq<String>,
    found: Seq<SavedFile>,
    order: Seq<usize>,
    i: int,
    j: int,
)
    requires
        lists(tags, found, order),
        0 <= i < j < tags.len(),
    ensures
        tags.len() == found.len(),
        order[i] < found.len() && order[j] < found.len() && order[i] != order[j],
        tags[i]@ == found[order[i] as int].tag@,
        found[order[i] as int].modified <= found[order[j] as int].modified,
        forall|v: int| 0 <= v < found.len() ==> order.contains(#[trigger] (v as usize)),
{
    let keys = saved_keys(found);
    assert(leads(keys, order[i] as int, order[j] as int));
    assert(keys[order[i] as int][0] == found[order[i] as int].modified);
    assert(keys[order[j] as int][0] == found[order[j] as int].modified);
}

/// No file is evicted without need: with the last evicted one kept, what is kept would be over
/// the budget.
pub proof fn no_snapshot_goes_without_need(
    gone: Seq<usize>,
    files: Seq<HistFile>,
    cap: nat,
    order: Seq<usize>,
)
    requires
        evicts(gone, files, cap, order),
        gone.len() > 0,
    ensures
        files[gone.last() as int].size_bytes + bytes_from(files, order, gone.len() as int) > cap,
        forall|i: int| 0 <= i < gone.len() ==> #[trigger] gone[i] == order[i],
{
    assert(!settled(files, order, cap, gone.len() - 1));
    assert(gone.last() == order[gone.len() - 1]);
}

/// Files of one store do not get in each other's way: other tags have other files, and a scratch
/// file is no file of the same tag.
pub proof fn checkpoints_have_files_of_their_own(dir: Seq<char>, a: Seq<char>, b: Seq<char>)
    ensures
        a != b ==> checkpoint_route(dir, a) != checkpoint_route(dir, b),
        a != b ==> checkpoint_scratch(dir, a) != checkpoint_scratch(dir, b),
        checkpoint_route(dir, a) != checkpoint_scratch(dir, a),
        checkpoint_route(dir, a).root == dir,
        checkpoint_scratch(dir, a).root == dir,
        checkpoint_route(dir, a).steps.len() == 1,
        checkpoint_scratch(dir, a).steps.len() == 1,
{
    reveal_strlit(".iwp");
    reveal_strlit(".iwp.tmp");
    let (p, q) = (a + ".iwp"@, b + ".iwp"@);
    let (u, v) = (a + ".iwp.tmp"@, b + ".iwp.tmp"@);
    assert(checkpoint_route(dir, a).steps[0] == p && checkpoint_route(dir, b).steps[0] == q);
    assert(checkpoint_scratch(dir, a).steps[0] == u && checkpoint_scratch(dir, b).steps[0] == v);
    if p == q {
        assert(a.len() == b.len());
        assert(p.take(a.len() as int) =~= a);
        assert(q.take(b.len() as int) =~= b);
    }
    if u == v {
        assert(a.len() == b.len());
        assert(u.take(a.len() as int) =~= a);
        assert(v.take(b.len() as int) =~= b);
    }
    assert(p.len() != u.len());
}

/// The same of snapshots, whatever their versions.
pub proof fn snapshots_have_files_of_their_own(dir: Seq<char>, a: u64, b: u64)
    ensures
        a != b ==> history_route(dir, a) != history_route(dir, b),
        history_route(dir, a) != history_scratch(dir, b),
        history_route(dir, a).root == dir,
        history_route(dir, a).steps[0] == "history"@,
        history_scratch(dir, a).steps[0] == "history"@,
{
    history_names_read_back(a);
    history_names_read_back(b);
    assert(history_route(dir, a).steps[1] == decimal(a as nat) + ".iwh"@);
    assert(history_route(dir, b).steps[1] == decimal(b as nat) + ".iwh"@);
    assert(history_scratch(dir, b).steps[1] == decimal(b as nat) + ".iwh.tmp"@);
}

} // verus!
