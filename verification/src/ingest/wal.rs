//! Append-only write-ahead log.
//!
//! Frame format (all little-endian):
//!
//! ```text
//!   +0   u32   payload_len            (size in bytes of the user payload)
//!   +4   u32   crc32                  (over record_seq bytes + payload bytes)
//!   +8   u64   record_seq             (monotonic across all log files)
//!   +16  ...   payload (payload_len bytes)
//!   total: 16 + payload_len bytes
//! ```
//!
//! The checksum covers `record_seq` and `payload`, so a torn write at any
//! position is either seen as a file that ends early or fails the checksum.
//!
//! Records can be split across files: the writer rotates to a new file
//! whenever the current one reaches `rotation_bytes`. Replay advances to the
//! next file at a clean end.
//!
//! This module frames, reads and plans; it holds no file. The caller writes
//! the frames that `WalWriter::append` hands out, and hands in the bytes that
//! the files hold.

use vstd::bytes::{
    spec_u32_from_le_bytes, spec_u32_to_le_bytes, spec_u64_from_le_bytes, spec_u64_to_le_bytes,
    u32_from_le_bytes, u32_to_le_bytes, u64_from_le_bytes, u64_to_le_bytes,
};
use vstd::prelude::*;
use vstd::string::StringExecFns;
use crate::bytes::push_bytes;
use crate::ordered::{items_under, keyed, sort_by_key, stably_sorted, SortKey};
use crate::text::{
    chars_of, decimal, parse_unsigned, push_decimal, string_of, texts, unsigned_value,
};

verus! {

/// Bytes before the payload: length, checksum, record number.
pub const HEADER_BYTES: usize = 16;

/// 64 MiB.
pub const DEFAULT_ROTATION_BYTES: u64 = 67_108_864;

/// Why the log could not be written.
#[derive(Debug)]
pub enum WalError {
    Io(String),
    InvalidFileName(String),
    PayloadTooLarge(usize),
}

/// Why a record could not be read back.
#[derive(Debug)]
pub enum WalReadError {
    Io(String),
    CrcMismatch(u64),
    Truncated(String),
}

/// One record of the log.
#[derive(Debug, Clone, PartialEq, Eq)]
pub struct WalRecord {
    pub record_seq: u64,
    pub payload: Vec<u8>,
}

/// What is known of one log file: its number, the bytes read from it, and the
/// error that reading ended in, if it did not reach the end.
#[derive(Debug)]
pub struct WalFile {
    pub file_seq: u64,
    pub bytes: Vec<u8>,
    pub error: Option<String>,
}

/// The view of a `WalFile`.
pub struct FileView {
    pub file_seq: u64,
    pub bytes: Seq<u8>,
    pub error: Option<Seq<char>>,
}

impl View for WalFile {
    type V = FileView;

    open spec fn view(&self) -> FileView {
        FileView {
            file_seq: self.file_seq,
            bytes: self.bytes@,
            error: match self.error {
                Some(e) => Some(e@),
                None => None,
            },
        }
    }
}

/// The views of a list of files.
pub open spec fn file_views(files: Seq<WalFile>) -> Seq<FileView> {
    files.map_values(|f: WalFile| f@)
}

// ---------- frames ----------

/// What `crc32fast::hash` returns for these bytes.
pub uninterp spec fn crc32_of(bytes: Seq<u8>) -> u32;

/// `crc32fast::hash`: the CRC-32 checksum of the bytes. The checksum is named,
/// not spelled out.
#[verifier::external_body]
fn crc32(bytes: &[u8]) -> (r: u32)
    ensures
        r == crc32_of(bytes@),
{
    crc32fast::hash(bytes)
}

/// The checksummed part of a frame: record number, then payload.
pub open spec fn frame_body(seq: u64, payload: Seq<u8>) -> Seq<u8> {
    spec_u64_to_le_bytes(seq) + payload
}

/// The bytes of one record in the log.
pub open spec fn frame(seq: u64, payload: Seq<u8>) -> Seq<u8> {
    spec_u32_to_le_bytes(payload.len() as u32) + spec_u32_to_le_bytes(
        crc32_of(frame_body(seq, payload)),
    ) + frame_body(seq, payload)
}

/// What stands at a place in a file.
pub enum FrameView {
    /// Fewer bytes than a header: the file ends here.
    End,
    /// A header whose payload is cut off by the end of the file.
    Cut { seq: u64, declared: u32 },
    /// A whole frame whose checksum does not hold.
    Bad { seq: u64, next: int },
    /// A whole frame whose checksum holds.
    Good { seq: u64, payload: Seq<u8>, next: int },
}

/// The length a header declares for its payload.
pub open spec fn declared_len(bytes: Seq<u8>, pos: int) -> u32 {
    spec_u32_from_le_bytes(bytes.subrange(pos, pos + 4))
}

/// The checksum a header declares.
pub open spec fn declared_crc(bytes: Seq<u8>, pos: int) -> u32 {
    spec_u32_from_le_bytes(bytes.subrange(pos + 4, pos + 8))
}

/// The record number a header declares.
pub open spec fn declared_seq(bytes: Seq<u8>, pos: int) -> u64 {
    spec_u64_from_le_bytes(bytes.subrange(pos + 8, pos + 16))
}

/// What stands at `pos`.
pub open spec fn frame_at(bytes: Seq<u8>, pos: int) -> FrameView {
    if bytes.len() - pos < HEADER_BYTES {
        FrameView::End
    } else {
        let len = declared_len(bytes, pos);
        let seq = declared_seq(bytes, pos);
        let next = pos + HEADER_BYTES + len;
        if next > bytes.len() {
            FrameView::Cut { seq, declared: len }
        } else if crc32_of(bytes.subrange(pos + 8, next)) != declared_crc(bytes, pos) {
            FrameView::Bad { seq, next }
        } else {
            FrameView::Good { seq, payload: bytes.subrange(pos + HEADER_BYTES, next), next }
        }
    }
}

// ---------- replay ----------

/// One thing that replay hands out.
pub enum ReplayView {
    Record { seq: u64, payload: Seq<u8> },
    Io(Seq<char>),
    CrcMismatch(u64),
    Truncated(Seq<char>),
}

/// The sentence that reports a record cut off by the end of its file.
pub open spec fn cut_text(seq: u64, declared: u32) -> Seq<char> {
    "record seq "@ + decimal(seq as nat) + " declares "@ + decimal(declared as nat)
        + " byte payload but file ended early"@
}

/// What replay hands out for one file from `pos` on. Bad frames are reported and
/// passed over; a cut one is reported and ends the file.
pub open spec fn replay_file(file: FileView, pos: int) -> Seq<ReplayView>
    decreases file.bytes.len() - pos,
{
    match frame_at(file.bytes, pos) {
        FrameView::End => match file.error {
            Some(e) => seq![ReplayView::Io(e)],
            None => Seq::empty(),
        },
        FrameView::Cut { seq, declared } => match file.error {
            Some(e) => seq![ReplayView::Io(e)],
            None => seq![ReplayView::Truncated(cut_text(seq, declared))],
        },
        FrameView::Bad { seq, next } => seq![ReplayView::CrcMismatch(seq)] + replay_file(
            file,
            next,
        ),
        FrameView::Good { seq, payload, next } => seq![ReplayView::Record { seq, payload }]
            + replay_file(file, next),
    }
}

/// What replay hands out for a list of files, one after another.
pub open spec fn replay(files: Seq<FileView>) -> Seq<ReplayView>
    decreases files.len(),
{
    if files.len() == 0 {
        Seq::empty()
    } else {
        replay_file(files[0], 0) + replay(files.skip(1))
    }
}

/// The view of what `WalIter::next` returns.
pub open spec fn item_view(item: Result<WalRecord, WalReadError>) -> ReplayView {
    match item {
        Ok(r) => ReplayView::Record { seq: r.record_seq, payload: r.payload@ },
        Err(WalReadError::Io(e)) => ReplayView::Io(e@),
        Err(WalReadError::CrcMismatch(seq)) => ReplayView::CrcMismatch(seq),
        Err(WalReadError::Truncated(e)) => ReplayView::Truncated(e@),
    }
}

fn le32(bytes: &Vec<u8>, pos: usize) -> (r: u32)
    requires
        pos + 4 <= bytes@.len(),
    ensures
        r == spec_u32_from_le_bytes(bytes@.subrange(pos as int, pos + 4)),
{
    let len: usize = bytes.len();
    assert(pos + 4 <= len);
    let end: usize = pos + 4;
    u32_from_le_bytes(&bytes.as_slice()[pos..end])
}

fn le64(bytes: &Vec<u8>, pos: usize) -> (r: u64)
    requires
        pos + 8 <= bytes@.len(),
    ensures
        r == spec_u64_from_le_bytes(bytes@.subrange(pos as int, pos + 8)),
{
    let len: usize = bytes.len();
    assert(pos + 8 <= len);
    let end: usize = pos + 8;
    u64_from_le_bytes(&bytes.as_slice()[pos..end])
}

fn copy_range(bytes: &Vec<u8>, from: usize, to: usize) -> (r: Vec<u8>)
    requires
        from <= to <= bytes@.len(),
    ensures
        r@ == bytes@.subrange(from as int, to as int),
{
    let mut r: Vec<u8> = Vec::new();
    push_bytes(&mut r, &bytes.as_slice()[from..to]);
    assert(r@ =~= bytes@.subrange(from as int, to as int));
    r
}

/// Replay iterator. Hands out the records of a list of files in order, and
/// reports the frames that cannot be read; the caller decides whether to go on
/// past a report.
pub struct WalIter {
    files: Vec<WalFile>,
    index: usize,
    pos: usize,
}

impl WalIter {
    /// What is still to be handed out.
    pub closed spec fn remaining(self) -> Seq<ReplayView> {
        if self.index < self.files@.len() {
            replay_file(self.files@[self.index as int]@, self.pos as int) + replay(
                file_views(self.files@).skip(self.index + 1),
            )
        } else {
            Seq::empty()
        }
    }

    #[verifier::type_invariant]
    spec fn in_bounds(self) -> bool {
        &&& self.index <= self.files@.len()
        &&& self.index < self.files@.len() ==> self.pos <= self.files@[self.index as int].bytes@.len()
    }

    /// Replay these files, in this order.
    pub fn open(files: Vec<WalFile>) -> (r: WalIter)
        ensures
            r.remaining() == replay(file_views(files@)),
    {
        let r = WalIter { files, index: 0, pos: 0 };
        proof {
            let v = file_views(files@);
            if v.len() > 0 {
                assert(v[0] == files@[0]@);
            }
            assert(r.remaining() =~= replay(v));
        }
        r
    }

    /// The next record or report, if there is one.
    pub fn next(&mut self) -> (r: Option<Result<WalRecord, WalReadError>>)
        ensures
            match r {
                None => old(self).remaining().len() == 0 && final(self).remaining().len() == 0,
                Some(item) => old(self).remaining() == seq![item_view(item)]
                    + final(self).remaining(),
            },
    {
        proof {
            use_type_invariant(&*self);
        }
        let n: usize = self.files.len();
        while self.index < n
            invariant
                n == self.files@.len(),
                self.index <= n,
                self.index < n ==> self.pos <= self.files@[self.index as int].bytes@.len(),
                self.remaining() == old(self).remaining(),
            decreases n - self.index,
        {
            let index: usize = self.index;
            let pos: usize = self.pos;
            let ghost f = self.files@[index as int]@;
            let ghost rest = replay(file_views(self.files@).skip(index + 1));
            let file = &self.files[index];
            let len: usize = file.bytes.len();
            proof {
                self.lemma_advance();
            }
            if len - pos < HEADER_BYTES {
                let report: Option<WalReadError> = match &file.error {
                    Some(e) => Some(WalReadError::Io(e.clone())),
                    None => None,
                };
                self.pos = 0;
                self.index = index + 1;
                if let Some(e) = report {
                    return Some(Err(e));
                }
                assert(Seq::<ReplayView>::empty() + rest =~= rest);
                continue ;
            }
            let payload_len: usize = le32(&file.bytes, pos) as usize;
            let crc: u32 = le32(&file.bytes, pos + 4);
            let record_seq: u64 = le64(&file.bytes, pos + 8);
            if len - pos - HEADER_BYTES < payload_len {
                let report = match &file.error {
                    Some(e) => WalReadError::Io(e.clone()),
                    None => {
                        let mut s = "record seq ".to_string();
                        push_decimal(&mut s, record_seq);
                        s.append(" declares ");
                        push_decimal(&mut s, payload_len as u64);
                        s.append(" byte payload but file ended early");
                        WalReadError::Truncated(s)
                    },
                };
                self.pos = 0;
                self.index = index + 1;
                return Some(Err(report));
            }
            let start: usize = pos + HEADER_BYTES;
            let next: usize = start + payload_len;
            let sum: u32 = crc32(&file.bytes.as_slice()[pos + 8..next]);
            let item: Result<WalRecord, WalReadError> = if sum != crc {
                Err(WalReadError::CrcMismatch(record_seq))
            } else {
                Ok(WalRecord { record_seq, payload: copy_range(&file.bytes, start, next) })
            };
            self.pos = next;
            proof {
                assert(old(self).remaining() =~= seq![item_view(item)] + (replay_file(
                    f,
                    next as int,
                ) + rest));
            }
            return Some(item);
        }
        None
    }

    /// Past a file, what remains is the replay of the files after it.
    proof fn lemma_advance(&self)
        requires
            self.index < self.files@.len(),
        ensures
            ({
                let v = file_views(self.files@);
                let rest = v.skip(self.index + 1);
                &&& (self.index + 1 < self.files@.len() ==> replay(rest) == replay_file(
                    self.files@[self.index + 1]@,
                    0,
                ) + replay(v.skip(self.index + 2)))
                &&& (self.index + 1 == self.files@.len() ==> replay(rest) =~= Seq::empty())
            }),
    {
        let v = file_views(self.files@);
        let rest = v.skip(self.index + 1);
        if self.index + 1 < self.files@.len() {
            assert(rest[0] == self.files@[self.index + 1]@);
            assert(rest.skip(1) =~= v.skip(self.index + 2));
        }
    }
}

// ---------- scanning ----------

/// The highest record number among the whole frames from `pos` on, 0 if there
/// is none. Checksums are not looked at.
pub open spec fn scan_max(bytes: Seq<u8>, pos: int) -> u64
    decreases bytes.len() - pos,
{
    if bytes.len() - pos < HEADER_BYTES {
        0
    } else {
        let next = pos + HEADER_BYTES + declared_len(bytes, pos);
        if next > bytes.len() {
            0
        } else if declared_seq(bytes, pos) > scan_max(bytes, next) {
            declared_seq(bytes, pos)
        } else {
            scan_max(bytes, next)
        }
    }
}

/// The highest record number among a file's whole frames, 0 if there is none.
pub fn scan_max_record_seq(bytes: &Vec<u8>) -> (r: u64)
    ensures
        r == scan_max(bytes@, 0),
{
    let len: usize = bytes.len();
    let mut pos: usize = 0;
    let mut max_seq: u64 = 0;
    while len - pos >= HEADER_BYTES
        invariant
            len == bytes@.len(),
            pos <= len,
            scan_max(bytes@, 0) == if max_seq > scan_max(bytes@, pos as int) {
                max_seq
            } else {
                scan_max(bytes@, pos as int)
            },
        decreases len - pos,
    {
        let payload_len: usize = le32(bytes, pos) as usize;
        let record_seq: u64 = le64(bytes, pos + 8);
        if len - pos - HEADER_BYTES < payload_len {
            return max_seq;
        }
        if record_seq > max_seq {
            max_seq = record_seq;
        }
        pos = pos + HEADER_BYTES + payload_len;
    }
    max_seq
}

// ---------- file names ----------

/// The name of log file number `n`: at least ten digits, then `.log`.
pub open spec fn log_name(n: u64) -> Seq<char> {
    zeros((10 - decimal(n as nat).len()) as int) + decimal(n as nat) + ".log"@
}

/// `n` zeros; none if `n` is not positive.
pub open spec fn zeros(n: int) -> Seq<char> {
    Seq::new(if n > 0 {
        n as nat
    } else {
        0
    }, |i: int| '0')
}

/// The name of log file number `file_seq`, within the log's directory.
pub fn wal_path(file_seq: u64) -> (r: String)
    ensures
        r@ == log_name(file_seq),
{
    let mut digits = String::new();
    push_decimal(&mut digits, file_seq);
    let n: usize = chars_of(digits.as_str()).len();
    assert(digits@ =~= decimal(file_seq as nat));
    let mut r = String::new();
    let mut i: usize = n;
    while i < 10
        invariant
            n == decimal(file_seq as nat).len(),
            n <= i,
            i <= 10 || i == n,
            r@ == zeros(i - n),
        decreases 10 - i,
    {
        r.push('0');
        i += 1;
        assert(r@ =~= zeros(i - n));
    }
    assert(r@ =~= zeros(10 - n));
    r.append(digits.as_str());
    r.append(".log");
    r
}

/// The part of a file name before its `.log`, for a name that has that
/// extension. A name that is nothing but `.log` has no extension.
pub open spec fn log_stem(name: Seq<char>) -> Option<Seq<char>> {
    if name.len() > 4 && name.skip(name.len() - 4) == ".log"@ {
        Some(name.take(name.len() - 4))
    } else {
        None
    }
}

/// The log files among `names`, each with its number, in the order given.
pub open spec fn numbered(names: Seq<Seq<char>>) -> Seq<(u64, Seq<char>)>
    decreases names.len(),
{
    if names.len() == 0 {
        Seq::empty()
    } else {
        match log_stem(names.last()) {
            None => numbered(names.drop_last()),
            Some(stem) => numbered(names.drop_last()).push((unsigned_value(stem)->0, names.last())),
        }
    }
}

/// Whether a name has the log files' extension but no number before it.
pub open spec fn misnamed(name: Seq<char>) -> bool {
    log_stem(name) is Some && unsigned_value(log_stem(name)->0) is None
}

/// The views of a list of numbered names.
pub open spec fn name_views(s: Seq<(u64, String)>) -> Seq<(u64, Seq<char>)> {
    s.map_values(|e: (u64, String)| (e.0, e.1@))
}

fn stem_of(name: &str) -> (r: Option<String>)
    ensures
        r is Some == log_stem(name@) is Some,
        r is Some ==> r->0@ == log_stem(name@)->0,
{
    let chars = chars_of(name);
    let n: usize = chars.len();
    proof {
        reveal_strlit(".log");
    }
    if n <= 4 {
        return None;
    }
    let ghost tail = name@.skip(name@.len() - 4);
    assert(tail.len() == 4);
    assert(tail[0] == chars@[n - 4] && tail[1] == chars@[n - 3] && tail[2] == chars@[n - 2]
        && tail[3] == chars@[n - 1]);
    if chars[n - 4] == '.' && chars[n - 3] == 'l' && chars[n - 2] == 'o' && chars[n - 1] == 'g' {
        assert(tail =~= ".log"@);
        assert(name@.take(name@.len() - 4) =~= chars@.subrange(0, n - 4));
        Some(string_of(&chars, 0, n - 4))
    } else {
        assert(tail != ".log"@);
        None
    }
}

/// Pick the log files out of a directory's file names and put them in the
/// order of their numbers. The first misnamed one is an error.
pub fn list_wal_files(names: &Vec<String>) -> (r: Result<Vec<(u64, String)>, WalError>)
    ensures
        match r {
            Ok(v) => {
                &&& forall|i: int| 0 <= i < names@.len() ==> !misnamed((#[trigger] names@[i])@)
                &&& stably_sorted::<u64, Seq<char>>(
                    numbered(texts(names@)),
                    name_views(v@),
                )
            },
            Err(WalError::InvalidFileName(name)) => exists|i: int|
                0 <= i < names@.len() && #[trigger] names@[i]@ == name@ && misnamed(name@) && forall|
                    j: int,
                |
                    0 <= j < i ==> !misnamed((#[trigger] names@[j])@),
            Err(_) => false,
        },
{
    let mut picked: Vec<(u64, String)> = Vec::new();
    let ghost all = texts(names@);
    let mut i: usize = 0;
    while i < names.len()
        invariant
            all == texts(names@),
            i <= names@.len(),
            forall|j: int| 0 <= j < i ==> !misnamed((#[trigger] names@[j])@),
            name_views(picked@) == numbered(all.take(i as int)),
        decreases names@.len() - i,
    {
        let ghost before = picked@;
        proof {
            assert(all.take(i as int + 1).drop_last() =~= all.take(i as int));
            assert(all.take(i as int + 1).last() == names@[i as int]@);
        }
        if let Some(stem) = stem_of(names[i].as_str()) {
            match parse_unsigned(stem.as_str()) {
                Some(seq) => {
                    picked.push((seq, names[i].clone()));
                    assert(name_views(picked@) =~= name_views(before).push((seq, names@[i as int]@)));
                },
                None => {
                    let name = names[i].clone();
                    assert(names@[i as int]@ == name@);
                    return Err(WalError::InvalidFileName(name));
                },
            }
        }
        i += 1;
    }
    assert(all.take(i as int) =~= all);
    let ghost p = picked@;
    let out = sort_by_key(picked);
    proof {
        lemma_name_views(p, out@);
    }
    Ok(out)
}

/// Sorting names sorts their texts.
proof fn lemma_name_views(a: Seq<(u64, String)>, b: Seq<(u64, String)>)
    requires
        stably_sorted::<u64, String>(keyed(a), keyed(b)),
    ensures
        stably_sorted::<u64, Seq<char>>(name_views(a), name_views(b)),
{
    assert(keyed(a) =~= a);
    assert(keyed(b) =~= b);
    assert forall|i: int, j: int| 0 <= i < j < name_views(b).len() implies !u64::before(
        (#[trigger] name_views(b)[j]).0,
        (#[trigger] name_views(b)[i]).0,
    ) by {
        assert(!u64::before(keyed(b)[j].0, keyed(b)[i].0));
    }
    assert forall|k: u64| #[trigger] items_under(name_views(b), k) == items_under(
        name_views(a),
        k,
    ) by {
        lemma_items_text(a, k);
        lemma_items_text(b, k);
        assert(items_under(keyed(b), k) == items_under(keyed(a), k));
    }
}

proof fn lemma_items_text(s: Seq<(u64, String)>, k: u64)
    ensures
        items_under(name_views(s), k) == items_under(s, k).map_values(|t: String| t@),
    decreases s.len(),
{
    if s.len() > 0 {
        lemma_items_text(s.drop_last(), k);
        assert(name_views(s).drop_last() =~= name_views(s.drop_last()));
        assert(name_views(s).last() == (s.last().0, s.last().1@));
    }
    assert(items_under(name_views(s), k) =~= items_under(s, k).map_values(|t: String| t@));
}

// ---------- writing ----------

/// What the writer knows of the log: the file being appended to and its size,
/// the next record number, and the size at which it moves to a new file.
pub struct WalWriter {
    file_seq: u64,
    file_bytes: u64,
    next_record_seq: u64,
    rotation_bytes: u64,
}

/// The view of a `WalWriter`.
pub struct WriterView {
    pub file_seq: u64,
    pub file_bytes: u64,
    pub next_record_seq: u64,
    pub rotation_bytes: u64,
}

/// The highest record number in any of these files, 0 if there is none.
pub open spec fn highest_record(files: Seq<FileView>) -> u64
    decreases files.len(),
{
    if files.len() == 0 {
        0
    } else if scan_max(files.last().bytes, 0) > highest_record(files.drop_last()) {
        scan_max(files.last().bytes, 0)
    } else {
        highest_record(files.drop_last())
    }
}

/// The writer that goes on with a log of these files: it appends to the last
/// one (file 0 of an empty log), and numbers on from the highest record in any
/// of them.
pub open spec fn writer_for(files: Seq<FileView>, rotation_bytes: u64) -> WriterView {
    WriterView {
        file_seq: if files.len() == 0 {
            0
        } else {
            files.last().file_seq
        },
        file_bytes: if files.len() == 0 {
            0
        } else {
            files.last().bytes.len() as u64
        },
        next_record_seq: (highest_record(files) + 1) as u64,
        rotation_bytes,
    }
}

impl View for WalWriter {
    type V = WriterView;

    closed spec fn view(&self) -> WriterView {
        WriterView {
            file_seq: self.file_seq,
            file_bytes: self.file_bytes,
            next_record_seq: self.next_record_seq,
            rotation_bytes: self.rotation_bytes,
        }
    }
}

impl WalWriter {
    /// Go on with the log that these files hold, in the order of their numbers.
    pub fn open(files: &Vec<WalFile>) -> (r: WalWriter)
        requires
            highest_record(file_views(files@)) < u64::MAX,
        ensures
            r@ == writer_for(file_views(files@), DEFAULT_ROTATION_BYTES),
    {
        Self::open_with_rotation(files, DEFAULT_ROTATION_BYTES)
    }

    /// Go on with the log that these files hold, moving to a new file once one
    /// has reached `rotation_bytes`.
    pub fn open_with_rotation(files: &Vec<WalFile>, rotation_bytes: u64) -> (r: WalWriter)
        requires
            highest_record(file_views(files@)) < u64::MAX,
        ensures
            r@ == writer_for(file_views(files@), rotation_bytes),
    {
        let highest: u64 = Self::highest_of(files);
        let n: usize = files.len();
        if n == 0 {
            return WalWriter {
                file_seq: 0,
                file_bytes: 0,
                next_record_seq: highest + 1,
                rotation_bytes,
            };
        }
        let last = &files[n - 1];
        assert(file_views(files@).last() == last@);
        WalWriter {
            file_seq: last.file_seq,
            file_bytes: last.bytes.len() as u64,
            next_record_seq: highest + 1,
            rotation_bytes,
        }
    }

    /// The highest record number in any of these files, 0 if there is none.
    pub fn highest_of(files: &Vec<WalFile>) -> (r: u64)
        ensures
            r == highest_record(file_views(files@)),
    {
        let ghost all = file_views(files@);
        let mut highest: u64 = 0;
        let mut i: usize = 0;
        while i < files.len()
            invariant
                all == file_views(files@),
                i <= files@.len(),
                highest == highest_record(all.take(i as int)),
            decreases files@.len() - i,
        {
            let m: u64 = scan_max_record_seq(&files[i].bytes);
            if m > highest {
                highest = m;
            }
            i += 1;
            assert(all.take(i as int).drop_last() =~= all.take(i as int - 1));
            assert(all.take(i as int).last() == files@[i as int - 1]@);
        }
        assert(all.take(i as int) =~= all);
        highest
    }

    /// The frame of the next record, for the caller to write and sync. The
    /// record is numbered once `appended` is called.
    pub fn append(&self, payload: &[u8]) -> (r: Result<Vec<u8>, WalError>)
        ensures
            match r {
                Ok(f) => payload@.len() <= u32::MAX && f@ == frame(
                    self@.next_record_seq,
                    payload@,
                ),
                Err(e) => payload@.len() > u32::MAX && e == WalError::PayloadTooLarge(
                    payload@.len() as usize,
                ),
            },
    {
        if payload.len() as u64 > u32::MAX as u64 {
            return Err(WalError::PayloadTooLarge(payload.len()));
        }
        let mut body = u64_to_le_bytes(self.next_record_seq);
        push_bytes(&mut body, payload);
        let crc: u32 = crc32(body.as_slice());
        let mut f = u32_to_le_bytes(payload.len() as u32);
        push_bytes(&mut f, u32_to_le_bytes(crc).as_slice());
        push_bytes(&mut f, body.as_slice());
        Ok(f)
    }

    /// Count in a frame of `frame_len` bytes that was written and synced.
    /// Returns the number its record has, and whether the file is now full.
    pub fn appended(&mut self, frame_len: usize) -> (r: (u64, bool))
        requires
            old(self)@.next_record_seq < u64::MAX,
            old(self)@.file_bytes + frame_len <= u64::MAX,
        ensures
            r.0 == old(self)@.next_record_seq,
            r.1 == (final(self)@.file_bytes >= final(self)@.rotation_bytes),
            final(self)@ == (WriterView {
                file_bytes: (old(self)@.file_bytes + frame_len) as u64,
                next_record_seq: (old(self)@.next_record_seq + 1) as u64,
                ..old(self)@
            }),
    {
        let record_seq: u64 = self.next_record_seq;
        self.file_bytes = self.file_bytes + frame_len as u64;
        self.next_record_seq = record_seq + 1;
        (record_seq, self.file_bytes >= self.rotation_bytes)
    }

    /// Move to the next file number; the caller opens the file of that number.
    pub fn rotate(&mut self) -> (r: u64)
        requires
            old(self)@.file_seq < u64::MAX,
        ensures
            r == old(self)@.file_seq + 1,
            final(self)@ == (WriterView { file_seq: r, ..old(self)@ }),
    {
        self.file_seq = self.file_seq + 1;
        self.file_seq
    }

    /// Count in that the file moved to was opened: nothing is in it yet.
    pub fn rotated(&mut self)
        ensures
            final(self)@ == (WriterView { file_bytes: 0, ..old(self)@ }),
    {
        self.file_bytes = 0;
    }

    /// Which of these files hold no record above `flushed_through_seq`. The file
    /// being appended to is never among them.
    pub fn truncate_through(&self, files: &Vec<WalFile>, flushed_through_seq: u64) -> (r: Vec<u64>)
        ensures
            r@ == removable(file_views(files@), self@.file_seq, flushed_through_seq),
    {
        let ghost all = file_views(files@);
        let mut out: Vec<u64> = Vec::new();
        let mut i: usize = 0;
        while i < files.len()
            invariant
                all == file_views(files@),
                i <= files@.len(),
                out@ == removable(all.take(i as int), self@.file_seq, flushed_through_seq),
            decreases files@.len() - i,
        {
            proof {
                assert(all.take(i as int + 1).drop_last() =~= all.take(i as int));
                assert(all.take(i as int + 1).last() == files@[i as int]@);
            }
            if files[i].file_seq != self.file_seq {
                let max: u64 = scan_max_record_seq(&files[i].bytes);
                if max <= flushed_through_seq {
                    out.push(files[i].file_seq);
                }
            }
            i += 1;
        }
        assert(all.take(i as int) =~= all);
        out
    }

    /// The number that the next record will have.
    pub fn next_record_seq(&self) -> (r: u64)
        ensures
            r == self@.next_record_seq,
    {
        self.next_record_seq
    }

    /// The number of the file being appended to.
    pub fn current_file_seq(&self) -> (r: u64)
        ensures
            r == self@.file_seq,
    {
        self.file_seq
    }

    /// The size of the file being appended to.
    pub fn current_file_bytes(&self) -> (r: u64)
        ensures
            r == self@.file_bytes,
    {
        self.file_bytes
    }
}

/// The numbers of the files, other than `current`, whose records are all at or
/// below `flushed`.
pub open spec fn removable(files: Seq<FileView>, current: u64, flushed: u64) -> Seq<u64>
    decreases files.len(),
{
    if files.len() == 0 {
        Seq::empty()
    } else {
        let f = files.last();
        let rest = removable(files.drop_last(), current, flushed);
        if f.file_seq != current && scan_max(f.bytes, 0) <= flushed {
            rest.push(f.file_seq)
        } else {
            rest
        }
    }
}

} // verus!
