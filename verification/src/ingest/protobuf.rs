//! The protobuf wire format of a remote-write request.
//!
//! A message is a list of fields, each a key and a payload. The key is a varint
//! of the field's number and its wire type. A field that is not declared is
//! passed over; of a scalar field that occurs twice the last value counts; a
//! repeated field collects every occurrence.

use vstd::bytes::{spec_u64_from_le_bytes, u64_from_le_bytes};
use vstd::prelude::*;
use vstd::string::StringExecFns;
use vstd::utf8::{decode_utf8, valid_utf8};
use crate::ingest::remote_write::{
    label_views, series_views, Label, Sample, SeriesView, TimeSeries, WriteRequest,
};
use crate::text::{decimal, push_decimal};

verus! {

/// How many messages and groups may lie within each other.
pub const RECURSION_LIMIT: u32 = 100;

/// How a field's payload is laid out.
#[derive(Debug, Clone, Copy, PartialEq, Eq, Structural)]
pub enum WireKind {
    Varint,
    SixtyFourBit,
    LengthDelimited,
    StartGroup,
    EndGroup,
    ThirtyTwoBit,
}

/// What is wrong with a message.
#[derive(Debug, Clone, Copy, PartialEq, Eq)]
pub enum Fault {
    InvalidVarint,
    RecursionLimitReached,
    InvalidWireType(u64),
    InvalidKey(u64),
    InvalidTag,
    UnexpectedWireType { actual: WireKind, expected: WireKind },
    BufferUnderflow,
    DelimitedLengthExceeded,
    UnexpectedEndGroupTag,
    InvalidString,
}

/// What is wrong with a message, and in which fields, the innermost first.
#[derive(Debug)]
pub struct ProtoError {
    pub fault: Fault,
    pub fields: Vec<(&'static str, &'static str)>,
}

/// The view of a `ProtoError`.
#[verifier::ext_equal]
pub struct ProtoErrorView {
    pub fault: Fault,
    pub fields: Seq<(Seq<char>, Seq<char>)>,
}

/// The names of a list of fields.
pub open spec fn field_names(s: Seq<(&'static str, &'static str)>) -> Seq<(Seq<char>, Seq<char>)> {
    s.map_values(|f: (&'static str, &'static str)| (f.0@, f.1@))
}

impl View for ProtoError {
    type V = ProtoErrorView;

    open spec fn view(&self) -> ProtoErrorView {
        ProtoErrorView { fault: self.fault, fields: field_names(self.fields@) }
    }
}

// ---------- varints and keys ----------

/// The varint whose byte `i` stands at `b[i]`, and how many bytes it takes: seven
/// bits to a byte, the lowest first, all but the last with the top bit set, at
/// most 64 bits in all.
pub open spec fn varint_from(b: Seq<u8>, i: int) -> Option<(nat, int)>
    decreases 10 - i,
{
    if i < 0 || i >= 10 || i >= b.len() {
        None
    } else if b[i] < 0x80 {
        if i == 9 && b[i] >= 2 {
            None
        } else {
            Some((b[i] as nat, i + 1))
        }
    } else {
        match varint_from(b, i + 1) {
            Some((v, n)) => Some(((v * 128 + (b[i] - 0x80)) as nat, n)),
            None => None,
        }
    }
}

/// The varint at a place, and the place after it.
pub open spec fn varint_at(bytes: Seq<u8>, pos: int) -> Option<(nat, int)> {
    match varint_from(bytes.skip(pos), 0) {
        Some((v, n)) => Some((v, pos + n)),
        None => None,
    }
}

/// `prost::encoding::decode_varint`: the varint at the front of a buffer and how
/// many bytes are left after it; `None` where it fails, which it does exactly
/// where there is no varint of at most 64 bits.
#[verifier::external_body]
fn decode_varint(buf: &[u8]) -> (r: Option<(u64, usize)>)
    ensures
        match varint_from(buf@, 0) {
            Some((v, n)) => r is Some && (r->0).0 == v && (r->0).1 == buf@.len() - n,
            None => r is None,
        },
{
    let mut rest = buf;
    let value = prost::encoding::decode_varint(&mut rest).ok()?;
    Some((value, rest.len()))
}

/// A varint takes at least one byte and stays within the buffer.
proof fn lemma_varint_from(b: Seq<u8>, i: int)
    requires
        0 <= i,
    ensures
        match varint_from(b, i) {
            Some((v, n)) => i < n <= b.len() && n <= 10,
            None => true,
        },
    decreases 10 - i,
{
    if i < 10 && i < b.len() && b[i] >= 0x80 {
        lemma_varint_from(b, i + 1);
    }
}

/// A varint at a place ends within the buffer.
pub proof fn lemma_varint_at(bytes: Seq<u8>, pos: int)
    requires
        0 <= pos <= bytes.len(),
    ensures
        match varint_at(bytes, pos) {
            Some((v, next)) => pos < next <= bytes.len(),
            None => true,
        },
{
    lemma_varint_from(bytes.skip(pos), 0);
}

fn read_varint(bytes: &[u8], pos: usize) -> (r: Option<(u64, usize)>)
    requires
        pos <= bytes@.len(),
    ensures
        match varint_at(bytes@, pos as int) {
            Some((v, next)) => r is Some && (r->0).0 == v && (r->0).1 == next && pos < next
                <= bytes@.len(),
            None => r is None,
        },
{
    let len: usize = bytes.len();
    let rest = vstd::slice::slice_subrange(bytes, pos, len);
    proof {
        assert(rest@ =~= bytes@.skip(pos as int));
        lemma_varint_at(bytes@, pos as int);
    }
    match decode_varint(rest) {
        Some((v, left)) => Some((v, len - left)),
        None => None,
    }
}

/// The wire type of a number.
pub open spec fn wire_kind(n: int) -> Option<WireKind> {
    if n == 0 {
        Some(WireKind::Varint)
    } else if n == 1 {
        Some(WireKind::SixtyFourBit)
    } else if n == 2 {
        Some(WireKind::LengthDelimited)
    } else if n == 3 {
        Some(WireKind::StartGroup)
    } else if n == 4 {
        Some(WireKind::EndGroup)
    } else if n == 5 {
        Some(WireKind::ThirtyTwoBit)
    } else {
        None
    }
}

/// A field's number and wire type, and the place after its key.
pub open spec fn key_at(bytes: Seq<u8>, pos: int) -> Result<(int, WireKind, int), Fault> {
    match varint_at(bytes, pos) {
        None => Err(Fault::InvalidVarint),
        Some((v, next)) => if v > u32::MAX {
            Err(Fault::InvalidKey(v as u64))
        } else {
            match wire_kind(v as int % 8) {
                None => Err(Fault::InvalidWireType((v as int % 8) as u64)),
                Some(kind) => if v < 8 {
                    Err(Fault::InvalidTag)
                } else {
                    Ok((v as int / 8, kind, next))
                },
            }
        },
    }
}

/// A key takes at least one byte and stays within the buffer.
pub proof fn lemma_key_at(bytes: Seq<u8>, pos: int)
    requires
        0 <= pos <= bytes.len(),
    ensures
        match key_at(bytes, pos) {
            Ok((tag, kind, next)) => pos < next <= bytes.len() && 0 < tag,
            Err(_) => true,
        },
{
    lemma_varint_at(bytes, pos);
}

fn read_key(bytes: &[u8], pos: usize) -> (r: Result<(u64, WireKind, usize), Fault>)
    requires
        pos <= bytes@.len(),
    ensures
        match key_at(bytes@, pos as int) {
            Ok((tag, kind, next)) => r is Ok && r->Ok_0.0 == tag && r->Ok_0.1 == kind && r->Ok_0.2
                == next && pos < next <= bytes@.len(),
            Err(f) => r == Err::<(u64, WireKind, usize), Fault>(f),
        },
{
    let (key, next) = match read_varint(bytes, pos) {
        Some(found) => found,
        None => {
            return Err(Fault::InvalidVarint);
        },
    };
    if key > u32::MAX as u64 {
        return Err(Fault::InvalidKey(key));
    }
    let n: u64 = key % 8;
    let kind = if n == 0 {
        WireKind::Varint
    } else if n == 1 {
        WireKind::SixtyFourBit
    } else if n == 2 {
        WireKind::LengthDelimited
    } else if n == 3 {
        WireKind::StartGroup
    } else if n == 4 {
        WireKind::EndGroup
    } else if n == 5 {
        WireKind::ThirtyTwoBit
    } else {
        return Err(Fault::InvalidWireType(n));
    };
    if key < 8 {
        return Err(Fault::InvalidTag);
    }
    Ok((key / 8, kind, next))
}

// ---------- payloads ----------

/// The place after a payload of so many bytes.
pub open spec fn end_of(bytes: Seq<u8>, pos: int, len: int) -> Result<int, Fault> {
    if len > bytes.len() - pos {
        Err(Fault::BufferUnderflow)
    } else {
        Ok(pos + len)
    }
}

/// Where a length-delimited payload begins and ends.
pub open spec fn delimited_at(bytes: Seq<u8>, pos: int) -> Result<(int, int), Fault> {
    match varint_at(bytes, pos) {
        None => Err(Fault::InvalidVarint),
        Some((len, next)) => match end_of(bytes, next, len as int) {
            Err(f) => Err(f),
            Ok(end) => Ok((next, end)),
        },
    }
}

/// The place after a payload that is not a group's.
pub open spec fn payload_end(bytes: Seq<u8>, pos: int, kind: WireKind) -> Result<int, Fault> {
    match kind {
        WireKind::Varint => match varint_at(bytes, pos) {
            None => Err(Fault::InvalidVarint),
            Some((_, next)) => Ok(next),
        },
        WireKind::ThirtyTwoBit => end_of(bytes, pos, 4),
        WireKind::SixtyFourBit => end_of(bytes, pos, 8),
        WireKind::LengthDelimited => match delimited_at(bytes, pos) {
            Err(f) => Err(f),
            Ok((_, end)) => Ok(end),
        },
        WireKind::StartGroup => Err(Fault::UnexpectedEndGroupTag),
        WireKind::EndGroup => Err(Fault::UnexpectedEndGroupTag),
    }
}

/// The place after the groups that are open, the innermost last. `limit` says how
/// many may be.
pub open spec fn groups_end(bytes: Seq<u8>, pos: int, open: Seq<int>, limit: int) -> Result<
    int,
    Fault,
>
    decreases bytes.len() - pos,
    when 0 <= pos <= bytes.len()
{
    if open.len() == 0 {
        Ok(pos)
    } else {
        proof {
            lemma_key_at(bytes, pos);
        }
        match key_at(bytes, pos) {
            Err(f) => Err(f),
            Ok((tag, kind, next)) => {
                proof {
                    lemma_payload_end(bytes, next, kind);
                }
                if kind is EndGroup {
                    if tag != open.last() {
                        Err(Fault::UnexpectedEndGroupTag)
                    } else {
                        groups_end(bytes, next, open.drop_last(), limit)
                    }
                } else if open.len() >= limit {
                    Err(Fault::RecursionLimitReached)
                } else if kind is StartGroup {
                    groups_end(bytes, next, open.push(tag), limit)
                } else {
                    match payload_end(bytes, next, kind) {
                        Err(f) => Err(f),
                        Ok(end) => groups_end(bytes, end, open, limit),
                    }
                }
            },
        }
    }
}

/// The place after a field that is passed over.
pub open spec fn skipped(bytes: Seq<u8>, pos: int, tag: int, kind: WireKind, limit: int) -> Result<
    int,
    Fault,
> {
    if kind is StartGroup {
        groups_end(bytes, pos, seq![tag], limit)
    } else {
        payload_end(bytes, pos, kind)
    }
}

/// A payload stays within the buffer.
pub proof fn lemma_payload_end(bytes: Seq<u8>, pos: int, kind: WireKind)
    requires
        0 <= pos <= bytes.len(),
    ensures
        payload_end(bytes, pos, kind) matches Ok(end) ==> pos <= end <= bytes.len(),
{
    lemma_varint_at(bytes, pos);
}

fn read_delimited(bytes: &[u8], pos: usize) -> (r: Result<(usize, usize), Fault>)
    requires
        pos <= bytes@.len(),
    ensures
        match delimited_at(bytes@, pos as int) {
            Ok((start, end)) => r is Ok && r->Ok_0.0 == start && r->Ok_0.1 == end && pos < start
                <= end <= bytes@.len(),
            Err(f) => r == Err::<(usize, usize), Fault>(f),
        },
{
    match read_varint(bytes, pos) {
        None => Err(Fault::InvalidVarint),
        Some((len, next)) => if len > (bytes.len() - next) as u64 {
            Err(Fault::BufferUnderflow)
        } else {
            Ok((next, next + len as usize))
        },
    }
}

fn read_payload_end(bytes: &[u8], pos: usize, kind: WireKind) -> (r: Result<usize, Fault>)
    requires
        pos <= bytes@.len(),
    ensures
        match payload_end(bytes@, pos as int, kind) {
            Ok(end) => r is Ok && r->Ok_0 == end && pos <= end <= bytes@.len(),
            Err(f) => r == Err::<usize, Fault>(f),
        },
{
    match kind {
        WireKind::Varint => match read_varint(bytes, pos) {
            None => Err(Fault::InvalidVarint),
            Some((_, next)) => Ok(next),
        },
        WireKind::ThirtyTwoBit => if bytes.len() - pos < 4 {
            Err(Fault::BufferUnderflow)
        } else {
            Ok(pos + 4)
        },
        WireKind::SixtyFourBit => if bytes.len() - pos < 8 {
            Err(Fault::BufferUnderflow)
        } else {
            Ok(pos + 8)
        },
        WireKind::LengthDelimited => match read_delimited(bytes, pos) {
            Err(f) => Err(f),
            Ok((_, end)) => Ok(end),
        },
        WireKind::StartGroup => Err(Fault::UnexpectedEndGroupTag),
        WireKind::EndGroup => Err(Fault::UnexpectedEndGroupTag),
    }
}

/// Pass over a field.
fn skip_field(bytes: &[u8], pos: usize, tag: u64, kind: WireKind, limit: u32) -> (r: Result<
    usize,
    Fault,
>)
    requires
        pos <= bytes@.len(),
    ensures
        match skipped(bytes@, pos as int, tag as int, kind, limit as int) {
            Ok(end) => r is Ok && r->Ok_0 == end && pos <= end <= bytes@.len(),
            Err(f) => r == Err::<usize, Fault>(f),
        },
{
    if kind != WireKind::StartGroup {
        return read_payload_end(bytes, pos, kind);
    }
    let ghost want = skipped(bytes@, pos as int, tag as int, kind, limit as int);
    let mut open: Vec<u64> = Vec::new();
    open.push(tag);
    let mut at: usize = pos;
    assert(open_tags(open@) =~= seq![tag as int]);
    while open.len() > 0
        invariant
            pos <= at <= bytes@.len(),
            want == groups_end(bytes@, at as int, open_tags(open@), limit as int),
            want == skipped(bytes@, pos as int, tag as int, kind, limit as int),
        decreases bytes@.len() - at,
    {
        let ghost tags = open_tags(open@);
        let (inner, inner_kind, next) = match read_key(bytes, at) {
            Ok(found) => found,
            Err(f) => {
                return Err(f);
            },
        };
        let depth: usize = open.len();
        if inner_kind == WireKind::EndGroup {
            if inner != open[depth - 1] {
                return Err(Fault::UnexpectedEndGroupTag);
            }
            open.pop();
            assert(open_tags(open@) =~= tags.drop_last());
            at = next;
        } else if depth as u64 >= limit as u64 {
            return Err(Fault::RecursionLimitReached);
        } else if inner_kind == WireKind::StartGroup {
            open.push(inner);
            assert(open_tags(open@) =~= tags.push(inner as int));
            at = next;
        } else {
            match read_payload_end(bytes, next, inner_kind) {
                Ok(end) => {
                    at = end;
                },
                Err(f) => {
                    return Err(f);
                },
            }
        }
    }
    Ok(at)
}

/// The numbers of the groups that are open.
spec fn open_tags(open: Seq<u64>) -> Seq<int> {
    open.map_values(|t: u64| t as int)
}

// ---------- scalar fields ----------

/// Whether a field has the wire type that it should.
pub open spec fn expect(actual: WireKind, expected: WireKind) -> Result<(), Fault> {
    if actual == expected {
        Ok(())
    } else {
        Err(Fault::UnexpectedWireType { actual, expected })
    }
}

/// The text of a string field, and the place after it.
pub open spec fn string_at(bytes: Seq<u8>, pos: int, kind: WireKind) -> Result<
    (Seq<char>, int),
    Fault,
> {
    match expect(kind, WireKind::LengthDelimited) {
        Err(f) => Err(f),
        Ok(_) => match delimited_at(bytes, pos) {
            Err(f) => Err(f),
            Ok((start, end)) => if valid_utf8(bytes.subrange(start, end)) {
                Ok((decode_utf8(bytes.subrange(start, end)), end))
            } else {
                Err(Fault::InvalidString)
            },
        },
    }
}

/// The bits of a double field, and the place after it.
pub open spec fn double_at(bytes: Seq<u8>, pos: int, kind: WireKind) -> Result<(u64, int), Fault> {
    match expect(kind, WireKind::SixtyFourBit) {
        Err(f) => Err(f),
        Ok(_) => match end_of(bytes, pos, 8) {
            Err(f) => Err(f),
            Ok(end) => Ok((spec_u64_from_le_bytes(bytes.subrange(pos, end)), end)),
        },
    }
}

/// The value of a signed integer field, and the place after it.
pub open spec fn int_at(bytes: Seq<u8>, pos: int, kind: WireKind) -> Result<(i64, int), Fault> {
    match expect(kind, WireKind::Varint) {
        Err(f) => Err(f),
        Ok(_) => match varint_at(bytes, pos) {
            None => Err(Fault::InvalidVarint),
            Some((v, next)) => Ok((v as u64 as i64, next)),
        },
    }
}

/// `String::from_utf8`: the text of bytes that are well-formed UTF-8, `None` of
/// any others.
#[verifier::external_body]
fn utf8_text(bytes: &[u8]) -> (r: Option<String>)
    ensures
        r is Some == valid_utf8(bytes@),
        r is Some ==> r->0@ == decode_utf8(bytes@),
{
    String::from_utf8(bytes.to_vec()).ok()
}

fn read_string(bytes: &[u8], pos: usize, kind: WireKind) -> (r: Result<(String, usize), Fault>)
    requires
        pos <= bytes@.len(),
    ensures
        match string_at(bytes@, pos as int, kind) {
            Ok((s, end)) => r is Ok && r->Ok_0.0@ == s && r->Ok_0.1 == end && pos < end
                <= bytes@.len(),
            Err(f) => r is Err && r->Err_0 == f,
        },
{
    if kind != WireKind::LengthDelimited {
        return Err(
            Fault::UnexpectedWireType { actual: kind, expected: WireKind::LengthDelimited },
        );
    }
    match read_delimited(bytes, pos) {
        Err(f) => Err(f),
        Ok((start, end)) => match utf8_text(vstd::slice::slice_subrange(bytes, start, end)) {
            Some(s) => Ok((s, end)),
            None => Err(Fault::InvalidString),
        },
    }
}

fn read_double(bytes: &[u8], pos: usize, kind: WireKind) -> (r: Result<(u64, usize), Fault>)
    requires
        pos <= bytes@.len(),
    ensures
        match double_at(bytes@, pos as int, kind) {
            Ok((v, end)) => r is Ok && r->Ok_0.0 == v && r->Ok_0.1 == end && pos < end
                <= bytes@.len(),
            Err(f) => r is Err && r->Err_0 == f,
        },
{
    if kind != WireKind::SixtyFourBit {
        return Err(Fault::UnexpectedWireType { actual: kind, expected: WireKind::SixtyFourBit });
    }
    if bytes.len() - pos < 8 {
        return Err(Fault::BufferUnderflow);
    }
    Ok((u64_from_le_bytes(vstd::slice::slice_subrange(bytes, pos, pos + 8)), pos + 8))
}

fn read_int(bytes: &[u8], pos: usize, kind: WireKind) -> (r: Result<(i64, usize), Fault>)
    requires
        pos <= bytes@.len(),
    ensures
        match int_at(bytes@, pos as int, kind) {
            Ok((v, end)) => r is Ok && r->Ok_0.0 == v && r->Ok_0.1 == end && pos < end
                <= bytes@.len(),
            Err(f) => r is Err && r->Err_0 == f,
        },
{
    if kind != WireKind::Varint {
        return Err(Fault::UnexpectedWireType { actual: kind, expected: WireKind::Varint });
    }
    match read_varint(bytes, pos) {
        None => Err(Fault::InvalidVarint),
        Some((v, next)) => Ok((#[verifier::truncate] (v as i64), next)),
    }
}

// ---------- messages ----------

/// A fault that lies in no field.
pub open spec fn plain(fault: Fault) -> ProtoErrorView {
    ProtoErrorView { fault, fields: Seq::empty() }
}

/// An error that came up in a field of a message.
pub open spec fn within(e: ProtoErrorView, message: Seq<char>, field: Seq<char>) -> ProtoErrorView {
    ProtoErrorView { fault: e.fault, fields: e.fields.push((message, field)) }
}

/// Where a nested message begins and ends.
pub open spec fn nested_at(bytes: Seq<u8>, pos: int, kind: WireKind) -> Result<(int, int), Fault> {
    match expect(kind, WireKind::LengthDelimited) {
        Err(f) => Err(f),
        Ok(_) => delimited_at(bytes, pos),
    }
}

/// Groups that are passed over stay within the buffer.
pub proof fn lemma_groups_end(bytes: Seq<u8>, pos: int, open: Seq<int>, limit: int)
    requires
        0 <= pos <= bytes.len(),
    ensures
        groups_end(bytes, pos, open, limit) matches Ok(end) ==> pos <= end <= bytes.len(),
    decreases bytes.len() - pos,
{
    if open.len() > 0 {
        lemma_key_at(bytes, pos);
        if let Ok((tag, kind, next)) = key_at(bytes, pos) {
            lemma_payload_end(bytes, next, kind);
            if kind is EndGroup {
                lemma_groups_end(bytes, next, open.drop_last(), limit);
            } else if kind is StartGroup {
                lemma_groups_end(bytes, next, open.push(tag), limit);
            } else if let Ok(end) = payload_end(bytes, next, kind) {
                lemma_groups_end(bytes, end, open, limit);
            }
        }
    }
}

/// What a field's key and payload take stays within the buffer, and is at least
/// the key's byte.
pub proof fn lemma_field(bytes: Seq<u8>, pos: int)
    requires
        0 <= pos <= bytes.len(),
    ensures
        match key_at(bytes, pos) {
            Ok((tag, kind, next)) => {
                &&& pos < next <= bytes.len()
                &&& (string_at(bytes, next, kind) matches Ok((_, p)) ==> next <= p <= bytes.len())
                &&& (double_at(bytes, next, kind) matches Ok((_, p)) ==> next <= p <= bytes.len())
                &&& (int_at(bytes, next, kind) matches Ok((_, p)) ==> next <= p <= bytes.len())
                &&& (nested_at(bytes, next, kind) matches Ok((a, b)) ==> next <= a <= b
                    <= bytes.len())
                &&& forall|limit: int|
                    (#[trigger] skipped(bytes, next, tag, kind, limit) matches Ok(p) ==> next <= p
                        <= bytes.len())
            },
            Err(_) => true,
        },
{
    lemma_key_at(bytes, pos);
    if let Ok((tag, kind, next)) = key_at(bytes, pos) {
        lemma_varint_at(bytes, next);
        lemma_payload_end(bytes, next, kind);
        assert forall|limit: int|
            (#[trigger] skipped(bytes, next, tag, kind, limit) matches Ok(p) ==> next <= p
                <= bytes.len()) by {
            lemma_groups_end(bytes, next, seq![tag], limit);
        }
    }
}

/// The label whose fields run from `pos` to `end`, beginning with what was read
/// of it before, and the place after it.
pub open spec fn label_from(
    bytes: Seq<u8>,
    pos: int,
    end: int,
    name: Seq<char>,
    value: Seq<char>,
) -> Result<((Seq<char>, Seq<char>), int), ProtoErrorView>
    decreases bytes.len() - pos,
    when 0 <= pos <= bytes.len()
{
    if pos == end {
        Ok(((name, value), pos))
    } else if pos > end {
        Err(plain(Fault::DelimitedLengthExceeded))
    } else {
        proof {
            lemma_field(bytes, pos);
        }
        match key_at(bytes, pos) {
            Err(f) => Err(plain(f)),
            Ok((tag, kind, next)) => if tag == 1 {
                match string_at(bytes, next, kind) {
                    Err(f) => Err(within(plain(f), "Label"@, "name"@)),
                    Ok((s, p)) => label_from(bytes, p, end, s, value),
                }
            } else if tag == 2 {
                match string_at(bytes, next, kind) {
                    Err(f) => Err(within(plain(f), "Label"@, "value"@)),
                    Ok((s, p)) => label_from(bytes, p, end, name, s),
                }
            } else {
                match skipped(bytes, next, tag, kind, RECURSION_LIMIT - 2) {
                    Err(f) => Err(plain(f)),
                    Ok(p) => label_from(bytes, p, end, name, value),
                }
            },
        }
    }
}

/// The sample whose fields run from `pos` to `end`, beginning with what was read
/// of it before, and the place after it.
pub open spec fn sample_from(bytes: Seq<u8>, pos: int, end: int, acc: Sample) -> Result<
    (Sample, int),
    ProtoErrorView,
>
    decreases bytes.len() - pos,
    when 0 <= pos <= bytes.len()
{
    if pos == end {
        Ok((acc, pos))
    } else if pos > end {
        Err(plain(Fault::DelimitedLengthExceeded))
    } else {
        proof {
            lemma_field(bytes, pos);
        }
        match key_at(bytes, pos) {
            Err(f) => Err(plain(f)),
            Ok((tag, kind, next)) => if tag == 1 {
                match double_at(bytes, next, kind) {
                    Err(f) => Err(within(plain(f), "Sample"@, "value"@)),
                    Ok((v, p)) => sample_from(
                        bytes,
                        p,
                        end,
                        Sample { value: v, timestamp: acc.timestamp },
                    ),
                }
            } else if tag == 2 {
                match int_at(bytes, next, kind) {
                    Err(f) => Err(within(plain(f), "Sample"@, "timestamp"@)),
                    Ok((v, p)) => sample_from(
                        bytes,
                        p,
                        end,
                        Sample { value: acc.value, timestamp: v },
                    ),
                }
            } else {
                match skipped(bytes, next, tag, kind, RECURSION_LIMIT - 2) {
                    Err(f) => Err(plain(f)),
                    Ok(p) => sample_from(bytes, p, end, acc),
                }
            },
        }
    }
}

/// The label that a field holds, and the place after it.
pub open spec fn label_at(bytes: Seq<u8>, pos: int, kind: WireKind) -> Result<
    ((Seq<char>, Seq<char>), int),
    ProtoErrorView,
> {
    match nested_at(bytes, pos, kind) {
        Err(f) => Err(plain(f)),
        Ok((start, end)) => label_from(bytes, start, end, Seq::empty(), Seq::empty()),
    }
}

/// The sample that a field holds, and the place after it.
pub open spec fn sample_at(bytes: Seq<u8>, pos: int, kind: WireKind) -> Result<
    (Sample, int),
    ProtoErrorView,
> {
    match nested_at(bytes, pos, kind) {
        Err(f) => Err(plain(f)),
        Ok((start, end)) => sample_from(bytes, start, end, (Sample { value: 0, timestamp: 0 })),
    }
}

/// A label that is read stays within the buffer.
pub proof fn lemma_label_from(
    bytes: Seq<u8>,
    pos: int,
    end: int,
    name: Seq<char>,
    value: Seq<char>,
)
    requires
        0 <= pos <= bytes.len(),
    ensures
        label_from(bytes, pos, end, name, value) matches Ok((_, p)) ==> pos <= p == end
            <= bytes.len(),
    decreases bytes.len() - pos,
{
    if pos < end {
        lemma_field(bytes, pos);
        if let Ok((tag, kind, next)) = key_at(bytes, pos) {
            if tag == 1 {
                if let Ok((s, p)) = string_at(bytes, next, kind) {
                    lemma_label_from(bytes, p, end, s, value);
                }
            } else if tag == 2 {
                if let Ok((s, p)) = string_at(bytes, next, kind) {
                    lemma_label_from(bytes, p, end, name, s);
                }
            } else if let Ok(p) = skipped(bytes, next, tag, kind, RECURSION_LIMIT - 2) {
                lemma_label_from(bytes, p, end, name, value);
            }
        }
    }
}

/// A sample that is read stays within the buffer.
pub proof fn lemma_sample_from(bytes: Seq<u8>, pos: int, end: int, acc: Sample)
    requires
        0 <= pos <= bytes.len(),
    ensures
        sample_from(bytes, pos, end, acc) matches Ok((_, p)) ==> pos <= p == end <= bytes.len(),
    decreases bytes.len() - pos,
{
    if pos < end {
        lemma_field(bytes, pos);
        if let Ok((tag, kind, next)) = key_at(bytes, pos) {
            if tag == 1 {
                if let Ok((v, p)) = double_at(bytes, next, kind) {
                    lemma_sample_from(
                        bytes,
                        p,
                        end,
                        Sample { value: v, timestamp: acc.timestamp },
                    );
                }
            } else if tag == 2 {
                if let Ok((v, p)) = int_at(bytes, next, kind) {
                    lemma_sample_from(bytes, p, end, Sample { value: acc.value, timestamp: v });
                }
            } else if let Ok(p) = skipped(bytes, next, tag, kind, RECURSION_LIMIT - 2) {
                lemma_sample_from(bytes, p, end, acc);
            }
        }
    }
}

/// A label or sample that a field holds stays within the buffer.
pub proof fn lemma_nested(bytes: Seq<u8>, pos: int)
    requires
        0 <= pos <= bytes.len(),
    ensures
        match key_at(bytes, pos) {
            Ok((tag, kind, next)) => {
                &&& (label_at(bytes, next, kind) matches Ok((_, p)) ==> next <= p <= bytes.len())
                &&& (sample_at(bytes, next, kind) matches Ok((_, p)) ==> next <= p <= bytes.len())
            },
            Err(_) => true,
        },
{
    lemma_field(bytes, pos);
    if let Ok((tag, kind, next)) = key_at(bytes, pos) {
        if let Ok((start, end)) = nested_at(bytes, next, kind) {
            lemma_label_from(bytes, start, end, Seq::empty(), Seq::empty());
            lemma_sample_from(bytes, start, end, Sample { value: 0, timestamp: 0 });
        }
    }
}

/// The series whose fields run from `pos` to `end`, beginning with what was read
/// of it before, and the place after it.
pub open spec fn series_from(bytes: Seq<u8>, pos: int, end: int, acc: SeriesView) -> Result<
    (SeriesView, int),
    ProtoErrorView,
>
    decreases bytes.len() - pos,
    when 0 <= pos <= bytes.len()
{
    if pos == end {
        Ok((acc, pos))
    } else if pos > end {
        Err(plain(Fault::DelimitedLengthExceeded))
    } else {
        proof {
            lemma_field(bytes, pos);
            lemma_nested(bytes, pos);
        }
        match key_at(bytes, pos) {
            Err(f) => Err(plain(f)),
            Ok((tag, kind, next)) => if tag == 1 {
                match label_at(bytes, next, kind) {
                    Err(e) => Err(within(e, "TimeSeries"@, "labels"@)),
                    Ok((l, p)) => series_from(
                        bytes,
                        p,
                        end,
                        SeriesView { labels: acc.labels.push(l), samples: acc.samples },
                    ),
                }
            } else if tag == 2 {
                match sample_at(bytes, next, kind) {
                    Err(e) => Err(within(e, "TimeSeries"@, "samples"@)),
                    Ok((x, p)) => series_from(
                        bytes,
                        p,
                        end,
                        SeriesView { labels: acc.labels, samples: acc.samples.push(x) },
                    ),
                }
            } else {
                match skipped(bytes, next, tag, kind, RECURSION_LIMIT - 1) {
                    Err(f) => Err(plain(f)),
                    Ok(p) => series_from(bytes, p, end, acc),
                }
            },
        }
    }
}

/// A series with nothing read of it.
pub open spec fn no_series() -> SeriesView {
    SeriesView { labels: Seq::empty(), samples: Seq::empty() }
}

/// The series that a field holds, and the place after it.
pub open spec fn series_at(bytes: Seq<u8>, pos: int, kind: WireKind) -> Result<
    (SeriesView, int),
    ProtoErrorView,
> {
    match nested_at(bytes, pos, kind) {
        Err(f) => Err(plain(f)),
        Ok((start, end)) => series_from(bytes, start, end, no_series()),
    }
}

/// A series that is read stays within the buffer.
pub proof fn lemma_series_from(bytes: Seq<u8>, pos: int, end: int, acc: SeriesView)
    requires
        0 <= pos <= bytes.len(),
    ensures
        series_from(bytes, pos, end, acc) matches Ok((_, p)) ==> pos <= p == end <= bytes.len(),
    decreases bytes.len() - pos,
{
    if pos < end {
        lemma_field(bytes, pos);
        lemma_nested(bytes, pos);
        if let Ok((tag, kind, next)) = key_at(bytes, pos) {
            if tag == 1 {
                if let Ok((l, p)) = label_at(bytes, next, kind) {
                    lemma_series_from(
                        bytes,
                        p,
                        end,
                        SeriesView { labels: acc.labels.push(l), samples: acc.samples },
                    );
                }
            } else if tag == 2 {
                if let Ok((x, p)) = sample_at(bytes, next, kind) {
                    lemma_series_from(
                        bytes,
                        p,
                        end,
                        SeriesView { labels: acc.labels, samples: acc.samples.push(x) },
                    );
                }
            } else if let Ok(p) = skipped(bytes, next, tag, kind, RECURSION_LIMIT - 1) {
                lemma_series_from(bytes, p, end, acc);
            }
        }
    }
}

/// A series that a field holds stays within the buffer.
pub proof fn lemma_series_at(bytes: Seq<u8>, pos: int)
    requires
        0 <= pos <= bytes.len(),
    ensures
        match key_at(bytes, pos) {
            Ok((tag, kind, next)) => (series_at(bytes, next, kind) matches Ok((_, p)) ==> next <= p
                <= bytes.len()),
            Err(_) => true,
        },
{
    lemma_field(bytes, pos);
    if let Ok((tag, kind, next)) = key_at(bytes, pos) {
        if let Ok((start, end)) = nested_at(bytes, next, kind) {
            lemma_series_from(bytes, start, end, no_series());
        }
    }
}

/// The series of the request whose fields run from `pos` to the end of the
/// buffer, after those read before.
pub open spec fn request_from(bytes: Seq<u8>, pos: int, acc: Seq<SeriesView>) -> Result<
    Seq<SeriesView>,
    ProtoErrorView,
>
    decreases bytes.len() - pos,
    when 0 <= pos <= bytes.len()
{
    if pos == bytes.len() {
        Ok(acc)
    } else {
        proof {
            lemma_field(bytes, pos);
            lemma_series_at(bytes, pos);
        }
        match key_at(bytes, pos) {
            Err(f) => Err(plain(f)),
            Ok((tag, kind, next)) => if tag == 1 {
                match series_at(bytes, next, kind) {
                    Err(e) => Err(within(e, "WriteRequest"@, "timeseries"@)),
                    Ok((s, p)) => request_from(bytes, p, acc.push(s)),
                }
            } else {
                match skipped(bytes, next, tag, kind, RECURSION_LIMIT as int) {
                    Err(f) => Err(plain(f)),
                    Ok(p) => request_from(bytes, p, acc),
                }
            },
        }
    }
}

/// The series of an encoded request.
pub open spec fn request_of(bytes: Seq<u8>) -> Result<Seq<SeriesView>, ProtoErrorView> {
    request_from(bytes, 0, Seq::empty())
}

fn fault_only(fault: Fault) -> (r: ProtoError)
    ensures
        r@ == plain(fault),
{
    let fields: Vec<(&'static str, &'static str)> = Vec::new();
    let r = ProtoError { fault, fields };
    assert(r@.fields =~= Seq::empty());
    r
}

fn in_field(e: ProtoError, message: &'static str, field: &'static str) -> (r: ProtoError)
    ensures
        r@ == within(e@, message@, field@),
{
    let ghost e0 = e@;
    let mut fields = e.fields;
    fields.push((message, field));
    let r = ProtoError { fault: e.fault, fields };
    assert(r@.fields =~= e0.fields.push((message@, field@)));
    r
}

fn read_nested(bytes: &[u8], pos: usize, kind: WireKind) -> (r: Result<(usize, usize), Fault>)
    requires
        pos <= bytes@.len(),
    ensures
        match nested_at(bytes@, pos as int, kind) {
            Ok((start, end)) => r is Ok && r->Ok_0.0 == start && r->Ok_0.1 == end && pos < start
                <= end <= bytes@.len(),
            Err(f) => r == Err::<(usize, usize), Fault>(f),
        },
{
    if kind != WireKind::LengthDelimited {
        Err(Fault::UnexpectedWireType { actual: kind, expected: WireKind::LengthDelimited })
    } else {
        read_delimited(bytes, pos)
    }
}

fn read_label(bytes: &[u8], pos: usize, kind: WireKind) -> (r: Result<(Label, usize), ProtoError>)
    requires
        pos <= bytes@.len(),
    ensures
        match label_at(bytes@, pos as int, kind) {
            Ok((l, p)) => r is Ok && (r->Ok_0.0.name@, r->Ok_0.0.value@) == l && r->Ok_0.1 == p
                && pos <= p <= bytes@.len(),
            Err(e) => r is Err && r->Err_0@ == e,
        },
{
    let (start, end) = match read_nested(bytes, pos, kind) {
        Ok(span) => span,
        Err(f) => {
            return Err(fault_only(f));
        },
    };
    let ghost want = label_at(bytes@, pos as int, kind);
    let mut name = String::new();
    let mut value = String::new();
    let mut at: usize = start;
    proof {
        assert(name@ =~= Seq::empty());
        assert(value@ =~= Seq::empty());
    }
    while at < end
        invariant
            pos <= start <= at <= bytes@.len(),
            end <= bytes@.len(),
            want == label_at(bytes@, pos as int, kind),
            want == label_from(bytes@, at as int, end as int, name@, value@),
        decreases bytes@.len() - at,
    {
        proof {
            lemma_field(bytes@, at as int);
        }
        let (tag, field, next) = match read_key(bytes, at) {
            Ok(found) => found,
            Err(f) => {
                return Err(fault_only(f));
            },
        };
        if tag == 1 {
            match read_string(bytes, next, field) {
                Ok((s, p)) => {
                    name = s;
                    at = p;
                },
                Err(f) => {
                    return Err(in_field(fault_only(f), "Label", "name"));
                },
            }
        } else if tag == 2 {
            match read_string(bytes, next, field) {
                Ok((s, p)) => {
                    value = s;
                    at = p;
                },
                Err(f) => {
                    return Err(in_field(fault_only(f), "Label", "value"));
                },
            }
        } else {
            match skip_field(bytes, next, tag, field, RECURSION_LIMIT - 2) {
                Ok(p) => {
                    at = p;
                },
                Err(f) => {
                    return Err(fault_only(f));
                },
            }
        }
    }
    if at != end {
        return Err(fault_only(Fault::DelimitedLengthExceeded));
    }
    Ok((Label { name, value }, at))
}

fn read_sample(bytes: &[u8], pos: usize, kind: WireKind) -> (r: Result<(Sample, usize), ProtoError>)
    requires
        pos <= bytes@.len(),
    ensures
        match sample_at(bytes@, pos as int, kind) {
            Ok((x, p)) => r is Ok && r->Ok_0.0 == x && r->Ok_0.1 == p && pos <= p <= bytes@.len(),
            Err(e) => r is Err && r->Err_0@ == e,
        },
{
    let (start, end) = match read_nested(bytes, pos, kind) {
        Ok(span) => span,
        Err(f) => {
            return Err(fault_only(f));
        },
    };
    let ghost want = sample_at(bytes@, pos as int, kind);
    let mut acc = Sample { value: 0, timestamp: 0 };
    let mut at: usize = start;
    while at < end
        invariant
            pos <= start <= at <= bytes@.len(),
            end <= bytes@.len(),
            want == sample_at(bytes@, pos as int, kind),
            want == sample_from(bytes@, at as int, end as int, acc),
        decreases bytes@.len() - at,
    {
        proof {
            lemma_field(bytes@, at as int);
        }
        let (tag, field, next) = match read_key(bytes, at) {
            Ok(found) => found,
            Err(f) => {
                return Err(fault_only(f));
            },
        };
        if tag == 1 {
            match read_double(bytes, next, field) {
                Ok((v, p)) => {
                    acc = Sample { value: v, timestamp: acc.timestamp };
                    at = p;
                },
                Err(f) => {
                    return Err(in_field(fault_only(f), "Sample", "value"));
                },
            }
        } else if tag == 2 {
            match read_int(bytes, next, field) {
                Ok((v, p)) => {
                    acc = Sample { value: acc.value, timestamp: v };
                    at = p;
                },
                Err(f) => {
                    return Err(in_field(fault_only(f), "Sample", "timestamp"));
                },
            }
        } else {
            match skip_field(bytes, next, tag, field, RECURSION_LIMIT - 2) {
                Ok(p) => {
                    at = p;
                },
                Err(f) => {
                    return Err(fault_only(f));
                },
            }
        }
    }
    if at != end {
        return Err(fault_only(Fault::DelimitedLengthExceeded));
    }
    Ok((acc, at))
}

fn read_series(bytes: &[u8], pos: usize, kind: WireKind) -> (r: Result<
    (TimeSeries, usize),
    ProtoError,
>)
    requires
        pos <= bytes@.len(),
    ensures
        match series_at(bytes@, pos as int, kind) {
            Ok((s, p)) => r is Ok && r->Ok_0.0@ == s && r->Ok_0.1 == p && pos <= p <= bytes@.len(),
            Err(e) => r is Err && r->Err_0@ == e,
        },
{
    let (start, end) = match read_nested(bytes, pos, kind) {
        Ok(span) => span,
        Err(f) => {
            return Err(fault_only(f));
        },
    };
    let ghost want = series_at(bytes@, pos as int, kind);
    let mut labels: Vec<Label> = Vec::new();
    let mut samples: Vec<Sample> = Vec::new();
    let mut at: usize = start;
    proof {
        assert(label_views(labels@) =~= Seq::empty());
        assert(samples@ =~= Seq::empty());
    }
    while at < end
        invariant
            pos <= start <= at <= bytes@.len(),
            end <= bytes@.len(),
            want == series_at(bytes@, pos as int, kind),
            want == series_from(
                bytes@,
                at as int,
                end as int,
                (SeriesView { labels: label_views(labels@), samples: samples@ }),
            ),
        decreases bytes@.len() - at,
    {
        let ghost labels0 = labels@;
        proof {
            lemma_field(bytes@, at as int);
            lemma_nested(bytes@, at as int);
        }
        let (tag, field, next) = match read_key(bytes, at) {
            Ok(found) => found,
            Err(f) => {
                return Err(fault_only(f));
            },
        };
        if tag == 1 {
            match read_label(bytes, next, field) {
                Ok((l, p)) => {
                    let ghost lv = (l.name@, l.value@);
                    labels.push(l);
                    assert(label_views(labels@) =~= label_views(labels0).push(lv));
                    at = p;
                },
                Err(e) => {
                    return Err(in_field(e, "TimeSeries", "labels"));
                },
            }
        } else if tag == 2 {
            match read_sample(bytes, next, field) {
                Ok((x, p)) => {
                    samples.push(x);
                    at = p;
                },
                Err(e) => {
                    return Err(in_field(e, "TimeSeries", "samples"));
                },
            }
        } else {
            match skip_field(bytes, next, tag, field, RECURSION_LIMIT - 1) {
                Ok(p) => {
                    at = p;
                },
                Err(f) => {
                    return Err(fault_only(f));
                },
            }
        }
    }
    if at != end {
        return Err(fault_only(Fault::DelimitedLengthExceeded));
    }
    Ok((TimeSeries { labels, samples }, at))
}

/// Read an encoded request.
pub fn read_request(bytes: &[u8]) -> (r: Result<WriteRequest, ProtoError>)
    ensures
        match request_of(bytes@) {
            Ok(s) => r is Ok && series_views(r->Ok_0.timeseries@) == s,
            Err(e) => r is Err && r->Err_0@ == e,
        },
{
    let ghost want = request_of(bytes@);
    let mut timeseries: Vec<TimeSeries> = Vec::new();
    let mut at: usize = 0;
    assert(series_views(timeseries@) =~= Seq::empty());
    while at < bytes.len()
        invariant
            at <= bytes@.len(),
            want == request_of(bytes@),
            want == request_from(bytes@, at as int, series_views(timeseries@)),
        decreases bytes@.len() - at,
    {
        let ghost before = timeseries@;
        proof {
            lemma_field(bytes@, at as int);
            lemma_series_at(bytes@, at as int);
        }
        let (tag, field, next) = match read_key(bytes, at) {
            Ok(found) => found,
            Err(f) => {
                return Err(fault_only(f));
            },
        };
        if tag == 1 {
            match read_series(bytes, next, field) {
                Ok((s, p)) => {
                    let ghost sv = s@;
                    timeseries.push(s);
                    assert(series_views(timeseries@) =~= series_views(before).push(sv));
                    at = p;
                },
                Err(e) => {
                    return Err(in_field(e, "WriteRequest", "timeseries"));
                },
            }
        } else {
            match skip_field(bytes, next, tag, field, RECURSION_LIMIT) {
                Ok(p) => {
                    at = p;
                },
                Err(f) => {
                    return Err(fault_only(f));
                },
            }
        }
    }
    Ok(WriteRequest { timeseries })
}

// ---------- the text of an error ----------

/// The name of a wire type.
pub open spec fn kind_text(kind: WireKind) -> Seq<char> {
    match kind {
        WireKind::Varint => "Varint"@,
        WireKind::SixtyFourBit => "SixtyFourBit"@,
        WireKind::LengthDelimited => "LengthDelimited"@,
        WireKind::StartGroup => "StartGroup"@,
        WireKind::EndGroup => "EndGroup"@,
        WireKind::ThirtyTwoBit => "ThirtyTwoBit"@,
    }
}

fn kind_name(kind: WireKind) -> (r: &'static str)
    ensures
        r@ == kind_text(kind),
{
    match kind {
        WireKind::Varint => "Varint",
        WireKind::SixtyFourBit => "SixtyFourBit",
        WireKind::LengthDelimited => "LengthDelimited",
        WireKind::StartGroup => "StartGroup",
        WireKind::EndGroup => "EndGroup",
        WireKind::ThirtyTwoBit => "ThirtyTwoBit",
    }
}

/// What a fault is called.
pub open spec fn fault_text(fault: Fault) -> Seq<char> {
    match fault {
        Fault::InvalidVarint => "invalid varint"@,
        Fault::RecursionLimitReached => "recursion limit reached"@,
        Fault::InvalidWireType(n) => "invalid wire type value: "@ + decimal(n as nat),
        Fault::InvalidKey(n) => "invalid key value: "@ + decimal(n as nat),
        Fault::InvalidTag => "invalid tag value: 0"@,
        Fault::UnexpectedWireType { actual, expected } => "invalid wire type: "@ + kind_text(actual)
            + " (expected "@ + kind_text(expected) + ")"@,
        Fault::BufferUnderflow => "buffer underflow"@,
        Fault::DelimitedLengthExceeded => "delimited length exceeded"@,
        Fault::UnexpectedEndGroupTag => "unexpected end group tag"@,
        Fault::InvalidString => "invalid string value: data is not UTF-8 encoded"@,
    }
}

/// The fields that an error came up in, each as `Message.field: `.
pub open spec fn fields_text(fields: Seq<(Seq<char>, Seq<char>)>) -> Seq<char>
    decreases fields.len(),
{
    if fields.len() == 0 {
        Seq::empty()
    } else {
        fields_text(fields.drop_last()) + (fields.last().0 + "."@ + fields.last().1 + ": "@)
    }
}

/// The text of an error.
pub open spec fn proto_error_text(e: ProtoErrorView) -> Seq<char> {
    "failed to decode Protobuf message: "@ + fields_text(e.fields) + fault_text(e.fault)
}

fn fault_message(fault: Fault) -> (r: String)
    ensures
        r@ == fault_text(fault),
{
    match fault {
        Fault::InvalidVarint => "invalid varint".to_string(),
        Fault::RecursionLimitReached => "recursion limit reached".to_string(),
        Fault::InvalidWireType(n) => {
            let mut s = "invalid wire type value: ".to_string();
            push_decimal(&mut s, n);
            s
        },
        Fault::InvalidKey(n) => {
            let mut s = "invalid key value: ".to_string();
            push_decimal(&mut s, n);
            s
        },
        Fault::InvalidTag => "invalid tag value: 0".to_string(),
        Fault::UnexpectedWireType { actual, expected } => {
            let mut s = "invalid wire type: ".to_string();
            s.append(kind_name(actual));
            s.append(" (expected ");
            s.append(kind_name(expected));
            s.append(")");
            s
        },
        Fault::BufferUnderflow => "buffer underflow".to_string(),
        Fault::DelimitedLengthExceeded => "delimited length exceeded".to_string(),
        Fault::UnexpectedEndGroupTag => "unexpected end group tag".to_string(),
        Fault::InvalidString => "invalid string value: data is not UTF-8 encoded".to_string(),
    }
}

impl ProtoError {
    /// The text of the error.
    pub fn message(&self) -> (r: String)
        ensures
            r@ == proto_error_text(self@),
    {
        let ghost all = self@.fields;
        let mut s = "failed to decode Protobuf message: ".to_string();
        let ghost prefix = s@;
        let mut i: usize = 0;
        assert(s@ =~= prefix + fields_text(all.take(0)));
        while i < self.fields.len()
            invariant
                all == field_names(self.fields@),
                i <= self.fields@.len(),
                s@ == prefix + fields_text(all.take(i as int)),
            decreases self.fields@.len() - i,
        {
            let ghost before = s@;
            let (message, field) = self.fields[i];
            proof {
                assert(all.take(i as int + 1).drop_last() =~= all.take(i as int));
                assert(all.take(i as int + 1).last() == (message@, field@));
            }
            s.append(message);
            s.append(".");
            s.append(field);
            s.append(": ");
            assert(s@ =~= prefix + fields_text(all.take(i as int + 1)));
            i += 1;
        }
        assert(all.take(i as int) =~= all);
        s.append(fault_message(self.fault).as_str());
        s
    }
}

} // verus!
