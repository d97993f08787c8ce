//! What the write-ahead log promises: what was appended is read back, a torn
//! or damaged record is reported and never handed out, numbering goes on after
//! a restart, and no unflushed record is deleted.

use vstd::bytes::{
    lemma_auto_spec_u32_to_from_le_bytes, lemma_auto_spec_u64_to_from_le_bytes,
    spec_u32_to_le_bytes, spec_u64_to_le_bytes,
};
use vstd::prelude::*;
use crate::ingest::wal::{
    crc32_of, cut_text, declared_crc, declared_len, declared_seq, frame, frame_at, frame_body,
    highest_record, log_name, log_stem, removable, replay, replay_file, scan_max, writer_for,
    zeros, FileView, FrameView, ReplayView, WriterView, HEADER_BYTES,
};
use crate::text::{
    decimal, digits_value, is_digit, lemma_decimal_value, unsigned_digits, unsigned_value,
};

verus! {

/// Whether the bytes from `pos` on are whole frames, with nothing left over.
pub open spec fn whole(bytes: Seq<u8>, pos: int) -> bool
    decreases bytes.len() - pos,
{
    match frame_at(bytes, pos) {
        FrameView::End => pos == bytes.len(),
        FrameView::Cut { .. } => false,
        FrameView::Bad { next, .. } => whole(bytes, next),
        FrameView::Good { next, .. } => whole(bytes, next),
    }
}

/// A file that was read to its end.
pub open spec fn read_file(file_seq: u64, bytes: Seq<u8>) -> FileView {
    FileView { file_seq, bytes, error: None }
}

/// The first part of a frame: everything before the payload.
pub open spec fn header(seq: u64, payload: Seq<u8>) -> Seq<u8> {
    frame(seq, payload).take(HEADER_BYTES as int)
}

proof fn lemma_frame_parts(seq: u64, payload: Seq<u8>)
    requires
        payload.len() <= u32::MAX,
    ensures
        frame(seq, payload).len() == HEADER_BYTES + payload.len(),
        frame(seq, payload) == header(seq, payload) + payload,
        header(seq, payload).len() == HEADER_BYTES,
        declared_len(header(seq, payload), 0) == payload.len(),
        declared_crc(header(seq, payload), 0) == crc32_of(frame_body(seq, payload)),
        declared_seq(header(seq, payload), 0) == seq,
        header(seq, payload).subrange(8, 16) == spec_u64_to_le_bytes(seq),
{
    lemma_auto_spec_u32_to_from_le_bytes();
    lemma_auto_spec_u64_to_from_le_bytes();
    let f = frame(seq, payload);
    let h = header(seq, payload);
    let n = spec_u32_to_le_bytes(payload.len() as u32);
    let c = spec_u32_to_le_bytes(crc32_of(frame_body(seq, payload)));
    let s = spec_u64_to_le_bytes(seq);
    assert(n.len() == 4);
    assert(c.len() == 4);
    assert(s.len() == 8);
    assert(f =~= n + c + s + payload);
    assert(f =~= h + payload);
    assert(h.subrange(0, 4) =~= n);
    assert(h.subrange(4, 8) =~= c);
    assert(h.subrange(8, 16) =~= s);
}

/// What a header says does not depend on what stands around it.
proof fn lemma_header_in_place(a: Seq<u8>, h: Seq<u8>, t: Seq<u8>)
    requires
        h.len() == HEADER_BYTES,
    ensures
        declared_len(a + h + t, a.len() as int) == declared_len(h, 0),
        declared_crc(a + h + t, a.len() as int) == declared_crc(h, 0),
        declared_seq(a + h + t, a.len() as int) == declared_seq(h, 0),
{
    let b = a + h + t;
    let p = a.len() as int;
    assert(b.subrange(p, p + 4) =~= h.subrange(0, 4));
    assert(b.subrange(p + 4, p + 8) =~= h.subrange(4, 8));
    assert(b.subrange(p + 8, p + 16) =~= h.subrange(8, 16));
}

/// A frame in a file is read as the record it was made from, wherever it
/// stands.
proof fn lemma_frame_read(a: Seq<u8>, seq: u64, payload: Seq<u8>, t: Seq<u8>)
    requires
        payload.len() <= u32::MAX,
    ensures
        frame_at(a + frame(seq, payload) + t, a.len() as int) == (FrameView::Good {
            seq,
            payload,
            next: (a.len() + frame(seq, payload).len()) as int,
        }),
{
    lemma_frame_parts(seq, payload);
    let h = header(seq, payload);
    let b = a + frame(seq, payload) + t;
    assert(b =~= a + h + (payload + t));
    lemma_header_in_place(a, h, payload + t);
    let p = a.len() as int;
    let next = p + HEADER_BYTES + payload.len();
    assert(b.subrange(p + 8, next) =~= frame_body(seq, payload)) by {
        assert(b.subrange(p + 8, p + 16) =~= h.subrange(8, 16));
        assert(b.subrange(p + 8, next) =~= b.subrange(p + 8, p + 16) + payload);
    }
    assert(b.subrange(p + HEADER_BYTES, next) =~= payload);
}

/// Whole frames are read the same whatever follows them.
proof fn lemma_frame_extend(b: Seq<u8>, t: Seq<u8>, pos: int)
    requires
        0 <= pos,
        frame_at(b, pos) is Good || frame_at(b, pos) is Bad,
    ensures
        frame_at(b + t, pos) == frame_at(b, pos),
{
    let x = b + t;
    assert(x.subrange(pos, pos + 4) =~= b.subrange(pos, pos + 4));
    assert(x.subrange(pos + 4, pos + 8) =~= b.subrange(pos + 4, pos + 8));
    assert(x.subrange(pos + 8, pos + 16) =~= b.subrange(pos + 8, pos + 16));
    let next = pos + HEADER_BYTES + declared_len(b, pos);
    assert(x.subrange(pos + 8, next) =~= b.subrange(pos + 8, next));
    assert(x.subrange(pos + HEADER_BYTES, next) =~= b.subrange(pos + HEADER_BYTES, next));
}

/// Replaying whole frames and then something else hands out the frames'
/// records, then what the rest gives.
proof fn lemma_replay_extend(f: FileView, b: Seq<u8>, t: Seq<u8>, pos: int)
    requires
        0 <= pos <= b.len(),
        whole(b, pos),
        f.bytes == b + t,
    ensures
        replay_file(f, pos) == replay_file(read_file(f.file_seq, b), pos) + replay_file(
            f,
            b.len() as int,
        ),
    decreases b.len() - pos,
{
    let g = read_file(f.file_seq, b);
    match frame_at(b, pos) {
        FrameView::End => {
            assert(replay_file(g, pos) =~= Seq::empty());
            assert(replay_file(f, pos) =~= Seq::<ReplayView>::empty() + replay_file(
                f,
                b.len() as int,
            ));
        },
        FrameView::Cut { .. } => {},
        FrameView::Bad { seq, next } => {
            lemma_frame_extend(b, t, pos);
            lemma_replay_extend(f, b, t, next);
            assert(replay_file(f, pos) =~= replay_file(g, pos) + replay_file(f, b.len() as int));
        },
        FrameView::Good { seq, payload, next } => {
            lemma_frame_extend(b, t, pos);
            lemma_replay_extend(f, b, t, next);
            assert(replay_file(f, pos) =~= replay_file(g, pos) + replay_file(f, b.len() as int));
        },
    }
}

/// Frames are read the same whatever stands before them.
proof fn lemma_frame_shift(a: Seq<u8>, t: Seq<u8>, pos: int)
    requires
        0 <= pos <= t.len(),
    ensures
        match frame_at(t, pos) {
            FrameView::End => frame_at(a + t, a.len() + pos) == FrameView::End,
            FrameView::Cut { seq, declared } => frame_at(a + t, a.len() + pos) == (FrameView::Cut {
                seq,
                declared,
            }),
            FrameView::Bad { seq, next } => frame_at(a + t, a.len() + pos) == (FrameView::Bad {
                seq,
                next: a.len() + next,
            }),
            FrameView::Good { seq, payload, next } => frame_at(a + t, a.len() + pos) == (
            FrameView::Good { seq, payload, next: a.len() + next }),
        },
{
    let x = a + t;
    let p = a.len() + pos;
    if t.len() - pos >= HEADER_BYTES {
        assert(x.subrange(p, p + 4) =~= t.subrange(pos, pos + 4));
        assert(x.subrange(p + 4, p + 8) =~= t.subrange(pos + 4, pos + 8));
        assert(x.subrange(p + 8, p + 16) =~= t.subrange(pos + 8, pos + 16));
        let next = pos + HEADER_BYTES + declared_len(t, pos);
        if next <= t.len() {
            assert(x.subrange(p + 8, a.len() + next) =~= t.subrange(pos + 8, next));
            assert(x.subrange(p + HEADER_BYTES, a.len() + next) =~= t.subrange(
                pos + HEADER_BYTES,
                next,
            ));
        }
    }
}

proof fn lemma_replay_shift(f: FileView, g: FileView, a: Seq<u8>, t: Seq<u8>, pos: int)
    requires
        0 <= pos <= t.len(),
        f.bytes == a + t,
        g.bytes == t,
        f.error == g.error,
    ensures
        replay_file(f, a.len() + pos) == replay_file(g, pos),
    decreases t.len() - pos,
{
    lemma_frame_shift(a, t, pos);
    match frame_at(t, pos) {
        FrameView::End => {},
        FrameView::Cut { .. } => {},
        FrameView::Bad { seq, next } => {
            lemma_replay_shift(f, g, a, t, next);
        },
        FrameView::Good { seq, payload, next } => {
            lemma_replay_shift(f, g, a, t, next);
        },
    }
}

/// Whole frames with another whole frame behind them are whole frames.
proof fn lemma_whole_extend(b: Seq<u8>, seq: u64, payload: Seq<u8>, pos: int)
    requires
        0 <= pos <= b.len(),
        whole(b, pos),
        payload.len() <= u32::MAX,
    ensures
        whole(b + frame(seq, payload), pos),
    decreases b.len() - pos,
{
    let x = b + frame(seq, payload);
    match frame_at(b, pos) {
        FrameView::End => {
            lemma_frame_read(b, seq, payload, Seq::empty());
            assert(x + Seq::<u8>::empty() =~= x);
            lemma_frame_parts(seq, payload);
            assert(frame_at(x, x.len() as int) == FrameView::End);
            assert(whole(x, x.len() as int));
        },
        FrameView::Cut { .. } => {},
        FrameView::Bad { seq: _, next } => {
            lemma_frame_extend(b, frame(seq, payload), pos);
            lemma_whole_extend(b, seq, payload, next);
        },
        FrameView::Good { seq: _, payload: _, next } => {
            lemma_frame_extend(b, frame(seq, payload), pos);
            lemma_whole_extend(b, seq, payload, next);
        },
    }
}

/// A record appended to a file of whole frames is read back behind everything
/// that the file held, and the file holds whole frames again.
pub proof fn law_append_is_read_back(
    file_seq: u64,
    b: Seq<u8>,
    seq: u64,
    payload: Seq<u8>,
)
    requires
        whole(b, 0),
        payload.len() <= u32::MAX,
    ensures
        replay_file(read_file(file_seq, b + frame(seq, payload)), 0) == replay_file(
            read_file(file_seq, b),
            0,
        ).push(ReplayView::Record { seq, payload }),
        whole(b + frame(seq, payload), 0),
{
    let x = b + frame(seq, payload);
    let f = read_file(file_seq, x);
    lemma_replay_extend(f, b, frame(seq, payload), 0);
    lemma_frame_read(b, seq, payload, Seq::empty());
    assert(x + Seq::<u8>::empty() =~= x);
    lemma_frame_parts(seq, payload);
    assert(frame_at(x, x.len() as int) == FrameView::End);
    assert(replay_file(f, x.len() as int) =~= Seq::empty());
    assert(replay_file(f, b.len() as int) =~= seq![ReplayView::Record { seq, payload }]);
    assert(replay_file(f, 0) =~= replay_file(read_file(file_seq, b), 0).push(
        ReplayView::Record { seq, payload },
    ));
    lemma_whole_extend(b, seq, payload, 0);
}

/// A record that was only partly written is never handed out. Cut inside its
/// header it leaves no trace, cut later it is reported; what stood before it is
/// read back either way.
pub proof fn law_torn_record_is_not_read(
    file_seq: u64,
    b: Seq<u8>,
    seq: u64,
    payload: Seq<u8>,
    written: int,
)
    requires
        whole(b, 0),
        payload.len() <= u32::MAX,
        0 <= written < frame(seq, payload).len(),
    ensures
        replay_file(read_file(file_seq, b + frame(seq, payload).take(written)), 0) == replay_file(
            read_file(file_seq, b),
            0,
        ) + if written < HEADER_BYTES {
            Seq::empty()
        } else {
            seq![ReplayView::Truncated(cut_text(seq, payload.len() as u32))]
        },
{
    let t = frame(seq, payload).take(written);
    let x = b + t;
    let f = read_file(file_seq, x);
    lemma_replay_extend(f, b, t, 0);
    lemma_frame_parts(seq, payload);
    if written < HEADER_BYTES {
        assert(frame_at(x, b.len() as int) == FrameView::End);
    } else {
        let h = header(seq, payload);
        assert(x =~= b + h + t.skip(HEADER_BYTES as int));
        lemma_header_in_place(b, h, t.skip(HEADER_BYTES as int));
        assert(frame_at(x, b.len() as int) == (FrameView::Cut {
            seq,
            declared: payload.len() as u32,
        }));
    }
}

/// A record whose payload was damaged so that its checksum no longer holds is
/// reported under its number and not handed out; what stands before it and
/// after it is read as if it were not there.
pub proof fn law_damage_is_reported(
    f: FileView,
    b: Seq<u8>,
    seq: u64,
    payload: Seq<u8>,
    damaged: Seq<u8>,
    t: Seq<u8>,
)
    requires
        whole(b, 0),
        payload.len() <= u32::MAX,
        damaged.len() == payload.len(),
        crc32_of(frame_body(seq, damaged)) != crc32_of(frame_body(seq, payload)),
        f.bytes == b + header(seq, payload) + damaged + t,
    ensures
        replay_file(f, 0) == replay_file(read_file(f.file_seq, b), 0) + seq![
            ReplayView::CrcMismatch(seq),
        ] + replay_file(FileView { bytes: t, ..f }, 0),
{
    let h = header(seq, payload);
    let x = f.bytes;
    lemma_frame_parts(seq, payload);
    assert(x =~= b + (h + damaged + t));
    lemma_replay_extend(f, b, h + damaged + t, 0);
    assert(x =~= b + h + (damaged + t));
    lemma_header_in_place(b, h, damaged + t);
    let p = b.len() as int;
    let next = p + HEADER_BYTES + payload.len();
    assert(x.subrange(p + 8, next) =~= frame_body(seq, damaged)) by {
        assert(x.subrange(p + 8, p + 16) =~= h.subrange(8, 16));
        assert(x.subrange(p + 8, next) =~= x.subrange(p + 8, p + 16) + damaged);
    }
    assert(frame_at(x, p) == (FrameView::Bad { seq, next }));
    let a = b + h + damaged;
    assert(x =~= a + t);
    lemma_replay_shift(f, FileView { bytes: t, ..f }, a, t, 0);
    assert(replay_file(f, 0) =~= replay_file(read_file(f.file_seq, b), 0) + seq![
        ReplayView::CrcMismatch(seq),
    ] + replay_file(FileView { bytes: t, ..f }, 0));
}

// ---------- a log from its first record ----------

/// The files of a log after these payloads were appended one by one, the first
/// as record 1: each goes to the last file, and a file that has then reached the
/// rotation size is followed by a new one. The log may have been reopened with
/// another size before any of them: `rotations[i]` is the one in force when
/// `payloads[i]` was appended.
pub open spec fn log_after(payloads: Seq<Seq<u8>>, rotations: Seq<u64>) -> Seq<Seq<u8>>
    decreases payloads.len(),
{
    if payloads.len() == 0 {
        seq![Seq::empty()]
    } else {
        let files = log_after(payloads.drop_last(), rotations);
        let current = files.last() + frame(payloads.len() as u64, payloads.last());
        let files = files.drop_last().push(current);
        if current.len() >= rotations[payloads.len() - 1] {
            files.push(Seq::empty())
        } else {
            files
        }
    }
}

/// The log's files as replay is given them, numbered from 0.
pub open spec fn log_files(files: Seq<Seq<u8>>) -> Seq<FileView> {
    files.map(|i: int, b: Seq<u8>| read_file(i as u64, b))
}

/// The records of a log, numbered from 1.
pub open spec fn records(payloads: Seq<Seq<u8>>) -> Seq<ReplayView> {
    payloads.map(|i: int, p: Seq<u8>| ReplayView::Record { seq: (i + 1) as u64, payload: p })
}

proof fn lemma_replay_join(a: Seq<FileView>, b: Seq<FileView>)
    ensures
        replay(a + b) == replay(a) + replay(b),
    decreases a.len(),
{
    if a.len() == 0 {
        assert(a + b =~= b);
        assert(replay(a) + replay(b) =~= replay(b));
    } else {
        assert((a + b).skip(1) =~= a.skip(1) + b);
        assert((a + b)[0] == a[0]);
        lemma_replay_join(a.skip(1), b);
        assert(replay(a + b) =~= replay(a) + replay(b));
    }
}

proof fn lemma_replay_one(f: FileView)
    ensures
        replay(seq![f]) == replay_file(f, 0),
{
    assert(seq![f].skip(1) =~= Seq::empty());
    assert(replay(seq![f].skip(1)) =~= Seq::empty());
    assert(replay(seq![f]) =~= replay_file(f, 0));
}

proof fn lemma_replay_last(files: Seq<Seq<u8>>)
    requires
        files.len() > 0,
    ensures
        replay(log_files(files)) == replay(log_files(files.drop_last())) + replay_file(
            read_file((files.len() - 1) as u64, files.last()),
            0,
        ),
{
    let f = read_file((files.len() - 1) as u64, files.last());
    assert(log_files(files) =~= log_files(files.drop_last()) + seq![f]);
    lemma_replay_join(log_files(files.drop_last()), seq![f]);
    lemma_replay_one(f);
}

/// Replaying a log gives back every payload that was appended to it, in order
/// and under the numbers 1, 2, 3, ..., across any number of rotations, and
/// whatever sizes the log was reopened with in between.
pub proof fn law_log_replays_what_was_appended(payloads: Seq<Seq<u8>>, rotations: Seq<u64>)
    requires
        payloads.len() <= rotations.len(),
        payloads.len() < u64::MAX,
        forall|i: int| 0 <= i < payloads.len() ==> (#[trigger] payloads[i]).len() <= u32::MAX,
    ensures
        replay(log_files(log_after(payloads, rotations))) == records(payloads),
        log_after(payloads, rotations).len() > 0,
        whole(log_after(payloads, rotations).last(), 0),
    decreases payloads.len(),
{
    let out = log_after(payloads, rotations);
    if payloads.len() == 0 {
        assert(out.drop_last() =~= Seq::empty());
        lemma_replay_last(out);
        assert(log_files(out.drop_last()) =~= Seq::empty());
        assert(replay_file(read_file(0, out.last()), 0) =~= Seq::empty());
        assert(replay(log_files(out)) =~= records(payloads));
    } else {
        let before = payloads.drop_last();
        assert forall|i: int| 0 <= i < before.len() implies (#[trigger] before[i]).len()
            <= u32::MAX by {
            assert(before[i] == payloads[i]);
        }
        law_log_replays_what_was_appended(before, rotations);
        let files = log_after(before, rotations);
        let n = payloads.len() as u64;
        let p = payloads.last();
        assert(p == payloads[payloads.len() - 1]);
        let current = files.last() + frame(n, p);
        let grown = files.drop_last().push(current);
        let num = (files.len() - 1) as u64;
        law_append_is_read_back(num, files.last(), n, p);
        lemma_replay_last(files);
        lemma_replay_last(grown);
        assert(grown.drop_last() =~= files.drop_last());
        assert(replay(log_files(grown)) =~= replay(log_files(files)).push(
            ReplayView::Record { seq: n, payload: p },
        ));
        assert(records(payloads) =~= records(before).push(
            ReplayView::Record { seq: n, payload: p },
        ));
        if current.len() >= rotations[payloads.len() - 1] {
            assert(out =~= grown.push(Seq::empty()));
            lemma_replay_last(out);
            assert(out.drop_last() =~= grown);
            let e = read_file((out.len() - 1) as u64, Seq::empty());
            assert(replay_file(e, 0) =~= Seq::empty());
            assert(replay(log_files(out)) =~= replay(log_files(grown)));
        } else {
            assert(out =~= grown);
        }
    }
}

proof fn lemma_scan_extend(b: Seq<u8>, seq: u64, payload: Seq<u8>, pos: int)
    requires
        0 <= pos <= b.len(),
        whole(b, pos),
        payload.len() <= u32::MAX,
    ensures
        scan_max(b + frame(seq, payload), pos) == if seq > scan_max(b, pos) {
            seq
        } else {
            scan_max(b, pos)
        },
    decreases b.len() - pos,
{
    let x = b + frame(seq, payload);
    lemma_frame_parts(seq, payload);
    if frame_at(b, pos) is End {
        let h = header(seq, payload);
        assert(x =~= b + h + payload);
        lemma_header_in_place(b, h, payload);
        assert(scan_max(x, x.len() as int) == 0);
    } else {
        lemma_frame_extend(b, frame(seq, payload), pos);
        assert(x.subrange(pos, pos + 4) =~= b.subrange(pos, pos + 4));
        assert(x.subrange(pos + 8, pos + 16) =~= b.subrange(pos + 8, pos + 16));
        let next = pos + HEADER_BYTES + declared_len(b, pos);
        lemma_scan_extend(b, seq, payload, next);
    }
}

/// A writer that is opened on a log numbers on where the log ends: after `n`
/// records the next one is `n + 1`, whichever files they are in.
pub proof fn law_reopening_numbers_on(
    payloads: Seq<Seq<u8>>,
    rotations: Seq<u64>,
    reopened: u64,
)
    requires
        payloads.len() <= rotations.len(),
        payloads.len() < u64::MAX,
        forall|i: int| 0 <= i < payloads.len() ==> (#[trigger] payloads[i]).len() <= u32::MAX,
    ensures
        highest_record(log_files(log_after(payloads, rotations))) == payloads.len(),
        writer_for(log_files(log_after(payloads, rotations)), reopened).next_record_seq
            == payloads.len() + 1,
    decreases payloads.len(),
{
    let out = log_after(payloads, rotations);
    if payloads.len() == 0 {
        let v = log_files(out);
        assert(v.drop_last() =~= Seq::empty());
        assert(highest_record(v.drop_last()) == 0);
        assert(v.last().bytes =~= Seq::<u8>::empty());
        assert(scan_max(v.last().bytes, 0) == 0);
    } else {
        let before = payloads.drop_last();
        assert forall|i: int| 0 <= i < before.len() implies (#[trigger] before[i]).len()
            <= u32::MAX by {
            assert(before[i] == payloads[i]);
        }
        law_reopening_numbers_on(before, rotations, reopened);
        law_log_replays_what_was_appended(before, rotations);
        let files = log_after(before, rotations);
        let n = payloads.len() as u64;
        let p = payloads.last();
        assert(p == payloads[payloads.len() - 1]);
        let current = files.last() + frame(n, p);
        let grown = files.drop_last().push(current);
        lemma_scan_extend(files.last(), n, p, 0);
        let vf = log_files(files);
        let vg = log_files(grown);
        assert(vg.drop_last() =~= vf.drop_last());
        assert(vg.last().bytes == current);
        assert(vf.last().bytes == files.last());
        assert(highest_record(vg) == n);
        if current.len() >= rotations[payloads.len() - 1] {
            let vo = log_files(out);
            assert(out =~= grown.push(Seq::empty()));
            assert(vo.drop_last() =~= vg);
            assert(vo.last().bytes =~= Seq::<u8>::empty());
            assert(scan_max(vo.last().bytes, 0) == 0);
        } else {
            assert(out =~= grown);
        }
    }
}

/// What a writer knows that has `rotation` as its rotation size, and that began
/// with an empty log and appended these payloads, moving to a new file whenever
/// one was full by the size then in force.
pub open spec fn writer_after(
    payloads: Seq<Seq<u8>>,
    rotations: Seq<u64>,
    rotation: u64,
) -> WriterView
    decreases payloads.len(),
{
    if payloads.len() == 0 {
        WriterView { file_seq: 0, file_bytes: 0, next_record_seq: 1, rotation_bytes: rotation }
    } else {
        let w = writer_after(payloads.drop_last(), rotations, rotations[payloads.len() - 1]);
        let written = frame(w.next_record_seq, payloads.last());
        let w = WriterView {
            file_bytes: (w.file_bytes + written.len()) as u64,
            next_record_seq: (w.next_record_seq + 1) as u64,
            ..w
        };
        let w = if w.file_bytes >= w.rotation_bytes {
            WriterView { file_seq: (w.file_seq + 1) as u64, file_bytes: 0, ..w }
        } else {
            w
        };
        WriterView { rotation_bytes: rotation, ..w }
    }
}

/// A writer that has been appending knows of its log exactly what a writer
/// knows that is newly opened on the files it wrote.
pub proof fn law_writer_knows_its_files(
    payloads: Seq<Seq<u8>>,
    rotations: Seq<u64>,
    rotation: u64,
)
    requires
        payloads.len() <= rotations.len(),
        payloads.len() < u64::MAX,
        forall|i: int| 0 <= i < payloads.len() ==> (#[trigger] payloads[i]).len() <= u32::MAX,
        forall|i: int|
            0 <= i < payloads.len() ==> #[trigger] rotations[i] <= u64::MAX - HEADER_BYTES
                - u32::MAX,
    ensures
        writer_after(payloads, rotations, rotation) == writer_for(
            log_files(log_after(payloads, rotations)),
            rotation,
        ),
        log_after(payloads, rotations).len() <= payloads.len() + 1,
        log_after(payloads, rotations).last().len() == 0 || (payloads.len() > 0 && log_after(
            payloads,
            rotations,
        ).last().len() < rotations[payloads.len() - 1]),
    decreases payloads.len(),
{
    law_reopening_numbers_on(payloads, rotations, rotation);
    let out = log_after(payloads, rotations);
    let v = log_files(out);
    if payloads.len() == 0 {
        assert(v.last() == read_file(0, out.last()));
    } else {
        let before = payloads.drop_last();
        let size = rotations[payloads.len() - 1];
        assert forall|i: int| 0 <= i < before.len() implies (#[trigger] before[i]).len()
            <= u32::MAX by {
            assert(before[i] == payloads[i]);
        }
        law_writer_knows_its_files(before, rotations, size);
        law_reopening_numbers_on(before, rotations, size);
        law_log_replays_what_was_appended(before, rotations);
        let files = log_after(before, rotations);
        let n = payloads.len() as u64;
        let p = payloads.last();
        assert(p == payloads[payloads.len() - 1]);
        lemma_frame_parts(n, p);
        let vf = log_files(files);
        assert(vf.last() == read_file((files.len() - 1) as u64, files.last()));
        assert(v.last() == read_file((out.len() - 1) as u64, out.last()));
    }
}

/// A writer numbers its next record above every record that replay hands out
/// of the files it was opened on.
pub proof fn law_new_numbers_are_new(files: Seq<FileView>, i: int, j: int, rotation: u64)
    requires
        highest_record(files) < u64::MAX,
        0 <= i < files.len(),
        0 <= j < replay_file(files[i], 0).len(),
    ensures
        replay_file(files[i], 0)[j] matches ReplayView::Record { seq, .. } ==> seq < writer_for(
            files,
            rotation,
        ).next_record_seq,
{
    lemma_scan_covers(files[i], 0, j);
    lemma_highest_covers(files, i);
}

proof fn lemma_highest_covers(files: Seq<FileView>, i: int)
    requires
        0 <= i < files.len(),
    ensures
        scan_max(files[i].bytes, 0) <= highest_record(files),
    decreases files.len(),
{
    if i < files.len() - 1 {
        lemma_highest_covers(files.drop_last(), i);
    }
}

/// Every record replayed from a file is at or below the file's highest number.
proof fn lemma_scan_covers(f: FileView, pos: int, j: int)
    requires
        0 <= pos,
        0 <= j < replay_file(f, pos).len(),
    ensures
        replay_file(f, pos)[j] matches ReplayView::Record { seq, .. } ==> seq <= scan_max(
            f.bytes,
            pos,
        ),
    decreases f.bytes.len() - pos,
{
    match frame_at(f.bytes, pos) {
        FrameView::End => {},
        FrameView::Cut { .. } => {},
        FrameView::Bad { seq, next } => {
            if j > 0 {
                lemma_scan_covers(f, next, j - 1);
                assert(replay_file(f, pos)[j] == replay_file(f, next)[j - 1]);
            }
        },
        FrameView::Good { seq, payload, next } => {
            if j > 0 {
                lemma_scan_covers(f, next, j - 1);
                assert(replay_file(f, pos)[j] == replay_file(f, next)[j - 1]);
            }
        },
    }
}

/// Truncating after a flush never removes the file being appended to, nor a
/// file from which a record above the flushed one can be replayed.
pub proof fn law_truncation_keeps_unflushed(
    files: Seq<FileView>,
    current: u64,
    flushed: u64,
    i: int,
    j: int,
)
    requires
        forall|a: int, b: int|
            0 <= a < b < files.len() ==> (#[trigger] files[a]).file_seq != (
            #[trigger] files[b]).file_seq,
        0 <= i < files.len(),
        0 <= j < replay_file(files[i], 0).len(),
        replay_file(files[i], 0)[j] matches ReplayView::Record { seq, .. } && seq > flushed,
    ensures
        !removable(files, current, flushed).contains(files[i].file_seq),
        !removable(files, current, flushed).contains(current),
{
    lemma_scan_covers(files[i], 0, j);
    lemma_removable(files, current, flushed, files[i].file_seq);
    lemma_removable(files, current, flushed, current);
}

proof fn lemma_removable(files: Seq<FileView>, current: u64, flushed: u64, n: u64)
    ensures
        removable(files, current, flushed).contains(n) ==> n != current && exists|i: int|
            0 <= i < files.len() && (#[trigger] files[i]).file_seq == n && scan_max(
                files[i].bytes,
                0,
            ) <= flushed,
    decreases files.len(),
{
    if files.len() > 0 && removable(files, current, flushed).contains(n) {
        let rest = removable(files.drop_last(), current, flushed);
        lemma_removable(files.drop_last(), current, flushed, n);
        let f = files.last();
        if f.file_seq != current && scan_max(f.bytes, 0) <= flushed && f.file_seq == n {
            assert(files[files.len() - 1].file_seq == n);
        } else {
            let w = choose|w: int|
                0 <= w < removable(files, current, flushed).len() && removable(
                    files,
                    current,
                    flushed,
                )[w] == n;
            assert(rest[w] == n);
            let i = choose|i: int|
                0 <= i < files.drop_last().len() && (#[trigger] files.drop_last()[i]).file_seq == n
                    && scan_max(files.drop_last()[i].bytes, 0) <= flushed;
            assert(files[i].file_seq == n);
        }
    }
}

/// Truncating after a flush removes every file but the one being appended to
/// that holds no record above the flushed one.
pub proof fn law_truncation_removes_flushed(
    files: Seq<FileView>,
    current: u64,
    flushed: u64,
    i: int,
)
    requires
        0 <= i < files.len(),
        files[i].file_seq != current,
        scan_max(files[i].bytes, 0) <= flushed,
    ensures
        removable(files, current, flushed).contains(files[i].file_seq),
    decreases files.len(),
{
    let rest = removable(files.drop_last(), current, flushed);
    let all = removable(files, current, flushed);
    if i < files.len() - 1 {
        law_truncation_removes_flushed(files.drop_last(), current, flushed, i);
        let w = choose|w: int| 0 <= w < rest.len() && rest[w] == files[i].file_seq;
        assert(all[w] == files[i].file_seq);
    } else {
        assert(all[rest.len() as int] == files[i].file_seq);
    }
}

proof fn lemma_zeros_value(k: int, d: Seq<char>)
    requires
        k >= 0,
    ensures
        digits_value(zeros(k) + d) == digits_value(d),
    decreases d.len(), k,
{
    if d.len() > 0 {
        lemma_zeros_value(k, d.drop_last());
        assert((zeros(k) + d).drop_last() =~= zeros(k) + d.drop_last());
        assert((zeros(k) + d).last() == d.last());
    } else if k > 0 {
        lemma_zeros_value(k - 1, d);
        assert((zeros(k) + d).drop_last() =~= zeros(k - 1) + d);
        assert((zeros(k) + d).last() == '0');
    } else {
        assert(zeros(k) + d =~= d);
    }
}

/// The name given to a log file is recognised as a log file's name and read
/// back as its number.
pub proof fn law_file_names_are_read_back(n: u64)
    ensures
        log_stem(log_name(n)) is Some,
        unsigned_value(log_stem(log_name(n))->0) == Some(n),
{
    reveal_strlit(".log");
    lemma_decimal_value(n as nat);
    let d = decimal(n as nat);
    let k = 10 - d.len();
    let name = log_name(n);
    let z = zeros(k as int);
    let stem = name.take(name.len() - 4);
    assert(name.skip(name.len() - 4) =~= ".log"@);
    assert(stem =~= z + d);
    assert(stem.len() > 0);
    assert forall|i: int| 0 <= i < stem.len() implies is_digit(#[trigger] stem[i]) by {
        if i >= z.len() {
            assert(stem[i] == d[i - z.len()]);
        }
    }
    assert(is_digit(stem[0]));
    assert(unsigned_digits(stem) == stem);
    lemma_zeros_value(z.len() as int, d);
    assert(zeros(z.len() as int) =~= z);
}

} // verus!
