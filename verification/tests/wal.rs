use skaldberg::ingest::wal::{
    list_wal_files, scan_max_record_seq, wal_path, WalError, WalFile, WalIter, WalReadError,
    WalRecord, WalWriter,
};

/// A log directory held in memory: each file's number and bytes.
struct Dir {
    files: Vec<(u64, Vec<u8>)>,
}

impl Dir {
    fn new() -> Dir {
        Dir { files: Vec::new() }
    }

    fn list(&self) -> Vec<(u64, String)> {
        let names: Vec<String> = self.files.iter().map(|(seq, _)| wal_path(*seq)).collect();
        list_wal_files(&names).unwrap()
    }

    fn read(&self) -> Vec<WalFile> {
        self.list()
            .into_iter()
            .map(|(seq, _)| WalFile {
                file_seq: seq,
                bytes: self.bytes(seq).clone(),
                error: None,
            })
            .collect()
    }

    fn bytes(&self, seq: u64) -> &Vec<u8> {
        &self.files.iter().find(|(s, _)| *s == seq).unwrap().1
    }

    fn bytes_mut(&mut self, seq: u64) -> &mut Vec<u8> {
        if !self.files.iter().any(|(s, _)| *s == seq) {
            self.files.push((seq, Vec::new()));
        }
        &mut self.files.iter_mut().find(|(s, _)| *s == seq).unwrap().1
    }

    fn writer(&mut self) -> WalWriter {
        let w = WalWriter::open(&self.read());
        self.bytes_mut(w.current_file_seq());
        w
    }

    fn writer_with_rotation(&mut self, rotation_bytes: u64) -> WalWriter {
        let w = WalWriter::open_with_rotation(&self.read(), rotation_bytes);
        self.bytes_mut(w.current_file_seq());
        w
    }

    fn append(&mut self, w: &mut WalWriter, payload: &[u8]) -> Result<u64, WalError> {
        let frame = w.append(payload)?;
        self.bytes_mut(w.current_file_seq()).extend_from_slice(&frame);
        let (seq, full) = w.appended(frame.len());
        if full {
            let next = w.rotate();
            self.bytes_mut(next);
            w.rotated();
        }
        Ok(seq)
    }

    fn records(&self) -> Vec<Result<WalRecord, WalReadError>> {
        let mut iter = WalIter::open(self.read());
        let mut out = Vec::new();
        while let Some(r) = iter.next() {
            out.push(r);
        }
        out
    }
}

#[test]
fn append_and_read_back() {
    let mut d = Dir::new();
    let mut w = d.writer();
    let s1 = d.append(&mut w, b"hello").unwrap();
    let s2 = d.append(&mut w, b"world").unwrap();
    assert_eq!(s1, 1);
    assert_eq!(s2, 2);
    drop(w);

    let recs: Vec<WalRecord> = d.records().into_iter().collect::<Result<Vec<_>, _>>().unwrap();
    assert_eq!(recs.len(), 2);
    assert_eq!(recs[0].record_seq, 1);
    assert_eq!(recs[0].payload, b"hello");
    assert_eq!(recs[1].record_seq, 2);
    assert_eq!(recs[1].payload, b"world");
}

#[test]
fn empty_dir_iter_is_empty() {
    let d = Dir::new();
    let recs: Vec<_> = d.records().into_iter().collect::<Result<Vec<_>, _>>().unwrap();
    assert!(recs.is_empty());
}

#[test]
fn nonexistent_dir_iter_is_empty() {
    // A directory that is not there has no names to list.
    assert!(list_wal_files(&Vec::new()).unwrap().is_empty());
    let mut iter = WalIter::open(Vec::new());
    assert!(iter.next().is_none());
}

#[test]
fn reopen_continues_record_seq() {
    let mut d = Dir::new();
    let mut w1 = d.writer();
    d.append(&mut w1, b"a").unwrap();
    d.append(&mut w1, b"b").unwrap();
    drop(w1);

    let mut w2 = d.writer();
    let seq = d.append(&mut w2, b"c").unwrap();
    assert_eq!(seq, 3);
    drop(w2);

    let recs: Vec<u64> = d
        .records()
        .into_iter()
        .filter_map(|r| r.ok().map(|r| r.record_seq))
        .collect();
    assert_eq!(recs, vec![1, 2, 3]);
}

#[test]
fn rotation_on_size() {
    let mut d = Dir::new();
    // 64 byte rotation; each "hello" record is 16+5=21 bytes.
    let mut w = d.writer_with_rotation(64);
    for _ in 0..10 {
        d.append(&mut w, b"hello").unwrap();
    }
    let files = d.list();
    assert!(files.len() >= 2, "expected rotation, got {} files", files.len());
    drop(w);

    let recs: Vec<_> = d.records().into_iter().collect::<Result<Vec<_>, _>>().unwrap();
    assert_eq!(recs.len(), 10);
    for (i, r) in recs.iter().enumerate() {
        assert_eq!(r.record_seq, (i + 1) as u64);
        assert_eq!(r.payload, b"hello");
    }
}

#[test]
fn torn_tail_yields_truncated_error() {
    let mut d = Dir::new();
    let mut w = d.writer();
    d.append(&mut w, b"first").unwrap();
    d.append(&mut w, b"second").unwrap();
    drop(w);

    // Chop a few bytes off the end to simulate crash mid-write.
    let last = d.list().last().unwrap().0;
    let bytes = d.bytes_mut(last);
    let len = bytes.len();
    bytes.truncate(len - 3);

    let mut iter = WalIter::open(d.read());
    let r1 = iter.next().unwrap().unwrap();
    assert_eq!(r1.payload, b"first");
    let r2 = iter.next().unwrap();
    assert!(matches!(r2, Err(WalReadError::Truncated(_))));
}

#[test]
fn crc_mismatch_detected() {
    let mut d = Dir::new();
    let mut w = d.writer();
    d.append(&mut w, b"hello").unwrap();
    drop(w);

    let first = d.list()[0].0;
    let bytes = d.bytes_mut(first);
    let last = bytes.len() - 1;
    bytes[last] ^= 0xFF;

    let mut iter = WalIter::open(d.read());
    let r = iter.next().unwrap();
    assert!(matches!(r, Err(WalReadError::CrcMismatch(_))));
}

#[test]
fn truncate_through_deletes_finished_files() {
    let mut d = Dir::new();
    let mut w = d.writer_with_rotation(30);
    for i in 0..5 {
        d.append(&mut w, format!("rec-{:02}", i).as_bytes()).unwrap();
    }
    let files_before = d.list();
    assert!(files_before.len() >= 2);
    let last_file_seq = files_before.last().unwrap().0;

    // Flushed up to record_seq 3 — files whose max <= 3 are deletable.
    let gone = w.truncate_through(&d.read(), 3);
    d.files.retain(|(seq, _)| !gone.contains(seq));
    let files_after = d.list();
    assert_eq!(gone, vec![0]);

    // The current file is never touched.
    assert!(files_after.iter().any(|(s, _)| *s == last_file_seq));

    // Records 4 and 5 should still be present and readable.
    let seqs: Vec<u64> = d
        .records()
        .into_iter()
        .filter_map(|r| r.ok().map(|r| r.record_seq))
        .collect();
    assert!(seqs.contains(&4), "seq 4 missing: {:?}", seqs);
    assert!(seqs.contains(&5), "seq 5 missing: {:?}", seqs);
}

#[test]
fn appended_payload_with_zero_bytes_roundtrips() {
    // The header is fixed-size; zero bytes inside payload must not confuse anything.
    let mut d = Dir::new();
    let mut w = d.writer();
    let payload: Vec<u8> = vec![0x00, 0x01, 0x00, 0xff, 0x00];
    d.append(&mut w, &payload).unwrap();
    drop(w);

    let recs: Vec<WalRecord> = d.records().into_iter().collect::<Result<Vec<_>, _>>().unwrap();
    assert_eq!(recs.len(), 1);
    assert_eq!(recs[0].payload, payload);
}

#[test]
fn frame_layout_is_length_checksum_number_payload() {
    let w = WalWriter::open(&Vec::new());
    assert_eq!(w.next_record_seq(), 1);
    let frame = w.append(b"hello").unwrap();
    let mut h = crc32fast::Hasher::new();
    h.update(&1u64.to_le_bytes());
    h.update(b"hello");
    let mut want = Vec::new();
    want.extend_from_slice(&5u32.to_le_bytes());
    want.extend_from_slice(&h.finalize().to_le_bytes());
    want.extend_from_slice(&1u64.to_le_bytes());
    want.extend_from_slice(b"hello");
    assert_eq!(frame, want);
}

#[test]
fn torn_record_is_described() {
    let mut d = Dir::new();
    let mut w = d.writer();
    d.append(&mut w, b"second").unwrap();
    d.bytes_mut(0).truncate(20);
    match d.records().remove(0) {
        Err(WalReadError::Truncated(text)) => assert_eq!(
            text,
            "record seq 1 declares 6 byte payload but file ended early"
        ),
        other => panic!("{:?}", other),
    }
}

#[test]
fn unreadable_file_is_reported_and_the_next_one_read() {
    let mut d = Dir::new();
    let mut w = d.writer();
    d.append(&mut w, b"x").unwrap();
    let mut files = d.read();
    files.insert(
        0,
        WalFile {
            file_seq: 0,
            bytes: Vec::new(),
            error: Some("permission denied".to_string()),
        },
    );
    files[1].file_seq = 1;
    let mut iter = WalIter::open(files);
    match iter.next() {
        Some(Err(WalReadError::Io(e))) => assert_eq!(e, "permission denied"),
        other => panic!("{:?}", other),
    }
    assert_eq!(iter.next().unwrap().unwrap().payload, b"x");
    assert!(iter.next().is_none());
}

#[test]
fn names_are_ten_digits_and_sorted_by_number() {
    assert_eq!(wal_path(7), "0000000007.log");
    assert_eq!(wal_path(12_345_678_901), "12345678901.log");
    let names: Vec<String> = ["2.log", "notes.txt", "0000000010.log", "0000000001.log"]
        .iter()
        .map(|s| s.to_string())
        .collect();
    let listed = list_wal_files(&names).unwrap();
    let seqs: Vec<u64> = listed.iter().map(|(s, _)| *s).collect();
    assert_eq!(seqs, vec![1, 2, 10]);
    assert_eq!(listed[1].1, "2.log");
}

#[test]
fn misnamed_log_file_is_refused() {
    let names = vec!["0000000001.log".to_string(), "abc.log".to_string()];
    match list_wal_files(&names) {
        Err(WalError::InvalidFileName(n)) => assert_eq!(n, "abc.log"),
        other => panic!("{:?}", other),
    }
}

#[test]
fn highest_record_of_a_file_ignores_a_torn_tail() {
    let mut d = Dir::new();
    let mut w = d.writer();
    d.append(&mut w, b"one").unwrap();
    d.append(&mut w, b"two").unwrap();
    assert_eq!(scan_max_record_seq(d.bytes(0)), 2);
    let len = d.bytes(0).len();
    d.bytes_mut(0).truncate(len - 1);
    assert_eq!(scan_max_record_seq(d.bytes(0)), 1);
    assert_eq!(scan_max_record_seq(&Vec::new()), 0);
    assert_eq!(WalWriter::highest_of(&d.read()), 1);
}

#[test]
fn rotation_moves_on_when_the_size_is_reached() {
    let mut d = Dir::new();
    let mut w = d.writer_with_rotation(42);
    d.append(&mut w, b"hello").unwrap();
    assert_eq!((w.current_file_seq(), w.current_file_bytes()), (0, 21));
    d.append(&mut w, b"hello").unwrap();
    assert_eq!((w.current_file_seq(), w.current_file_bytes()), (1, 0));
}

#[test]
fn a_log_reopened_with_other_sizes_replays_whole() {
    let mut d = Dir::new();
    let mut want: Vec<(u64, Vec<u8>)> = Vec::new();
    for rotation in [1_000, 30, 1, 64, 1_000_000] {
        let mut w = d.writer_with_rotation(rotation);
        for _ in 0..3 {
            let payload = format!("at {}", rotation).into_bytes();
            let seq = d.append(&mut w, &payload).unwrap();
            want.push((seq, payload));
        }
        let again = d.writer_with_rotation(rotation);
        assert_eq!(w.current_file_seq(), again.current_file_seq());
        assert_eq!(w.current_file_bytes(), again.current_file_bytes());
    }
    assert!(d.list().len() > 3);
    let seen: Vec<(u64, Vec<u8>)> =
        d.records().into_iter().map(|r| r.unwrap()).map(|r| (r.record_seq, r.payload)).collect();
    assert_eq!(seen, want);
    assert_eq!(seen.last().unwrap().0, 15);
}

#[test]
fn a_record_cut_in_its_header_leaves_no_trace() {
    let mut d = Dir::new();
    let mut w = d.writer();
    d.append(&mut w, b"first").unwrap();
    d.append(&mut w, b"second").unwrap();
    d.bytes_mut(0).truncate(21 + 10);
    let recs: Vec<WalRecord> = d.records().into_iter().collect::<Result<Vec<_>, _>>().unwrap();
    assert_eq!(recs.len(), 1);
    assert_eq!(recs[0].payload, b"first");
}

#[test]
fn a_damaged_record_does_not_hide_the_next() {
    let mut d = Dir::new();
    let mut w = d.writer();
    d.append(&mut w, b"first").unwrap();
    d.append(&mut w, b"second").unwrap();
    d.bytes_mut(0)[20] ^= 0x01;
    let recs = d.records();
    assert_eq!(recs.len(), 2);
    assert!(matches!(recs[0], Err(WalReadError::CrcMismatch(1))));
    assert_eq!(recs[1].as_ref().unwrap().payload, b"second");
}

#[test]
fn numbers_go_on_after_an_empty_current_file() {
    let mut d = Dir::new();
    let mut w = d.writer_with_rotation(21);
    d.append(&mut w, b"hello").unwrap();
    assert_eq!(w.current_file_seq(), 1);
    drop(w);
    // The last file is empty; the highest number is in the one before it.
    let w = d.writer();
    assert_eq!(w.current_file_seq(), 1);
    assert_eq!(w.next_record_seq(), 2);
}
