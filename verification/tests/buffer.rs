use chrono::NaiveDate;
use skaldberg::ingest::buffer::{Buffer, BYTES_PER_SAMPLE};
use skaldberg::ingest::flush::{
    build_samples_batch, build_series_batch, field_id_metadata, flush_result, plan_flush,
};
use skaldberg::ingest::service::{
    check_backpressure, insert_logged, replay_wal, take_for_flush, truncation_point, Replayed,
    BACKPRESSURE_BYTES, FLUSH_SIZE_BYTES,
};
use skaldberg::ingest::types::ValidatedSample;
use skaldberg::labels::Labels;

fn sample(
    series_id: i64,
    metric: &str,
    labels: &[(&str, &str)],
    ts_us: i64,
    v: f64,
) -> ValidatedSample {
    let mut l = Labels::new();
    for (k, v) in labels {
        l.insert((*k).to_string(), (*v).to_string());
    }
    ValidatedSample {
        series_id,
        metric: metric.to_string(),
        labels: l,
        ts_us,
        value: v.to_bits(),
    }
}

fn ts(date: &str, time: &str) -> i64 {
    // Helper: produce a microsecond timestamp from "YYYY-MM-DD" + "HH:MM:SS".
    let s = format!("{}T{}Z", date, time);
    let dt = chrono::DateTime::parse_from_rfc3339(&s).unwrap();
    dt.timestamp() * 1_000_000
}

/// Put `n` samples of one series into the buffer.
fn fill(b: &mut Buffer, n: usize) {
    let mut left = n;
    while left > 0 {
        let take = left.min(65_536);
        let batch = (0..take).map(|i| sample(1, "", &[], i as i64, 1.0)).collect();
        b.insert_batch(1, batch);
        left -= take;
    }
}

/// The date of a day counted from 1970-01-01.
fn date_text(day: i32) -> String {
    let epoch = NaiveDate::from_ymd_opt(1970, 1, 1).unwrap();
    (epoch + chrono::Duration::days(day as i64)).to_string()
}

#[test]
fn new_buffer_is_empty() {
    let b = Buffer::new();
    assert!(b.is_empty());
    assert_eq!(b.sample_count(), 0);
    assert_eq!(b.bytes_estimate(), 0);
    assert_eq!(b.max_record_seq(), 0);
}

#[test]
fn insert_one_sample() {
    let mut b = Buffer::new();
    let s = sample(1, "m", &[], ts("2026-05-04", "12:00:00"), 1.0);
    b.insert_batch(7, vec![s]);
    assert_eq!(b.sample_count(), 1);
    assert_eq!(b.max_record_seq(), 7);
    assert_eq!(b.bytes_estimate(), BYTES_PER_SAMPLE);
    assert!(!b.is_empty());
}

#[test]
fn samples_partition_by_day() {
    let mut b = Buffer::new();
    b.insert_batch(1, vec![
        sample(1, "m", &[], ts("2026-05-03", "23:30:00"), 1.0),
        sample(1, "m", &[], ts("2026-05-04", "00:30:00"), 2.0),
        sample(1, "m", &[], ts("2026-05-05", "12:00:00"), 3.0),
    ]);
    let snap = b.take();
    assert_eq!(snap.by_day.len(), 3);
    let dates: Vec<_> = snap.by_day.keys().map(|d| date_text(*d)).collect();
    assert_eq!(dates, vec!["2026-05-03", "2026-05-04", "2026-05-05"]);
}

#[test]
fn samples_for_same_series_grouped() {
    let mut b = Buffer::new();
    b.insert_batch(1, vec![
        sample(42, "m", &[], ts("2026-05-04", "12:00:00"), 1.0),
        sample(42, "m", &[], ts("2026-05-04", "12:00:30"), 2.0),
        sample(99, "m", &[], ts("2026-05-04", "12:00:00"), 9.0),
    ]);
    let snap = b.take();
    let day_map = snap.by_day.values().next().unwrap();
    assert_eq!(day_map.len(), 2); // two series ids
    assert_eq!(day_map[&42].len(), 2);
    assert_eq!(day_map[&99].len(), 1);
}

#[test]
fn first_seen_series_goes_into_new_series() {
    let mut b = Buffer::new();
    b.insert_batch(1, vec![
        sample(42, "metric_a", &[("job", "api")], ts("2026-05-04", "12:00:00"), 1.0),
    ]);
    let snap = b.take();
    assert_eq!(snap.new_series.len(), 1);
    let entry = &snap.new_series[&42];
    assert_eq!(entry.series_id, 42);
    assert_eq!(entry.metric, "metric_a");
    assert_eq!(entry.labels.get("job").map(String::as_str), Some("api"));
}

#[test]
fn known_series_skip_new_series() {
    // Seed buffer with id 42 already on disk.
    let mut b = Buffer::with_known_series(&vec![42]);
    b.insert_batch(1, vec![
        sample(42, "metric_a", &[("job", "api")], ts("2026-05-04", "12:00:00"), 1.0),
        sample(99, "metric_b", &[], ts("2026-05-04", "12:00:00"), 1.0),
    ]);
    let snap = b.take();
    // 42 was seeded → not in new_series. 99 is fresh → present.
    assert!(!snap.new_series.contains_key(&42));
    assert!(snap.new_series.contains_key(&99));
    assert_eq!(snap.new_series.len(), 1);
}

#[test]
fn duplicate_first_sight_within_batch_emits_once() {
    let mut b = Buffer::new();
    b.insert_batch(1, vec![
        sample(7, "m", &[("k", "v")], ts("2026-05-04", "12:00:00"), 1.0),
        sample(7, "m", &[("k", "v")], ts("2026-05-04", "12:00:30"), 2.0),
        sample(7, "m", &[("k", "v")], ts("2026-05-04", "12:01:00"), 3.0),
    ]);
    let snap = b.take();
    assert_eq!(snap.new_series.len(), 1);
    assert_eq!(snap.by_day.values().next().unwrap()[&7].len(), 3);
}

#[test]
fn after_take_known_series_includes_previously_new() {
    let mut b = Buffer::new();
    b.insert_batch(1, vec![
        sample(7, "m", &[], ts("2026-05-04", "12:00:00"), 1.0),
    ]);
    let snap1 = b.take();
    assert!(snap1.new_series.contains_key(&7));

    // Insert id 7 again — should NOT be in new_series this time.
    b.insert_batch(2, vec![
        sample(7, "m", &[], ts("2026-05-04", "12:00:30"), 2.0),
    ]);
    let snap2 = b.take();
    assert!(snap2.new_series.is_empty());
    assert_eq!(snap2.by_day.values().next().unwrap()[&7].len(), 1);
}

#[test]
fn take_resets_counters() {
    let mut b = Buffer::new();
    b.insert_batch(5, vec![
        sample(1, "m", &[], ts("2026-05-04", "12:00:00"), 1.0),
    ]);
    let _ = b.take();
    assert!(b.is_empty());
    assert_eq!(b.sample_count(), 0);
    assert_eq!(b.bytes_estimate(), 0);
    assert_eq!(b.max_record_seq(), 0);
}

#[test]
fn max_record_seq_tracks_highest_in_window() {
    let mut b = Buffer::new();
    b.insert_batch(3, vec![sample(1, "m", &[], ts("2026-05-04", "12:00:00"), 1.0)]);
    b.insert_batch(7, vec![sample(1, "m", &[], ts("2026-05-04", "12:00:30"), 2.0)]);
    b.insert_batch(5, vec![sample(1, "m", &[], ts("2026-05-04", "12:01:00"), 3.0)]); // out-of-order seq
    assert_eq!(b.max_record_seq(), 7);
}

#[test]
fn bytes_estimate_scales_with_count() {
    let mut b = Buffer::new();
    for i in 0..100 {
        b.insert_batch(1, vec![sample(1, "m", &[], ts("2026-05-04", "12:00:00") + i, 1.0)]);
    }
    assert_eq!(b.sample_count(), 100);
    assert_eq!(b.bytes_estimate(), 100 * BYTES_PER_SAMPLE);
}

#[test]
fn empty_take_is_safe() {
    let mut b = Buffer::new();
    let snap = b.take();
    assert!(snap.by_day.is_empty());
    assert!(snap.new_series.is_empty());
    assert_eq!(snap.sample_count, 0);
    assert_eq!(snap.max_record_seq, 0);
}

#[test]
fn day_boundary_at_utc_midnight() {
    let mut b = Buffer::new();
    // 23:59:59 May 3 → day "2026-05-03"
    // 00:00:00 May 4 → day "2026-05-04"
    b.insert_batch(1, vec![
        sample(1, "m", &[], ts("2026-05-03", "23:59:59"), 1.0),
        sample(1, "m", &[], ts("2026-05-04", "00:00:00"), 2.0),
    ]);
    let snap = b.take();
    let dates: Vec<_> = snap.by_day.keys().map(|d| date_text(*d)).collect();
    assert_eq!(dates, vec!["2026-05-03", "2026-05-04"]);
}

#[test]
fn days_before_the_epoch_are_rounded_down() {
    let mut b = Buffer::new();
    b.insert_batch(1, vec![sample(1, "m", &[], -1, 1.0)]);
    let snap = b.take();
    let days: Vec<i32> = snap.by_day.keys().copied().collect();
    assert_eq!(days, vec![-1]);
}

#[test]
fn flush_writes_what_the_snapshot_holds() {
    let mut b = Buffer::with_known_series(&vec![1]);
    b.insert_batch(4, vec![
        sample(2, "up", &[("job", "api")], 30, 0.5),
        sample(1, "up", &[], 20, 2.0),
        sample(2, "up", &[("job", "api")], 10, 1.5),
    ]);
    let snap = b.take();
    let plan = plan_flush(&snap);
    assert!(plan.samples);
    assert!(plan.series);
    let rows = build_samples_batch(&snap.by_day[&0]);
    assert_eq!(rows.series_ids, vec![1, 2, 2]);
    assert_eq!(rows.timestamps, vec![20, 10, 30]);
    let values: Vec<f64> = rows.values.iter().map(|v| f64::from_bits(*v)).collect();
    assert_eq!(values, vec![2.0, 1.5, 0.5]);
    let series = build_series_batch(&snap.new_series);
    assert_eq!(series.len(), 1);
    assert_eq!(series[0].1.series_id, 2);
    assert_eq!(series[0].1.metric, "up");
    let done = flush_result(&snap, 1);
    assert_eq!(
        (done.samples_files, done.samples_rows, done.series_rows, done.max_record_seq),
        (1, 3, 1, 4)
    );
}

#[test]
fn empty_snapshot_does_nothing() {
    let snap = Buffer::new().take();
    let plan = plan_flush(&snap);
    assert!(!plan.samples);
    assert!(!plan.series);
    let res = flush_result(&snap, 0);
    assert_eq!(res.samples_files, 0);
    assert_eq!(res.samples_rows, 0);
    assert_eq!(res.series_rows, 0);
}

#[test]
fn multi_day_snapshot_writes_one_file_per_day() {
    let mut b = Buffer::new();
    let day_a_ms = 1_714_800_000_000_i64;
    let day_b_ms = day_a_ms + 86_400_000;
    b.insert_batch(1, vec![
        sample(7, "m", &[("a", "1")], day_a_ms * 1_000, 10.0),
        sample(7, "m", &[("a", "1")], day_b_ms * 1_000, 20.0),
    ]);
    let snap = b.take();
    let plan = plan_flush(&snap);
    assert!(plan.samples);
    assert!(plan.series);
    let files: Vec<_> = snap.by_day.values().map(build_samples_batch).collect();
    assert_eq!(files.len(), 2, "one file per day expected");
    assert_eq!(files[0].timestamps, vec![day_a_ms * 1_000]);
    assert_eq!(files[1].timestamps, vec![day_b_ms * 1_000]);
    assert_eq!(f64::from_bits(files[1].values[0]), 20.0);
    let res = flush_result(&snap, files.len());
    assert_eq!(res.samples_files, 2);
    assert_eq!(res.samples_rows, 2);
    // One (metric, labels) is one series.
    assert_eq!(res.series_rows, 1);
}

#[test]
fn samples_only_no_new_series_is_valid() {
    let mut b = Buffer::new();
    let s = sample(7, "m", &[("k", "v")], 1_714_800_000_000_000, 1.0);
    let series_id = s.series_id;
    b.insert_batch(1, vec![s]);
    let snap = b.take();
    assert!(plan_flush(&snap).series);
    assert_eq!(flush_result(&snap, 1).series_rows, 1);

    let mut b2 = Buffer::with_known_series(&vec![series_id]);
    b2.insert_batch(2, vec![sample(7, "m", &[("k", "v")], 1_714_800_010_000_000, 2.0)]);
    let snap = b2.take();
    assert_eq!(snap.new_series.len(), 0, "no new series this time");
    let plan = plan_flush(&snap);
    assert!(plan.samples);
    assert!(!plan.series);
    let res = flush_result(&snap, 1);
    assert_eq!(res.samples_rows, 1);
    assert_eq!(res.series_rows, 0);
}

#[test]
fn samples_are_handed_out_once_over_a_buffers_life() {
    let mut b = Buffer::with_known_series(&vec![9]);
    let mut snaps = Vec::new();
    b.insert_batch(1, vec![sample(1, "a", &[], 10, 1.0), sample(9, "z", &[], 10, 9.0)]);
    b.insert_batch(2, vec![sample(2, "b", &[], 86_400_000_000, 2.0)]);
    snaps.push(b.take());
    snaps.push(b.take());
    b.insert_batch(3, vec![sample(1, "a", &[], 10, 3.0), sample(3, "c", &[], 30, 4.0)]);
    snaps.push(b.take());
    b.insert_batch(4, vec![sample(4, "d", &[], 40, 5.0)]);

    // Each series in the snapshot after it was first seen, and the known one in none.
    let new: Vec<Vec<i64>> =
        snaps.iter().map(|s| s.new_series.keys().copied().collect()).collect();
    assert_eq!(new, vec![vec![1, 2], vec![], vec![3]]);
    // What came after the last snapshot is in none of them.
    let mut points: Vec<(i32, i64, i64, f64)> = Vec::new();
    for s in &snaps {
        let mut count = 0;
        for (day, by_series) in &s.by_day {
            for (id, list) in by_series {
                count += list.len();
                points.extend(list.iter().map(|p| (*day, *id, p.0, f64::from_bits(p.1))));
            }
        }
        assert_eq!(s.sample_count, count);
        assert_eq!(s.bytes_estimate, 32 * count);
    }
    assert_eq!(
        points,
        vec![
            (0, 1, 10, 1.0),
            (0, 9, 10, 9.0),
            (1, 2, 86_400_000_000, 2.0),
            (0, 1, 10, 3.0),
            (0, 3, 30, 4.0),
        ]
    );
}

#[test]
fn field_ids_are_named_for_parquet() {
    assert_eq!(
        field_id_metadata(4),
        ("PARQUET:field_id".to_string(), "4".to_string())
    );
}

#[test]
fn backpressure_starts_at_the_limit() {
    let mut b = Buffer::new();
    assert!(check_backpressure(&b).is_ok());
    let n = BACKPRESSURE_BYTES / BYTES_PER_SAMPLE;
    fill(&mut b, n - 1);
    assert!(check_backpressure(&b).is_ok());
    b.insert_batch(2, vec![sample(1, "", &[], 0, 1.0)]);
    assert_eq!(
        check_backpressure(&b).unwrap_err(),
        "buffer at 268435456 bytes (cap 268435456); flusher behind, retry shortly"
    );
}

#[test]
fn flush_is_due_at_the_size() {
    let mut b = Buffer::new();
    let n = FLUSH_SIZE_BYTES / BYTES_PER_SAMPLE;
    fill(&mut b, n - 2);
    assert!(!insert_logged(&mut b, 1, vec![sample(1, "", &[], 0, 1.0)]));
    assert!(insert_logged(&mut b, 2, vec![sample(1, "", &[], 0, 1.0)]));
    assert_eq!(b.sample_count(), n);
}

#[test]
fn nothing_is_taken_from_an_empty_buffer() {
    let mut b = Buffer::new();
    assert!(take_for_flush(&mut b).is_none());
    b.insert_batch(9, vec![sample(1, "m", &[], 0, 1.0)]);
    let snap = take_for_flush(&mut b).unwrap();
    assert_eq!(snap.max_record_seq, 9);
    assert_eq!(snap.sample_count, 1);
    assert!(take_for_flush(&mut b).is_none());
}

#[test]
fn log_is_truncated_once_a_record_was_flushed() {
    assert_eq!(truncation_point(0), None);
    assert_eq!(truncation_point(9), Some(9));
}

#[test]
fn replay_skips_unreadable_records_and_ends_at_the_first_corruption() {
    let mut b = Buffer::new();
    let n = replay_wal(&mut b, vec![
        Replayed::Samples(1, vec![sample(1, "m", &[], 0, 1.0)]),
        Replayed::Unreadable(2),
        Replayed::Samples(3, vec![sample(1, "m", &[], 1, 1.0), sample(2, "m", &[], 1, 1.0)]),
        Replayed::Stopped,
        Replayed::Samples(5, vec![sample(1, "m", &[], 2, 1.0)]),
    ]);
    assert_eq!(n, 2);
    assert_eq!(b.sample_count(), 3);
    assert_eq!(b.max_record_seq(), 3);
}
