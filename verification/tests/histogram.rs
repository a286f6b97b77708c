use std::time::Duration;

use fixlog::analysis::histogram::Histogram;
use fixlog::format::sniff;
use fixlog::index::builder::build_from_bytes;

fn build_msg(body_fields: &str) -> Vec<u8> {
    let body_len = body_fields.len();
    let head = format!("8=FIX.4.4\x019={body_len}\x01");
    let payload: Vec<u8> = head.bytes().chain(body_fields.bytes()).collect();
    let sum: u8 = payload.iter().fold(0u8, |a, b| a.wrapping_add(*b));
    let trailer = format!("10={sum:03}\x01");
    payload.into_iter().chain(trailer.bytes()).collect()
}

fn synthetic_timestamps(seconds: &[u32]) -> Vec<u8> {
    let mut out = Vec::new();
    for (i, s) in seconds.iter().enumerate() {
        out.extend(build_msg(&format!(
            "35=0\x0134={}\x0149=A\x0156=B\x0152=20260417-12:00:{s:02}\x01",
            i + 1
        )));
    }
    out
}

#[test]
fn empty_index_has_empty_bins() {
    let sample = synthetic_timestamps(&[0]);
    let fmt = sniff(&sample).expect("sniff sample");
    let empty: Vec<u8> = Vec::new();
    let index = build_from_bytes(&empty, &fmt);
    let h = Histogram::build(&index, &empty, &fmt, Duration::from_secs(1).as_nanos());
    assert!(h.bins.is_empty());
    assert_eq!(h.total(), 0);
}

#[test]
fn counts_match_input_and_cover_range() {
    let buf = synthetic_timestamps(&[0, 1, 2, 3, 4, 10]);
    let fmt = sniff(&buf).expect("sniff");
    let index = build_from_bytes(&buf, &fmt);
    let h = Histogram::build(&index, &buf, &fmt, Duration::from_secs(1).as_nanos());
    assert_eq!(h.total(), 6);
    assert_eq!(h.bucket_ns, 1_000_000_000);
    assert_eq!(h.bins.len(), 11);
    assert_eq!(h.bins[0].count, 1);
    assert_eq!(h.bins[1].count, 1);
    assert_eq!(h.bins[5].count, 0);
    assert_eq!(h.bins[10].count, 1);
}

#[test]
fn sparkline_width_and_empty() {
    let buf = synthetic_timestamps(&[0, 1, 2, 3, 4]);
    let fmt = sniff(&buf).expect("sniff");
    let index = build_from_bytes(&buf, &fmt);
    let h = Histogram::build(&index, &buf, &fmt, Duration::from_secs(1).as_nanos());
    let spark = h.render_sparkline(20);
    assert_eq!(spark.chars().count(), 20, "sparkline should match requested width in chars");
    assert_eq!(h.render_sparkline(0), "");
}

#[test]
fn peaks_returns_top_k() {
    let buf = synthetic_timestamps(&[0, 0, 0, 1, 2]);
    let fmt = sniff(&buf).expect("sniff");
    let index = build_from_bytes(&buf, &fmt);
    let h = Histogram::build(&index, &buf, &fmt, Duration::from_secs(1).as_nanos());
    let peaks = h.peaks(2);
    assert_eq!(peaks.len(), 2);
    assert_eq!(peaks[0].count, 3);
    assert!(peaks[1].count <= 1);
}

#[test]
fn bucket_clamped_to_minimum() {
    let buf = synthetic_timestamps(&[0]);
    let fmt = sniff(&buf).expect("sniff");
    let index = build_from_bytes(&buf, &fmt);
    let h = Histogram::build(&index, &buf, &fmt, Duration::from_nanos(0).as_nanos());
    assert!(h.bucket_ns >= 1);
    assert_eq!(h.total(), 1);
}

#[test]
fn every_message_binned_or_dropped() {
    let mut buf = synthetic_timestamps(&[0, 5, 9]);
    buf.extend(build_msg("35=0\x0134=9\x0149=A\x0156=B\x01"));
    buf.extend(build_msg("35=0\x0134=10\x0149=A\x0156=B\x0152=garbage\x01"));
    let fmt = sniff(&buf).expect("sniff");
    let index = build_from_bytes(&buf, &fmt);
    let h = Histogram::build(&index, &buf, &fmt, Duration::from_secs(2).as_nanos());
    assert_eq!(h.total(), 3);
    assert_eq!(h.dropped_no_time, 2);
    assert_eq!(h.total() + h.dropped_no_time as u64, index.len() as u64);
    assert_eq!(h.bins.len(), 5);
    assert_eq!(h.bins[0].end_ns - h.bins[0].start_ns, 2_000_000_000);
}
