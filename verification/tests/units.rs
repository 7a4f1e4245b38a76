// Unit-level behavior: splitter partitions, line parsing, per-key
// statistics, and the merge step over worker-local aggregates.

use rowstats::agg::Aggregate;
use rowstats::parse::parse_line;
use rowstats::splitter::SplitReader;
use rowstats::splitter::split_all;
use rowstats::stats::CityInfo;

fn check_partition(region: &[u8], chunk_size: usize) {
    let chunks = split_all(region, chunk_size);
    if region.is_empty() {
        assert_eq!(chunks.len(), 0);
        return;
    }
    // Contiguous from the first byte to the last, every boundary immediately
    // after a newline or at the region end, and the concatenation exact.
    let mut rebuilt: Vec<u8> = Vec::new();
    let mut expected_start = 0usize;
    for c in &chunks {
        assert_eq!(c.start, expected_start);
        assert!(c.start < c.end);
        assert!(c.end <= region.len());
        assert!(c.end == region.len() || region[c.end - 1] == b'\n');
        rebuilt.extend_from_slice(&region[c.start..c.end]);
        expected_start = c.end;
    }
    assert_eq!(expected_start, region.len());
    assert_eq!(rebuilt.as_slice(), region);
}

#[test]
fn splitter_partitions_exactly() {
    let region = b"aa;1.0\nbb;2.0\ncc;3.0\ndd;4.0";
    let mut size = 1;
    while size <= region.len() + 1 {
        check_partition(region, size);
        size += 1;
    }
    check_partition(b"", 8);
    check_partition(b"\n", 1);
    check_partition(b"a;1.0\n", 3);
    check_partition(b"no newline at all", 4);
}

#[test]
fn splitter_empty_region_yields_nothing() {
    let mut reader = SplitReader::new(b"", 8);
    assert!(reader.next().is_none());
    assert!(reader.next().is_none());
}

#[test]
fn splitter_chunks_are_newline_aligned() {
    let region = b"aaaa;1.0\nb;2.0\n";
    let mut reader = SplitReader::new(region, 2);
    let first = reader.next().expect("a chunk");
    assert_eq!(first.start, 0);
    assert_eq!(first.end, 9); // one past the first newline after the tentative end
    let second = reader.next().expect("a chunk");
    assert_eq!(second.start, 9);
    assert_eq!(second.end, region.len());
    assert!(reader.next().is_none());
}

#[test]
fn parse_line_accepts_the_record_shape() {
    let m = parse_line(b"Oslo;3.0").expect("valid line");
    assert_eq!(m.name.as_slice(), b"Oslo");
    assert_eq!(m.temp, 30);
    assert_eq!(parse_line(b"a;-0.5").expect("valid").temp, -5);
    assert_eq!(parse_line(b"a;+2.5").expect("valid").temp, 25);
    assert_eq!(parse_line(b"a;7").expect("valid").temp, 70);
    assert_eq!(parse_line(b"a;-12").expect("valid").temp, -120);
    assert_eq!(parse_line(b";0.0").expect("empty key is a key").name.len(), 0);
}

#[test]
fn parse_line_rejects_malformed_records() {
    assert!(parse_line(b"Paris").is_err());
    assert!(parse_line(b"").is_err());
    assert!(parse_line(b"a;").is_err());
    assert!(parse_line(b"a;-").is_err());
    assert!(parse_line(b"a;3.25").is_err());
    assert!(parse_line(b"a;12.").is_err());
    assert!(parse_line(b"a;.5").is_err());
    assert!(parse_line(b"a;1 2").is_err());
    assert!(parse_line(b"a;1.0;b").is_err());
}

#[test]
fn city_info_follows_the_online_update() {
    let mut c = CityInfo::new(30);
    assert_eq!((c.min, c.max, c.sum, c.count), (30, 30, 30, 1));
    c.add(10);
    assert_eq!((c.min, c.max, c.sum, c.count), (10, 30, 40, 2));
    c.add(-50);
    assert_eq!((c.min, c.max, c.sum, c.count), (-50, 30, -10, 3));
}

#[test]
fn join_is_the_count_weighted_merge() {
    let mut a = CityInfo::new(10);
    a.add(30);
    let b = CityInfo::new(100);
    let mean_a = (a.sum as f64) / (a.count as f64);
    let mean_b = (b.sum as f64) / (b.count as f64);
    let weighted = (mean_a * a.count as f64 + mean_b * b.count as f64)
        / ((a.count + b.count) as f64);
    let mut joined = a;
    joined.join(&b);
    assert_eq!((joined.min, joined.max, joined.sum, joined.count), (10, 100, 140, 3));
    assert_eq!((joined.sum as f64) / (joined.count as f64), weighted);
}

fn local(records: &[(&[u8], i64)]) -> Aggregate {
    let mut a = Aggregate::new_empty();
    for (key, v) in records {
        a.record(key, *v);
    }
    a
}

fn assert_agg_eq(a: &Aggregate, b: &Aggregate, keys: &[&[u8]]) {
    assert_eq!(a.len(), keys.len());
    assert_eq!(b.len(), keys.len());
    for key in keys {
        let x = a.get(key).expect("key in left aggregate");
        let y = b.get(key).expect("key in right aggregate");
        assert_eq!((x.min, x.max, x.sum, x.count), (y.min, y.max, y.sum, y.count));
    }
}

#[test]
fn merge_order_does_not_matter() {
    let keys: &[&[u8]] = &[b"a", b"b", b"c"];
    let w1 = local(&[(b"a", 10), (b"b", 20)]);
    let w2 = local(&[(b"b", 30), (b"c", -5)]);
    let w3 = local(&[(b"a", 7)]);
    let fwd = Aggregate::new(vec![w1, w2, w3]).expect("counts fit");
    let w1 = local(&[(b"a", 10), (b"b", 20)]);
    let w2 = local(&[(b"b", 30), (b"c", -5)]);
    let w3 = local(&[(b"a", 7)]);
    let rev = Aggregate::new(vec![w3, w2, w1]).expect("counts fit");
    assert_agg_eq(&fwd, &rev, keys);
    assert_eq!(fwd.get(b"b").expect("b present").sum, 50);
    assert_eq!(fwd.get(b"b").expect("b present").count, 2);
}

#[test]
fn merge_grouping_does_not_matter() {
    let keys: &[&[u8]] = &[b"a", b"b"];
    // ((l1 + l2) + l3)
    let mut left = local(&[(b"a", 1)]);
    let l2 = local(&[(b"a", 2), (b"b", 3)]);
    let l3 = local(&[(b"b", 4)]);
    assert!(left.can_merge(&l2));
    left.merge_from(&l2);
    assert!(left.can_merge(&l3));
    left.merge_from(&l3);
    // (l1 + (l2 + l3))
    let l1 = local(&[(b"a", 1)]);
    let mut right_tail = local(&[(b"a", 2), (b"b", 3)]);
    let l3 = local(&[(b"b", 4)]);
    assert!(right_tail.can_merge(&l3));
    right_tail.merge_from(&l3);
    let mut right = l1;
    assert!(right.can_merge(&right_tail));
    right.merge_from(&right_tail);
    assert_agg_eq(&left, &right, keys);
}

#[test]
fn workers_agree_with_single_pass() {
    // Split the records of one input between two workers; merging their
    // locals equals the single-pass aggregate of the whole input.
    let whole = local(&[(b"p", 123), (b"p", 150), (b"q", -10), (b"q", 0)]);
    let w1 = local(&[(b"p", 123), (b"q", -10)]);
    let w2 = local(&[(b"p", 150), (b"q", 0)]);
    let merged = Aggregate::new(vec![w1, w2]).expect("counts fit");
    assert_agg_eq(&whole, &merged, &[b"p", b"q"]);
}
