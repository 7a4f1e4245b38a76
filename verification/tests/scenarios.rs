// End-to-end behavior of the aggregation engine on whole inputs.

use rowstats::agg::Aggregate;
use rowstats::engine::run;
use rowstats::stats::CityInfo;

fn info<'a>(a: &'a Aggregate, key: &[u8]) -> &'a CityInfo {
    a.get(key).expect("key missing from aggregate")
}

fn mean_of(c: &CityInfo) -> f64 {
    (c.sum as f64) / (c.count as f64 * 10.0)
}

fn assert_same_keys(a: &Aggregate, b: &Aggregate, keys: &[&[u8]]) {
    assert_eq!(a.len(), keys.len());
    assert_eq!(b.len(), keys.len());
    for key in keys {
        let x = info(a, key);
        let y = info(b, key);
        assert_eq!(x.min, y.min);
        assert_eq!(x.max, y.max);
        assert_eq!(x.sum, y.sum);
        assert_eq!(x.count, y.count);
    }
}

#[test]
fn scenario_three_records() {
    let input = b"Paris;12.3\nParis;15.0\nLondon;-1.0";
    let agg = run(input, 1_000_000).expect("valid input");
    assert_eq!(agg.len(), 2);
    let paris = info(&agg, b"Paris");
    assert_eq!(paris.min, 123);
    assert_eq!(paris.max, 150);
    assert_eq!(paris.sum, 273);
    assert_eq!(paris.count, 2);
    assert_eq!(mean_of(paris), 13.65);
    let london = info(&agg, b"London");
    assert_eq!(london.min, -10);
    assert_eq!(london.max, -10);
    assert_eq!(london.sum, -10);
    assert_eq!(london.count, 1);
    assert_eq!(mean_of(london), -1.0);
}

#[test]
fn scenario_empty_input() {
    let agg = run(b"", 16).expect("empty input is valid");
    assert_eq!(agg.len(), 0);
}

#[test]
fn scenario_single_line_no_trailing_newline() {
    let agg = run(b"Oslo;3.0", 1_000_000).expect("valid input");
    assert_eq!(agg.len(), 1);
    let oslo = info(&agg, b"Oslo");
    assert_eq!(oslo.min, 30);
    assert_eq!(oslo.max, 30);
    assert_eq!(oslo.sum, 30);
    assert_eq!(oslo.count, 1);
    assert_eq!(mean_of(oslo), 3.0);
}

#[test]
fn scenario_boundary_on_last_byte() {
    // Tentative chunk end falls exactly on the last byte of the region: the
    // final line must still be included, with and without a trailing newline.
    let bare = b"AB;1.0\nC;2.0";
    let agg = run(bare, bare.len() - 1).expect("valid input");
    assert_eq!(agg.len(), 2);
    assert_eq!(info(&agg, b"C").sum, 20);
    assert_eq!(info(&agg, b"C").count, 1);

    let ended = b"AB;1.0\nC;2.0\n";
    let agg2 = run(ended, ended.len() - 1).expect("valid input");
    assert_same_keys(&agg, &agg2, &[b"AB", b"C"]);
}

#[test]
fn chunk_size_does_not_change_result() {
    let input = b"a;1.0\nbb;2.5\na;-3.0\nccc;0.0\nbb;2.5\na;10.1\n";
    let reference = run(input, 1_000_000).expect("valid input");
    let mut size = 1;
    while size <= input.len() + 2 {
        let again = run(input, size).expect("valid input");
        assert_same_keys(&reference, &again, &[b"a", b"bb", b"ccc"]);
        size += 1;
    }
}

#[test]
fn rerun_is_idempotent() {
    let input = b"x;5.5\ny;-5.5\nx;0.1";
    let first = run(input, 4).expect("valid input");
    let second = run(input, 4).expect("valid input");
    assert_same_keys(&first, &second, &[b"x", b"y"]);
}

#[test]
fn coverage_keys_match_input() {
    let input = b"alpha;1.0\nbeta;2.0\ngamma;3.0\nbeta;4.0";
    let agg = run(input, 7).expect("valid input");
    assert_eq!(agg.len(), 3);
    assert!(agg.get(b"alpha").is_some());
    assert!(agg.get(b"beta").is_some());
    assert!(agg.get(b"gamma").is_some());
    assert!(agg.get(b"delta").is_none());
    assert!(agg.get(b"alph").is_none());
}

#[test]
fn bounds_hold_per_key() {
    let input = b"k;5.0\nk;-2.5\nk;3.5\nk;0.0";
    let agg = run(input, 6).expect("valid input");
    let k = info(&agg, b"k");
    assert_eq!(k.min, -25);
    assert_eq!(k.max, 50);
    assert_eq!(k.sum, 60);
    assert_eq!(k.count, 4);
    // min <= mean <= max, stated exactly over the carried sum.
    assert!((k.min as i128) * (k.count as i128) <= k.sum);
    assert!(k.sum <= (k.max as i128) * (k.count as i128));
    assert_eq!(mean_of(k), 1.5);
}

#[test]
fn malformed_line_fails_whole_run() {
    assert!(run(b"Paris", 64).is_err());
    assert!(run(b"a;1.0\nParis\nb;2.0", 64).is_err());
    assert!(run(b"x;", 64).is_err());
    assert!(run(b"x;abc", 64).is_err());
    assert!(run(b"x;1.0.0", 64).is_err());
    assert!(run(b"x;1.23", 64).is_err());
    assert!(run(b"\na;1.0", 64).is_err());
    // 18 integer digits exceed the parser's fixed-point range.
    assert!(run(b"x;123456789012345678", 64).is_err());
    // 17 digits are accepted.
    assert!(run(b"x;12345678901234567", 64).is_ok());
}
