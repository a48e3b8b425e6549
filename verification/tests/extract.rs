use rust_log_analyzer::extractor::{extract_one, MAX_EXCERPT_LINES};
use rust_log_analyzer::index::LineIndex;
use rust_log_analyzer::scorer::{score, MAX_SCORE};
use rust_log_analyzer::store::{decode_index, encode_index};

#[test]
fn score_ranks_rare_lines_above_common_ones() {
    assert_eq!(score(0, 20), MAX_SCORE);
    assert_eq!(score(5, 0), MAX_SCORE);
    assert_eq!(score(20, 20), 0);
    assert_eq!(score(2, 20), 48); // floor(log2(10)) = 3 bits
    assert_eq!(score(1, 20), 64); // floor(log2(20)) = 4 bits
    assert!(score(1, 1_000_000_000_000) > score(1, 4));
    assert_eq!(score(1, u64::MAX), MAX_SCORE);
}

#[test]
fn empty_log_yields_no_anomaly() {
    let mut ix = LineIndex::new();
    ix.learn_log(b"a\n", 1);
    assert!(extract_one(&ix, b"").is_none());
}

#[test]
fn uniformly_routine_log_yields_no_anomaly() {
    // Learn several copies of an identical single-line log, then extract
    // against that same line repeated 50 times.
    let mut ix = LineIndex::new();
    for _ in 0..8 {
        ix.learn_log(b"everything is fine\n", 1);
    }
    let mut target = Vec::new();
    for _ in 0..50 {
        target.extend_from_slice(b"everything is fine\n");
    }
    assert!(extract_one(&ix, &target).is_none());
}

#[test]
fn unique_error_line_is_extracted_exactly() {
    // Two learned logs share nine lines; each has one unique line. The
    // unique line of the target log is the whole excerpt.
    let shared: Vec<&[u8]> = vec![
        b"checkout sources",
        b"configure toolchain",
        b"compile crate one",
        b"compile crate two",
        b"link binaries",
        b"run unit suite",
        b"run doc suite",
        b"upload artifacts",
        b"publish metrics",
    ];
    let mut build_a = Vec::new();
    let mut build_b = Vec::new();
    for (k, line) in shared.iter().enumerate() {
        if k == 4 {
            build_a.extend_from_slice(b"ERROR in A\n");
            build_b.extend_from_slice(b"ERROR in B\n");
        }
        build_a.extend_from_slice(line);
        build_a.push(b'\n');
        build_b.extend_from_slice(line);
        build_b.push(b'\n');
    }
    let mut ix = LineIndex::new();
    ix.learn_logs(&vec![build_a.clone(), build_b.clone()], 1);
    assert_eq!(ix.total_weight(), 20);

    let excerpt = extract_one(&ix, &build_a).expect("an anomaly");
    assert_eq!(excerpt.lines, vec![b"ERROR in A".to_vec()]);
    assert_eq!(excerpt.end - excerpt.start, 1);
    assert_eq!(excerpt.start, 4);
}

#[test]
fn extraction_is_deterministic() {
    let mut ix = LineIndex::new();
    ix.learn_logs(&vec![b"a\nb\nc\n".to_vec(), b"a\nb\nd\n".to_vec()], 2);
    let target = b"a\nb\nweird failure here\nc\n";
    let first = extract_one(&ix, target).expect("an anomaly");
    let second = extract_one(&ix, target).expect("an anomaly");
    assert_eq!(first.start, second.start);
    assert_eq!(first.end, second.end);
    assert_eq!(first.lines, second.lines);
    // The same holds through a store round-trip of the index.
    let reloaded = decode_index(&encode_index(&ix)).expect("decode");
    let third = extract_one(&reloaded, target).expect("an anomaly");
    assert_eq!(first.start, third.start);
    assert_eq!(first.lines, third.lines);
}

#[test]
fn excerpt_preserves_original_formatting() {
    let mut ix = LineIndex::new();
    ix.learn_logs(&vec![b"routine step\n".to_vec(); 4], 1);
    let target = b"routine step\n  RAW \x1b[31mERROR\x1b[0m 0xdeadbeef  \nroutine step\n";
    let excerpt = extract_one(&ix, target).expect("an anomaly");
    // Original bytes, not the normalized signature.
    assert_eq!(excerpt.lines, vec![b"  RAW \x1b[31mERROR\x1b[0m 0xdeadbeef  ".to_vec()]);
}

#[test]
fn long_anomalies_are_clamped_to_the_window_limit() {
    let mut ix = LineIndex::new();
    ix.learn_logs(&vec![b"ordinary line\n".to_vec(); 4], 1);
    let mut target = Vec::new();
    for k in 0..100u32 {
        target.extend_from_slice(format!("unseen failure line variant {k:x} q\n").as_bytes());
    }
    let excerpt = extract_one(&ix, &target).expect("an anomaly");
    assert_eq!(excerpt.end - excerpt.start, MAX_EXCERPT_LINES);
    assert_eq!(excerpt.lines.len(), MAX_EXCERPT_LINES);
}

#[test]
fn never_seen_log_is_flagged_whole_when_short() {
    let mut ix = LineIndex::new();
    ix.learn_log(b"base\n", 1);
    let excerpt = extract_one(&ix, b"boom\ncrash\n").expect("an anomaly");
    assert_eq!(excerpt.start, 0);
    assert_eq!(excerpt.end, 2);
    assert_eq!(excerpt.lines, vec![b"boom".to_vec(), b"crash".to_vec()]);
}
