use rust_log_analyzer::index::LineIndex;
use rust_log_analyzer::store::{decode_index, encode_index};
use rust_log_analyzer::tokenizer::{
    collapse_ws, mask_volatile, signature_of_line, signatures_of_log, split_log_lines,
    strip_controls,
};
use rust_log_analyzer::StoreError;

#[test]
fn strip_removes_ansi_and_controls() {
    assert_eq!(strip_controls(b"\x1b[31mred\x1b[0m done"), b"red done".to_vec());
    assert_eq!(strip_controls(b"a\tb\rc\x07d"), b"a bcd".to_vec());
}

#[test]
fn mask_replaces_volatile_tokens() {
    assert_eq!(mask_volatile(b"hash deadbeef99 here"), b"hash #H here".to_vec());
    assert_eq!(mask_volatile(b"id 12345 ok"), b"id #N ok".to_vec());
    assert_eq!(mask_volatile(b"in /tmp/build.x91/f out"), b"in #P out".to_vec());
    assert_eq!(mask_volatile(b"at 2023-01-01T00:00:00Z end"), b"at #T end".to_vec());
    assert_eq!(mask_volatile(b"took 01:02:03 total"), b"took #T total".to_vec());
    // Short runs stay as they are.
    assert_eq!(mask_volatile(b"ab12 x9"), b"ab12 x9".to_vec());
}

#[test]
fn collapse_trims_and_merges_spaces() {
    assert_eq!(collapse_ws(b"  a   b  "), b"a b".to_vec());
    assert_eq!(collapse_ws(b"   "), b"".to_vec());
}

#[test]
fn timestamped_lines_share_a_signature() {
    let a = signature_of_line(b"[2023-01-01T00:00:00Z] build ok");
    let b = signature_of_line(b"[2023-06-06T06:06:06Z] build ok");
    assert_eq!(a, b);
    let c = signature_of_line(b"[2023-06-06T06:06:06Z] build failed");
    assert_ne!(a, c);
}

#[test]
fn split_keeps_records_in_order() {
    let lines = split_log_lines(b"one\ntwo\nthree");
    assert_eq!(lines, vec![b"one".to_vec(), b"two".to_vec(), b"three".to_vec()]);
    let lines2 = split_log_lines(b"one\ntwo\n");
    assert_eq!(lines2, vec![b"one".to_vec(), b"two".to_vec()]);
    let lines3 = split_log_lines(b"");
    assert!(lines3.is_empty());
}

#[test]
fn signatures_of_log_normalizes_each_line() {
    let sigs = signatures_of_log(b"  a  b\nhash deadbeef99\n");
    assert_eq!(sigs, vec![b"a b".to_vec(), b"hash #H".to_vec()]);
}

#[test]
fn observe_accumulates_and_counts_total() {
    let mut ix = LineIndex::new();
    assert_eq!(ix.total_weight(), 0);
    ix.observe(b"alpha", 2);
    ix.observe(b"beta", 1);
    ix.observe(b"alpha", 3);
    assert_eq!(ix.weight(b"alpha"), 5);
    assert_eq!(ix.weight(b"beta"), 1);
    assert_eq!(ix.weight(b"gamma"), 0);
    assert_eq!(ix.total_weight(), 6);
    assert_eq!(ix.len(), 2);
}

#[test]
fn observe_zero_weight_is_a_noop() {
    let mut ix = LineIndex::new();
    ix.observe(b"alpha", 0);
    assert_eq!(ix.weight(b"alpha"), 0);
    assert_eq!(ix.total_weight(), 0);
    assert_eq!(ix.len(), 0);
}

#[test]
fn learn_log_applies_the_multiplier_per_occurrence() {
    let mut ix = LineIndex::new();
    ix.learn_log(b"same\nsame\nother\n", 3);
    assert_eq!(ix.weight(b"same"), 6);
    assert_eq!(ix.weight(b"other"), 3);
    assert_eq!(ix.total_weight(), 9);
}

#[test]
fn learn_never_decreases_any_weight() {
    let mut ix = LineIndex::new();
    ix.learn_log(b"a\nb\n", 1);
    let wa = ix.weight(b"a");
    let wb = ix.weight(b"b");
    ix.learn_logs(&vec![b"a\nc\n".to_vec(), b"c\n".to_vec()], 2);
    assert!(ix.weight(b"a") >= wa);
    assert!(ix.weight(b"b") >= wb);
    assert_eq!(ix.weight(b"a"), wa + 2);
    assert_eq!(ix.weight(b"c"), 4);
}

#[test]
fn empty_corpus_learns_nothing() {
    let mut ix = LineIndex::new();
    ix.learn_logs(&vec![], 5);
    assert_eq!(ix.total_weight(), 0);
}

#[test]
fn store_round_trips_every_weight() {
    let mut ix = LineIndex::new();
    ix.observe(b"slow line", 7);
    ix.observe(b"fast line", 1);
    ix.observe(b"", 2);
    let bytes = encode_index(&ix);
    let back = decode_index(&bytes).expect("decode");
    assert_eq!(back.weight(b"slow line"), 7);
    assert_eq!(back.weight(b"fast line"), 1);
    assert_eq!(back.weight(b""), 2);
    assert_eq!(back.total_weight(), 10);
    assert_eq!(back.len(), 3);
    // Saving the reloaded index reproduces the bytes.
    let bytes2 = encode_index(&back);
    assert_eq!(bytes, bytes2);
}

#[test]
fn reloading_twice_gives_identical_indexes() {
    let mut ix = LineIndex::new();
    ix.learn_log(b"x\ny\ny\n", 4);
    let bytes = encode_index(&ix);
    let first = decode_index(&bytes).expect("decode");
    let second = decode_index(&bytes).expect("decode");
    assert_eq!(encode_index(&first), encode_index(&second));
    assert_eq!(first.weight(b"y"), second.weight(b"y"));
}

#[test]
fn decode_distinguishes_version_from_corruption() {
    // Too short, wrong magic, and a broken record are all corrupt.
    assert!(matches!(decode_index(b"RLI"), Err(StoreError::Corrupt)));
    assert!(matches!(decode_index(b"XXXX\x01"), Err(StoreError::Corrupt)));
    let mut truncated = encode_index(&{
        let mut ix = LineIndex::new();
        ix.observe(b"abc", 1);
        ix
    });
    truncated.pop();
    assert!(matches!(decode_index(&truncated), Err(StoreError::Corrupt)));
    // A good magic with an unknown version is a version mismatch.
    assert!(matches!(
        decode_index(b"RLIX\x63"),
        Err(StoreError::UnsupportedVersion)
    ));
}

#[test]
fn empty_index_encodes_to_header_only() {
    let ix = LineIndex::new();
    let bytes = encode_index(&ix);
    assert_eq!(bytes, b"RLIX\x01".to_vec());
    let back = decode_index(&bytes).expect("decode");
    assert_eq!(back.len(), 0);
    assert_eq!(back.total_weight(), 0);
}
