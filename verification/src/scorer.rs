//! Per-line anomaly scores.
//!
//! The score of a line is a fixed-point base-2 variant of the negative log
//! of its frequency: `SCORE_SCALE * min(MAX_BITS, floor(log2(total/count)))`,
//! with never-seen lines (and an empty index) pinned to the maximum score
//! `SCORE_SCALE * MAX_BITS`, the value the formula would give a frequency at
//! the floor of one part in `2^MAX_BITS`. Ubiquitous lines (frequency near 1)
//! score 0; rare lines score high; all scores are integers, so extraction
//! arithmetic stays exact.

use vstd::prelude::*;
use crate::index::{LineIndex, sum_weights, weight_of};
use crate::tokenizer;

verus! {

/// Fixed-point scale: one bit of log2 is worth this many score units.
pub const SCORE_SCALE: u64 = 16;

/// Cap on the log2 magnitude, standing in for a frequency floor of 2^-30.
pub const MAX_BITS: u64 = 30;

/// The largest score any line can get: `SCORE_SCALE * MAX_BITS`.
pub const MAX_SCORE: u64 = 480;

/// Floor of the base-2 logarithm (0 for inputs below 2).
pub open spec fn ilog2(q: nat) -> nat
    decreases q,
{
    if q < 2 {
        0
    } else {
        1 + ilog2(q / 2)
    }
}

/// The anomaly score of a line seen `count` times out of `total` total
/// observations.
pub open spec fn score_of(count: u64, total: u64) -> u64 {
    if count == 0 || total == 0 {
        MAX_SCORE
    } else {
        let q = (total as nat) / (count as nat);
        if ilog2(q) >= MAX_BITS {
            MAX_SCORE
        } else {
            (SCORE_SCALE * ilog2(q) as u64) as u64
        }
    }
}

/// The scores of a tokenized target log, one per line signature.
pub open spec fn score_seq(v: Seq<(Seq<u8>, u64)>, sigs: Seq<Seq<u8>>) -> Seq<u64> {
    sigs.map_values(|s: Seq<u8>| score_of(weight_of(v, s), sum_weights(v) as u64))
}

/// Computes the anomaly score from a count and the total weight.
pub fn score(count: u64, total: u64) -> (r: u64)
    ensures
        r == score_of(count, total),
        r <= MAX_SCORE,
{
    if count == 0 || total == 0 {
        return MAX_SCORE;
    }
    let q = total / count;
    let mut k: u64 = 0;
    let mut v: u64 = q;
    while v >= 2 && k < MAX_BITS
        invariant
            ilog2(q as nat) == k + ilog2(v as nat),
            k <= MAX_BITS,
        decreases v,
    {
        v = v / 2;
        k = k + 1;
    }
    if v >= 2 {
        MAX_SCORE
    } else {
        SCORE_SCALE * k
    }
}

/// Scores every signature of a tokenized target log against the index.
pub fn score_lines(index: &LineIndex, sigs: &Vec<Vec<u8>>) -> (r: Vec<u64>)
    requires
        index.wf(),
    ensures
        r@ == score_seq(index@, sigs@.map_values(|l: Vec<u8>| l@)),
        forall|i: int| 0 <= i < r@.len() ==> #[trigger] r@[i] <= MAX_SCORE,
{
    let ghost lines = sigs@.map_values(|l: Vec<u8>| l@);
    let total = index.total_weight();
    let n = sigs.len();
    let mut out: Vec<u64> = Vec::new();
    let mut i: usize = 0;
    while i < n
        invariant
            index.wf(),
            n == sigs@.len(),
            0 <= i <= n,
            lines == sigs@.map_values(|l: Vec<u8>| l@),
            total as int == sum_weights(index@),
            out@ =~= score_seq(index@, lines).take(i as int),
            forall|j: int| 0 <= j < out@.len() ==> #[trigger] out@[j] <= MAX_SCORE,
        decreases n - i,
    {
        let w = index.weight(sigs[i].as_slice());
        let s = score(w, total);
        out.push(s);
        proof {
            assert(lines[i as int] == sigs@[i as int]@);
            assert(out@ =~= score_seq(index@, lines).take(i + 1));
        }
        i += 1;
    }
    proof {
        assert(score_seq(index@, lines).take(n as int) =~= score_seq(index@, lines));
    }
    out
}

} // verus!
