//! Picks the contiguous window of target-log lines with the highest total
//! anomaly score, charging a fixed penalty per included line so that the
//! optimizer does not degenerate into taking the whole log.
//!
//! The scan is the classic linear maximum-subarray recurrence: a running
//! best-window-ending-here value that resets when it would go negative,
//! with ties broken toward the end of the log (failures usually surface
//! there). A winning window longer than `MAX_EXCERPT_LINES` is clamped by
//! re-scanning it for its best sub-window of exactly that length.

use vstd::prelude::*;
use crate::index::{LineIndex, sum_weights};
use crate::scorer;
use crate::scorer::MAX_SCORE;
use crate::tokenizer;

verus! {

/// Per-line inclusion cost, in score units: 3.5 bits of rarity.
pub const PENALTY: u64 = 56;

/// Longest excerpt ever returned, in lines.
pub const MAX_EXCERPT_LINES: usize = 40;

/// Sum of `scores[s..e]`.
pub open spec fn sum_range(scores: Seq<u64>, s: int, e: int) -> int
    decreases e - s,
{
    if s < 0 || e > scores.len() || s >= e {
        0
    } else {
        sum_range(scores, s, e - 1) + scores[e - 1]
    }
}

/// Value of the window `[s, e)`: its score sum minus the length penalty.
pub open spec fn net(scores: Seq<u64>, s: int, e: int) -> int {
    sum_range(scores, s, e) - PENALTY * (e - s)
}

/// One step of the scan. The state is (current value, current start, best
/// value, best start, best end); `w` is the net contribution of line `i`.
pub open spec fn kadane_step(
    st: (int, int, int, int, int),
    w: int,
    i: int,
) -> (int, int, int, int, int) {
    let cur2 = st.0 + w;
    let cur = if cur2 < 0 {
        0
    } else {
        cur2
    };
    let cs = if cur2 < 0 {
        i + 1
    } else {
        st.1
    };
    if cur >= st.2 {
        (cur, cs, cur, cs, i + 1)
    } else {
        (cur, cs, st.2, st.3, st.4)
    }
}

/// The scan folded over `scores[i..]` from state `st`.
pub open spec fn kadane_rec(
    scores: Seq<u64>,
    i: int,
    st: (int, int, int, int, int),
) -> (int, int, int, int, int)
    decreases scores.len() - i,
{
    if i < 0 || i >= scores.len() {
        st
    } else {
        kadane_rec(scores, i + 1, kadane_step(st, scores[i] - PENALTY, i))
    }
}

/// Final scan state over a whole score sequence.
pub open spec fn kadane_spec(scores: Seq<u64>) -> (int, int, int, int, int) {
    kadane_rec(scores, 0, (0, 0, 0, 0, 0))
}

/// The window the extractor reports for a score sequence: `None` when no
/// window nets a positive value, otherwise the scan's best window, clamped
/// to `MAX_EXCERPT_LINES` by an inner re-scan when it runs longer.
pub open spec fn extract_window_spec(scores: Seq<u64>) -> Option<(int, int)> {
    let st = kadane_spec(scores);
    if st.2 <= 0 {
        None
    } else if st.4 - st.3 > MAX_EXCERPT_LINES {
        let s2 = slide_spec(scores, st.3, st.4, MAX_EXCERPT_LINES as int).0;
        Some((s2, s2 + MAX_EXCERPT_LINES))
    } else {
        Some((st.3, st.4))
    }
}

/// The fixed-length re-scan folded over candidate starts `j..=e-l`; the
/// state is (best start, best sum), ties again resolved toward the end.
pub open spec fn slide_rec(
    scores: Seq<u64>,
    l: int,
    j: int,
    e: int,
    st: (int, int),
) -> (int, int)
    decreases e - l - j + 1,
{
    if j > e - l {
        st
    } else {
        let s2 = sum_range(scores, j, j + l);
        let st2 = if s2 >= st.1 {
            (j, s2)
        } else {
            st
        };
        slide_rec(scores, l, j + 1, e, st2)
    }
}

/// Best start of a window of exactly `l` lines inside `[s, e)`.
pub open spec fn slide_spec(scores: Seq<u64>, s: int, e: int, l: int) -> (int, int) {
    slide_rec(scores, l, s + 1, e, (s, sum_range(scores, s, s + l)))
}

/// Peeling the first element off a window sum.
proof fn lemma_sum_range_peel_left(scores: Seq<u64>, a: int, b: int)
    requires
        0 <= a < b <= scores.len(),
    ensures
        sum_range(scores, a, b) == scores[a] + sum_range(scores, a + 1, b),
    decreases b - a,
{
    if b == a + 1 {
        assert(sum_range(scores, a, b) == sum_range(scores, a, a) + scores[a]);
        assert(sum_range(scores, a + 1, b) == 0);
    } else {
        lemma_sum_range_peel_left(scores, a, b - 1);
        assert(sum_range(scores, a, b) == sum_range(scores, a, b - 1) + scores[b - 1]);
        assert(sum_range(scores, a + 1, b) == sum_range(scores, a + 1, b - 1) + scores[b - 1]);
    }
}

/// Runs the scan, returning the best window and its net value.
fn best_window(scores: &Vec<u64>) -> (r: (usize, usize, i128))
    requires
        forall|i: int| 0 <= i < scores@.len() ==> #[trigger] scores@[i] <= MAX_SCORE,
    ensures
        ({
            let st = kadane_spec(scores@);
            r.0 == st.3 && r.1 == st.4 && r.2 == st.2
        }),
        0 <= r.0 <= r.1 <= scores@.len(),
        r.2 == net(scores@, r.0 as int, r.1 as int),
        r.2 >= 0,
        forall|s: int, e: int|
            0 <= s <= e <= scores@.len() ==> net(scores@, s, e) <= r.2,
{
    let n = scores.len();
    let mut cur: i128 = 0;
    let mut cs: usize = 0;
    let mut best: i128 = 0;
    let mut bs: usize = 0;
    let mut be: usize = 0;
    let mut i: usize = 0;
    while i < n
        invariant
            n == scores@.len(),
            forall|k: int| 0 <= k < scores@.len() ==> #[trigger] scores@[k] <= MAX_SCORE,
            0 <= i <= n,
            0 <= cs <= i,
            bs <= be <= i,
            0 <= cur <= (i as int) * (MAX_SCORE as int),
            0 <= best <= (i as int) * (MAX_SCORE as int),
            kadane_spec(scores@) == kadane_rec(
                scores@,
                i as int,
                (cur as int, cs as int, best as int, bs as int, be as int),
            ),
            cur == net(scores@, cs as int, i as int),
            forall|s: int| 0 <= s <= i ==> net(scores@, s, i as int) <= cur,
            best == net(scores@, bs as int, be as int),
            forall|s: int, e: int| 0 <= s <= e <= i ==> net(scores@, s, e) <= best,
        decreases n - i,
    {
        let ghost st0 = (cur as int, cs as int, best as int, bs as int, be as int);
        let ghost w = scores@[i as int] - PENALTY;
        proof {
            assert((i + 1) as int * (MAX_SCORE as int) == (i as int) * (MAX_SCORE as int)
                + MAX_SCORE) by (nonlinear_arith);
        }
        let cur2: i128 = cur + (scores[i] as i128) - (PENALTY as i128);
        if cur2 < 0 {
            cur = 0;
            cs = i + 1;
        } else {
            cur = cur2;
        }
        if cur >= best {
            best = cur;
            bs = cs;
            be = i + 1;
        }
        i += 1;
        proof {
            assert((cur as int, cs as int, best as int, bs as int, be as int) == kadane_step(
                st0,
                w,
                i - 1,
            ));
            assert(sum_range(scores@, cs as int, i as int) == sum_range(
                scores@,
                cs as int,
                i - 1,
            ) + scores@[i - 1] || cs == i);
            assert(cur == net(scores@, cs as int, i as int));
            assert forall|s: int| 0 <= s <= i implies net(scores@, s, i as int) <= cur by {
                if s == i {
                    assert(net(scores@, s, i as int) == 0);
                } else {
                    assert(sum_range(scores@, s, i as int) == sum_range(scores@, s, i - 1)
                        + scores@[i - 1]);
                    assert(net(scores@, s, i as int) == net(scores@, s, i - 1) + w);
                    assert(net(scores@, s, i - 1) <= st0.0);
                }
            }
            assert forall|s: int, e: int| 0 <= s <= e <= i implies net(scores@, s, e)
                <= best by {
                if e < i {
                    assert(net(scores@, s, e) <= st0.2);
                } else {
                    assert(net(scores@, s, i as int) <= cur);
                    assert(e == i);
                }
            }
        }
    }
    (bs, be, best)
}

/// Re-scans the candidate window for its best sub-window of exactly `l`
/// lines (ties toward the end).
fn best_subwindow(scores: &Vec<u64>, s: usize, e: usize, l: usize) -> (r: usize)
    requires
        forall|i: int| 0 <= i < scores@.len() ==> #[trigger] scores@[i] <= MAX_SCORE,
        0 < l,
        s + l <= e,
        e <= scores@.len(),
    ensures
        r == slide_spec(scores@, s as int, e as int, l as int).0,
        s <= r,
        r + l <= e,
        forall|j: int|
            s <= j && j + l <= e ==> #[trigger] sum_range(scores@, j, j + l) <= sum_range(
                scores@,
                r as int,
                r + l,
            ),
{
    let mut wsum: u128 = 0;
    let mut k: usize = s;
    while k < s + l
        invariant
            forall|i: int| 0 <= i < scores@.len() ==> #[trigger] scores@[i] <= MAX_SCORE,
            s + l <= e <= scores@.len(),
            s <= k <= s + l,
            wsum == sum_range(scores@, s as int, k as int),
            wsum <= (k - s) * (MAX_SCORE as int),
        decreases s + l - k,
    {
        proof {
            assert((k - s + 1) * (MAX_SCORE as int) == (k - s) * (MAX_SCORE as int) + MAX_SCORE)
                by (nonlinear_arith);
        }
        wsum = wsum + (scores[k] as u128);
        k += 1;
    }
    let mut bestj: usize = s;
    let mut bestsum: u128 = wsum;
    let mut j: usize = s + 1;
    proof {
        assert((l as int) * (MAX_SCORE as int) >= 0) by (nonlinear_arith)
            requires l >= 0;
    }
    while j <= e - l
        invariant
            forall|i: int| 0 <= i < scores@.len() ==> #[trigger] scores@[i] <= MAX_SCORE,
            0 < l,
            s + l <= e <= scores@.len(),
            s + 1 <= j,
            j <= e - l + 1,
            s <= bestj,
            bestj + l <= e,
            wsum == sum_range(scores@, j - 1, j - 1 + l),
            wsum <= (l as int) * (MAX_SCORE as int),
            bestsum == sum_range(scores@, bestj as int, bestj + l),
            bestsum <= (l as int) * (MAX_SCORE as int),
            slide_spec(scores@, s as int, e as int, l as int) == slide_rec(
                scores@,
                l as int,
                j as int,
                e as int,
                (bestj as int, bestsum as int),
            ),
            forall|m: int|
                s <= m && m < j && m + l <= e ==> #[trigger] sum_range(scores@, m, m + l)
                    <= bestsum,
        decreases e - l - j + 1,
    {
        proof {
            lemma_sum_range_peel_left(scores@, j - 1, j - 1 + l);
            assert(sum_range(scores@, j - 1, j + l) == sum_range(scores@, j - 1, j - 1 + l)
                + scores@[j - 1 + l]);
            assert(sum_range(scores@, j as int, j + l) >= 0) by {
                lemma_sum_range_nonneg(scores@, j as int, j + l);
            }
            lemma_sum_range_upper(scores@, j as int, j + l);
        }
        wsum = wsum + (scores[j - 1 + l] as u128) - (scores[j - 1] as u128);
        if wsum >= bestsum {
            bestj = j;
            bestsum = wsum;
        }
        j += 1;
    }
    bestj
}

proof fn lemma_sum_range_nonneg(scores: Seq<u64>, a: int, b: int)
    ensures
        sum_range(scores, a, b) >= 0,
    decreases b - a,
{
    if !(a < 0 || b > scores.len() || a >= b) {
        lemma_sum_range_nonneg(scores, a, b - 1);
    }
}

proof fn lemma_sum_range_upper(scores: Seq<u64>, a: int, b: int)
    requires
        forall|i: int| 0 <= i < scores.len() ==> #[trigger] scores[i] <= MAX_SCORE,
        0 <= a <= b <= scores.len(),
    ensures
        sum_range(scores, a, b) <= (b - a) * (MAX_SCORE as int),
    decreases b - a,
{
    if a < b {
        lemma_sum_range_upper(scores, a, b - 1);
        assert((b - a) * (MAX_SCORE as int) == (b - 1 - a) * (MAX_SCORE as int) + MAX_SCORE)
            by (nonlinear_arith);
    }
}

/// Finds the best-scoring window, or `None` when no window nets a positive
/// value (all content routine): the "no anomaly found" outcome.
pub fn extract_window(scores: &Vec<u64>) -> (r: Option<(usize, usize)>)
    requires
        forall|i: int| 0 <= i < scores@.len() ==> #[trigger] scores@[i] <= MAX_SCORE,
    ensures
        match r {
            Option::None => extract_window_spec(scores@) == Option::<(int, int)>::None,
            Option::Some(p) => {
                &&& extract_window_spec(scores@) == Option::Some((p.0 as int, p.1 as int))
                &&& 0 <= p.0 < p.1 <= scores@.len()
                &&& p.1 - p.0 <= MAX_EXCERPT_LINES
            },
        },
        (r is None) <==> (forall|s: int, e: int|
            0 <= s <= e <= scores@.len() ==> net(scores@, s, e) <= 0),
{
    let (bs, be, best) = best_window(scores);
    if best <= 0 {
        proof {
            assert(net(scores@, bs as int, be as int) <= 0);
        }
        return None;
    }
    proof {
        if be <= bs {
            assert(net(scores@, bs as int, be as int) == 0);
        }
    }
    if be - bs > MAX_EXCERPT_LINES {
        let s2 = best_subwindow(scores, bs, be, MAX_EXCERPT_LINES);
        Some((s2, s2 + MAX_EXCERPT_LINES))
    } else {
        Some((bs, be))
    }
}

/// The window `extract_one` reports for an index value and raw log bytes.
pub open spec fn excerpt_window_of(v: Seq<(Seq<u8>, u64)>, log: Seq<u8>) -> Option<(int, int)> {
    extract_window_spec(scorer::score_seq(v, tokenizer::sig_seq(log)))
}

/// The extracted excerpt: the chosen lines with their position in the log,
/// original bytes preserved.
pub struct Excerpt {
    /// Index of the first excerpted line.
    pub start: usize,
    /// One past the index of the last excerpted line.
    pub end: usize,
    /// The excerpted lines, exactly as they stand in the log.
    pub lines: Vec<Vec<u8>>,
}

/// Extracts the most anomalous excerpt of `log` against the learned index,
/// or reports that nothing anomalous stands out. The result is a pure
/// function of the index contents and the log bytes.
pub fn extract_one(index: &LineIndex, log: &[u8]) -> (r: Option<Excerpt>)
    requires
        index.wf(),
    ensures
        match r {
            Option::None => excerpt_window_of(index@, log@) == Option::<(int, int)>::None,
            Option::Some(ex) => {
                &&& excerpt_window_of(index@, log@) == Option::Some(
                    (ex.start as int, ex.end as int),
                )
                &&& 0 <= ex.start < ex.end <= tokenizer::split_lines(log@).len()
                &&& ex.end - ex.start <= MAX_EXCERPT_LINES
                &&& ex.lines@.map_values(|l: Vec<u8>| l@) == tokenizer::split_lines(
                    log@,
                ).subrange(ex.start as int, ex.end as int)
            },
        },
{
    let sigs = tokenizer::signatures_of_log(log);
    let scores = scorer::score_lines(index, &sigs);
    proof {
        assert(sigs@.map_values(|l: Vec<u8>| l@) == tokenizer::sig_seq(log@));
        assert(scores@.len() == tokenizer::sig_seq(log@).len());
    }
    match extract_window(&scores) {
        None => None,
        Some((s, e)) => {
            let lines = tokenizer::split_log_lines(log);
            proof {
                assert(lines@.map_values(|l: Vec<u8>| l@).len() == tokenizer::split_lines(
                    log@,
                ).len());
            }
            let mut out: Vec<Vec<u8>> = Vec::new();
            let mut i: usize = s;
            while i < e
                invariant
                    s <= i <= e,
                    e <= lines@.len(),
                    lines@.map_values(|l: Vec<u8>| l@) == tokenizer::split_lines(log@),
                    out@.map_values(|l: Vec<u8>| l@) =~= tokenizer::split_lines(log@).subrange(
                        s as int,
                        i as int,
                    ),
                decreases e - i,
            {
                let ghost prev = out@;
                let rec = vstd::slice::slice_to_vec(lines[i].as_slice());
                proof {
                    assert(lines@.map_values(|l: Vec<u8>| l@)[i as int] == lines@[i as int]@);
                    assert(rec@ == tokenizer::split_lines(log@)[i as int]);
                }
                out.push(rec);
                proof {
                    let f = |l: Vec<u8>| l@;
                    assert(out@ =~= prev.push(rec));
                    assert(out@.map_values(f) =~= prev.map_values(f).push(rec@));
                    assert(out@.map_values(f) =~= tokenizer::split_lines(log@).subrange(
                        s as int,
                        i + 1,
                    ));
                }
                i += 1;
            }
            Some(Excerpt { start: s, end: e, lines: out })
        },
    }
}

/// Over scores that are all zero, the scan never finds a positive window.
proof fn lemma_kadane_zero(scores: Seq<u64>, i: int, cs: int, bs: int, be: int)
    requires
        forall|k: int| 0 <= k < scores.len() ==> #[trigger] scores[k] == 0,
        0 <= i,
    ensures
        kadane_rec(scores, i, (0, cs, 0, bs, be)).2 == 0,
    decreases scores.len() - i,
{
    if i < scores.len() {
        assert(kadane_step((0int, cs, 0int, bs, be), scores[i] - PENALTY, i) == (
            0int,
            i + 1,
            0int,
            i + 1,
            i + 1,
        ));
        lemma_kadane_zero(scores, i + 1, i + 1, i + 1, i + 1);
    }
}

/// A target log made only of thoroughly routine lines yields no anomaly:
/// when every line of the log carries the index's whole weight (frequency
/// one, as after learning nothing but copies of that log), extraction
/// reports no excerpt, however often the line repeats.
pub proof fn lemma_routine_log_no_anomaly(v: Seq<(Seq<u8>, u64)>, log: Seq<u8>)
    requires
        0 < sum_weights(v) <= u64::MAX,
        forall|j: int|
            0 <= j < tokenizer::sig_seq(log).len() ==> crate::index::weight_of(
                v,
                #[trigger] tokenizer::sig_seq(log)[j],
            ) as int == sum_weights(v),
    ensures
        excerpt_window_of(v, log) == Option::<(int, int)>::None,
{
    let scores = scorer::score_seq(v, tokenizer::sig_seq(log));
    let total = sum_weights(v) as u64;
    assert forall|k: int| 0 <= k < scores.len() implies #[trigger] scores[k] == 0 by {
        assert(scores[k] == scorer::score_of(
            crate::index::weight_of(v, tokenizer::sig_seq(log)[k]),
            total,
        ));
        assert(crate::index::weight_of(v, tokenizer::sig_seq(log)[k]) == total);
        assert((total as nat) / (total as nat) == 1) by (nonlinear_arith)
            requires total >= 1;
        assert(scorer::ilog2(1) == 0);
    }
    lemma_kadane_zero(scores, 0, 0, 0, 0);
    assert(kadane_spec(scores).2 == 0);
}

} // verus!
