//! The persistent frequency model: a mapping from normalized line signature
//! to an accumulated observation weight, plus the total weight over all
//! signatures, used to derive per-line frequencies.

use vstd::prelude::*;
use crate::tokenizer;

verus! {

/// One signature together with its accumulated observation weight.
pub struct IndexEntry {
    pub sig: Vec<u8>,
    pub weight: u64,
}

/// Abstract value of one entry: the signature bytes and the weight.
pub open spec fn entry_view(e: IndexEntry) -> (Seq<u8>, u64) {
    (e.sig@, e.weight)
}

/// Strict lexicographic byte order on signatures.
pub open spec fn lex_lt(a: Seq<u8>, b: Seq<u8>) -> bool
    decreases a.len(),
{
    if b.len() == 0 {
        false
    } else if a.len() == 0 {
        true
    } else if a[0] < b[0] {
        true
    } else if a[0] > b[0] {
        false
    } else {
        lex_lt(a.subrange(1, a.len() as int), b.subrange(1, b.len() as int))
    }
}

/// Sum of the weights of a sequence of entries.
pub open spec fn sum_weights(v: Seq<(Seq<u8>, u64)>) -> int
    decreases v.len(),
{
    if v.len() == 0 {
        0
    } else {
        sum_weights(v.drop_last()) + v.last().1
    }
}

/// The weight stored for `sig`, or 0 where no entry carries it.
pub open spec fn weight_of(v: Seq<(Seq<u8>, u64)>, sig: Seq<u8>) -> u64
    decreases v.len(),
{
    if v.len() == 0 {
        0u64
    } else if v[0].0 == sig {
        v[0].1
    } else {
        weight_of(v.subrange(1, v.len() as int), sig)
    }
}

/// Entries stand in strictly increasing signature order (hence keys are
/// unique) and every stored weight is positive.
pub open spec fn entries_canonical(v: Seq<(Seq<u8>, u64)>) -> bool {
    &&& forall|i: int| 0 <= i && i + 1 < v.len() ==> lex_lt(v[i].0, #[trigger] v[i + 1].0)
    &&& forall|i: int| 0 <= i < v.len() ==> (#[trigger] v[i].1) > 0
}

/// How often each normalized line has been seen across all learned logs.
pub struct LineIndex {
    entries: Vec<IndexEntry>,
    total: u64,
}

impl View for LineIndex {
    type V = Seq<(Seq<u8>, u64)>;

    closed spec fn view(&self) -> Seq<(Seq<u8>, u64)> {
        self.entries@.map_values(|e: IndexEntry| entry_view(e))
    }
}

impl LineIndex {
    /// Internal invariant: canonical entry order, and the cached total equals
    /// the sum of all stored weights (so it is the normalization constant).
    pub closed spec fn wf(&self) -> bool {
        &&& entries_canonical(self@)
        &&& self.total as int == sum_weights(self@)
    }

    /// Builds an index from canonical parts; the store's decoder uses this
    /// after checking the serialized form.
    pub(crate) fn from_parts(entries: Vec<IndexEntry>, total: u64) -> (r: LineIndex)
        requires
            entries_canonical(entries@.map_values(|e: IndexEntry| entry_view(e))),
            total as int == sum_weights(entries@.map_values(|e: IndexEntry| entry_view(e))),
        ensures
            r.wf(),
            r@ == entries@.map_values(|e: IndexEntry| entry_view(e)),
    {
        LineIndex { entries, total }
    }

    /// Read access to the canonical entries, for the store's encoder.
    pub(crate) fn entries_ref(&self) -> (r: &Vec<IndexEntry>)
        ensures
            r@.map_values(|e: IndexEntry| entry_view(e)) == self@,
    {
        &self.entries
    }

    /// An index with no observations at all.
    pub fn new() -> (r: LineIndex)
        ensures
            r.wf(),
            r@ == Seq::<(Seq<u8>, u64)>::empty(),
    {
        let r = LineIndex { entries: Vec::new(), total: 0 };
        proof {
            assert(r@ =~= Seq::<(Seq<u8>, u64)>::empty());
        }
        r
    }

    /// Sum of all observation weights, the denominator of every frequency.
    pub fn total_weight(&self) -> (r: u64)
        requires
            self.wf(),
        ensures
            r as int == sum_weights(self@),
    {
        self.total
    }

    /// Number of distinct signatures held.
    pub fn len(&self) -> (r: usize)
        ensures
            r == self@.len(),
    {
        self.entries.len()
    }

    /// The accumulated weight of one signature (0 if never observed).
    pub fn weight(&self, sig: &[u8]) -> (r: u64)
        requires
            self.wf(),
        ensures
            r == weight_of(self@, sig@),
    {
        let n = self.entries.len();
        proof {
            assert(self@.subrange(0, n as int) =~= self@);
        }
        let mut i: usize = 0;
        while i < n
            invariant
                n == self.entries.len(),
                0 <= i <= n,
                weight_of(self@, sig@) == weight_of(self@.subrange(i as int, n as int), sig@),
            decreases n - i,
        {
            let c = cmp_bytes(self.entries[i].sig.as_slice(), sig);
            proof {
                assert(self@.subrange(i as int, n as int)[0] == self@[i as int]);
                assert(self@[i as int].0 == self.entries@[i as int].sig@);
                assert(self@.subrange(i as int, n as int).subrange(
                    1,
                    self@.subrange(i as int, n as int).len() as int,
                ) =~= self@.subrange(i + 1, n as int));
            }
            if c == 0 {
                return self.entries[i].weight;
            }
            i += 1;
        }
        proof {
            assert(self@.subrange(n as int, n as int) =~= Seq::<(Seq<u8>, u64)>::empty());
        }
        0
    }

    /// Adds `weight` to the signature's stored count and to the total weight;
    /// with `weight == 0` this is a no-op. No other signature's weight moves,
    /// and no weight ever decreases.
    pub fn observe(&mut self, sig: &[u8], weight: u64)
        requires
            old(self).wf(),
            sum_weights(old(self)@) + weight <= u64::MAX,
        ensures
            final(self).wf(),
            weight_of(final(self)@, sig@) as int == weight_of(old(self)@, sig@) as int + weight,
            forall|s: Seq<u8>| s != sig@ ==> #[trigger] weight_of(final(self)@, s) == weight_of(
                old(self)@,
                s,
            ),
            sum_weights(final(self)@) == sum_weights(old(self)@) + weight,
            forall|s: Seq<u8>| #[trigger] weight_of(final(self)@, s) >= weight_of(old(self)@, s),
    {
        if weight == 0 {
            return;
        }
        let ghost v0 = self@;
        proof {
            assert(entries_canonical(v0));
        }
        let (i, found) = self.find_slot(sig);
        if found {
            // Existing entry: its weight is part of the total, so the sum
            // bound keeps the addition inside u64.
            proof {
                lemma_weight_le_sum(v0, i as int);
                assert(v0[i as int].1 == self.entries@[i as int].weight);
            }
            let w0 = self.entries[i].weight;
            let updated = IndexEntry { sig: self.entries[i].sig.clone(), weight: w0 + weight };
            proof {
                assert(updated.sig@ == v0[i as int].0);
            }
            self.entries.set(i, updated);
            self.total = self.total + weight;
            proof {
                let v1 = self@;
                assert(v1 =~= v0.update(i as int, (v0[i as int].0, (w0 + weight) as u64)));
                lemma_sum_update(v0, i as int, (w0 + weight) as u64);
                lemma_sorted_prefix_not_found(v0, i as int, sig@);
                lemma_weight_of_at(v0, i as int, sig@);
                lemma_weight_of_update(v0, i as int, (w0 + weight) as u64, sig@);
                assert forall|s: Seq<u8>| s != sig@ implies #[trigger] weight_of(v1, s)
                    == weight_of(v0, s) by {
                    lemma_weight_of_update_other(v0, i as int, (w0 + weight) as u64, s);
                }
                assert forall|k: int| 0 <= k && k + 1 < v1.len() implies lex_lt(
                    v1[k].0,
                    #[trigger] v1[k + 1].0,
                ) by {
                    assert(lex_lt(v0[k].0, v0[k + 1].0));
                }
            }
            return;
        }
        // `sig` is absent: every earlier entry orders strictly before it, and
        // the entry at `i`, if any, orders strictly after it.
        proof {
            lemma_sum_nonneg_pub(v0);
        }
        let mut sv: Vec<u8> = Vec::new();
        sv.extend_from_slice(sig);
        proof {
            assert(sv@ =~= sig@);
        }
        proof {
            assert forall|j: int| 0 <= j < v0.len() implies (#[trigger] v0[j].0) != sig@ by {
                if j < i {
                    lemma_lex_lt_irrefl(v0[j].0, sig@);
                } else if j == i {
                    lemma_lex_lt_irrefl(sig@, v0[j].0);
                } else {
                    lemma_sorted_chain(v0, i as int, j);
                    lemma_lex_trans(sig@, v0[i as int].0, v0[j].0);
                    lemma_lex_lt_irrefl(sig@, v0[j].0);
                }
            }
            lemma_weight_of_absent(v0, sig@);
        }
        let e = IndexEntry { sig: sv, weight };
        self.entries.insert(i, e);
        self.total = self.total + weight;
        proof {
            let v1 = self@;
            assert(v1 =~= v0.insert(i as int, (sig@, weight)));
            lemma_sum_insert(v0, i as int, (sig@, weight));
            lemma_sorted_prefix_not_found(v0, i as int, sig@);
            lemma_weight_of_insert_same(v0, i as int, (sig@, weight));
            lemma_canonical_insert(v0, i as int, (sig@, weight));
            assert forall|s: Seq<u8>| s != sig@ implies #[trigger] weight_of(v1, s) == weight_of(
                v0,
                s,
            ) by {
                lemma_weight_of_insert_other(v0, i as int, (sig@, weight), s);
            }
        }
    }

    /// Where `sig` stands or belongs in the sorted entries: the first
    /// position whose signature does not order before `sig`, and whether it
    /// holds `sig` itself.
    fn find_slot(&self, sig: &[u8]) -> (r: (usize, bool))
        requires
            self.wf(),
        ensures
            0 <= r.0 <= self@.len(),
            forall|j: int| 0 <= j < r.0 ==> lex_lt(#[trigger] self@[j].0, sig@),
            r.1 ==> r.0 < self@.len() && self@[r.0 as int].0 == sig@,
            !r.1 && r.0 < self@.len() ==> lex_lt(sig@, self@[r.0 as int].0),
    {
        let n = self.entries.len();
        let mut i: usize = 0;
        while i < n
            invariant
                n == self.entries.len(),
                n == self@.len(),
                0 <= i <= n,
                forall|j: int| 0 <= j < i ==> lex_lt(#[trigger] self@[j].0, sig@),
            decreases n - i,
        {
            let c = cmp_bytes(self.entries[i].sig.as_slice(), sig);
            proof {
                assert(self@[i as int].0 == self.entries@[i as int].sig@);
            }
            if c == 0 {
                return (i, true);
            }
            if c == 2 {
                return (i, false);
            }
            i += 1;
        }
        (n, false)
    }

    /// Learns one tokenized log: every signature in `sigs` gains
    /// `multiplier` weight per occurrence. The total grows by
    /// `multiplier * sigs.len()`, and no weight decreases.
    pub fn learn_lines(&mut self, sigs: &Vec<Vec<u8>>, multiplier: u64)
        requires
            old(self).wf(),
            sum_weights(old(self)@) + multiplier * sigs@.len() <= u64::MAX,
        ensures
            final(self).wf(),
            forall|s: Seq<u8>|
                #[trigger] weight_of(final(self)@, s) as int == weight_of(old(self)@, s) as int
                    + multiplier * count_matches(sigs@.map_values(|l: Vec<u8>| l@), s),
            sum_weights(final(self)@) == sum_weights(old(self)@) + multiplier * sigs@.len(),
            forall|s: Seq<u8>| #[trigger] weight_of(final(self)@, s) >= weight_of(old(self)@, s),
    {
        let ghost lines = sigs@.map_values(|l: Vec<u8>| l@);
        let ghost v0 = self@;
        let n = sigs.len();
        let mut i: usize = 0;
        while i < n
            invariant
                self.wf(),
                forall|s: Seq<u8>| #[trigger] weight_of(self@, s) >= weight_of(v0, s),
                n == sigs@.len(),
                0 <= i <= n,
                lines == sigs@.map_values(|l: Vec<u8>| l@),
                sum_weights(old(self)@) + multiplier * n <= u64::MAX,
                v0 == old(self)@,
                forall|s: Seq<u8>| #[trigger] weight_of(self@, s) as int == weight_of(
                    v0,
                    s,
                ) as int + multiplier * count_matches(lines.take(i as int), s),
                sum_weights(self@) == sum_weights(v0) + multiplier * i,
            decreases n - i,
        {
            let ghost pre = self@;
            proof {
                // multiplier * i grows to at most multiplier * n.
                assert(multiplier * (i + 1) <= multiplier * n) by (nonlinear_arith)
                    requires i + 1 <= n, multiplier >= 0;
                assert(count_matches(lines.take(i as int), sigs@[i as int]@) >= 0) by {
                    lemma_count_matches_nonneg(lines.take(i as int), sigs@[i as int]@);
                }
                assert(multiplier * (i as int) + multiplier == multiplier * (i + 1))
                    by (nonlinear_arith);
                assert(sum_weights(self@) + multiplier <= u64::MAX);
            }
            self.observe(sigs[i].as_slice(), multiplier);
            proof {
                let li = lines[i as int];
                assert(lines.take(i + 1).drop_last() =~= lines.take(i as int));
                assert forall|s: Seq<u8>| #[trigger] weight_of(self@, s) as int == weight_of(
                    v0,
                    s,
                ) as int + multiplier * count_matches(lines.take(i + 1), s) by {
                    lemma_count_matches_nonneg(lines.take(i as int), s);
                    assert(count_matches(lines.take(i + 1), s) == count_matches(
                        lines.take(i as int),
                        s,
                    ) + if s == li { 1int } else { 0int });
                    if s == li {
                        assert(multiplier * (count_matches(lines.take(i as int), s) + 1)
                            == multiplier * count_matches(lines.take(i as int), s) + multiplier)
                            by (nonlinear_arith);
                    }
                }
                assert(multiplier * (i + 1) == multiplier * i + multiplier) by (nonlinear_arith);
            }
            i += 1;
        }
        proof {
            assert(lines.take(n as int) =~= lines);
        }
    }

    /// Learns one raw log: tokenizes it and observes every line signature
    /// with the given multiplier.
    pub fn learn_log(&mut self, log: &[u8], multiplier: u64)
        requires
            old(self).wf(),
            sum_weights(old(self)@) + multiplier * tokenizer::split_lines(log@).len()
                <= u64::MAX,
        ensures
            final(self).wf(),
            forall|s: Seq<u8>|
                #[trigger] weight_of(final(self)@, s) as int == weight_of(old(self)@, s) as int
                    + multiplier * count_matches(tokenizer::sig_seq(log@), s),
            sum_weights(final(self)@) == sum_weights(old(self)@) + multiplier
                * tokenizer::split_lines(log@).len(),
            forall|s: Seq<u8>| #[trigger] weight_of(final(self)@, s) >= weight_of(old(self)@, s),
    {
        let sigs = tokenizer::signatures_of_log(log);
        proof {
            assert(sigs@.map_values(|l: Vec<u8>| l@) == tokenizer::sig_seq(log@));
            assert(sigs@.len() == tokenizer::sig_seq(log@).len());
            assert(tokenizer::sig_seq(log@).len() == tokenizer::split_lines(log@).len());
        }
        self.learn_lines(&sigs, multiplier);
    }

    /// Learns a whole corpus, one multiplier for every log. An empty corpus
    /// is a no-op, not an error.
    pub fn learn_logs(&mut self, logs: &Vec<Vec<u8>>, multiplier: u64)
        requires
            old(self).wf(),
            sum_weights(old(self)@) + multiplier * corpus_lines(
                logs@.map_values(|l: Vec<u8>| l@),
            ) <= u64::MAX,
        ensures
            final(self).wf(),
            forall|s: Seq<u8>|
                #[trigger] weight_of(final(self)@, s) as int == weight_of(old(self)@, s) as int
                    + multiplier * corpus_count(logs@.map_values(|l: Vec<u8>| l@), s),
            sum_weights(final(self)@) == sum_weights(old(self)@) + multiplier * corpus_lines(
                logs@.map_values(|l: Vec<u8>| l@),
            ),
            forall|s: Seq<u8>| weight_of(final(self)@, s) >= weight_of(old(self)@, s),
    {
        let ghost lv = logs@.map_values(|l: Vec<u8>| l@);
        let ghost v0 = self@;
        let n = logs.len();
        let mut i: usize = 0;
        proof {
            lemma_corpus_lines_nonneg(lv);
        }
        while i < n
            invariant
                self.wf(),
                n == logs@.len(),
                0 <= i <= n,
                lv == logs@.map_values(|l: Vec<u8>| l@),
                v0 == old(self)@,
                sum_weights(v0) + multiplier * corpus_lines(lv) <= u64::MAX,
                forall|s: Seq<u8>| #[trigger] weight_of(self@, s) as int == weight_of(
                    v0,
                    s,
                ) as int + multiplier * corpus_count(lv.take(i as int), s),
                sum_weights(self@) == sum_weights(v0) + multiplier * corpus_lines(
                    lv.take(i as int),
                ),
            decreases n - i,
        {
            proof {
                lemma_corpus_lines_take_le(lv, i + 1);
                assert(lv.take(i + 1).drop_last() =~= lv.take(i as int));
                assert(multiplier * (corpus_lines(lv.take(i as int)) + tokenizer::split_lines(
                    lv[i as int],
                ).len()) == multiplier * corpus_lines(lv.take(i as int)) + multiplier
                    * tokenizer::split_lines(lv[i as int]).len() as int) by (nonlinear_arith);
                assert(multiplier * corpus_lines(lv.take(i + 1)) <= multiplier * corpus_lines(lv))
                    by (nonlinear_arith)
                    requires corpus_lines(lv.take(i + 1)) <= corpus_lines(lv), multiplier >= 0;
            }
            self.learn_log(logs[i].as_slice(), multiplier);
            proof {
                assert forall|s: Seq<u8>| #[trigger] weight_of(self@, s) as int == weight_of(
                    v0,
                    s,
                ) as int + multiplier * corpus_count(lv.take(i + 1), s) by {
                    assert(corpus_count(lv.take(i + 1), s) == corpus_count(lv.take(i as int), s)
                        + count_matches(tokenizer::sig_seq(lv[i as int]), s));
                    assert(multiplier * (corpus_count(lv.take(i as int), s) + count_matches(
                        tokenizer::sig_seq(lv[i as int]),
                        s,
                    )) == multiplier * corpus_count(lv.take(i as int), s) + multiplier
                        * count_matches(tokenizer::sig_seq(lv[i as int]), s))
                        by (nonlinear_arith);
                }
            }
            i += 1;
        }
        proof {
            assert(lv.take(n as int) =~= lv);
            assert forall|s: Seq<u8>| weight_of(self@, s) >= weight_of(v0, s) by {
                lemma_corpus_count_nonneg(lv, s);
                assert(multiplier * corpus_count(lv, s) >= 0) by (nonlinear_arith)
                    requires corpus_count(lv, s) >= 0, multiplier >= 0;
            }
        }
    }
}

/// How many members of `lines` equal `s`.
pub open spec fn count_matches(lines: Seq<Seq<u8>>, s: Seq<u8>) -> int
    decreases lines.len(),
{
    if lines.len() == 0 {
        0
    } else {
        count_matches(lines.drop_last(), s) + if lines.last() == s {
            1int
        } else {
            0int
        }
    }
}

/// Total number of physical lines over a corpus of raw logs.
pub open spec fn corpus_lines(logs: Seq<Seq<u8>>) -> int
    decreases logs.len(),
{
    if logs.len() == 0 {
        0
    } else {
        corpus_lines(logs.drop_last()) + tokenizer::split_lines(logs.last()).len()
    }
}

/// How often signature `s` occurs over a corpus of raw logs, each tokenized.
pub open spec fn corpus_count(logs: Seq<Seq<u8>>, s: Seq<u8>) -> int
    decreases logs.len(),
{
    if logs.len() == 0 {
        0
    } else {
        corpus_count(logs.drop_last(), s) + count_matches(
            tokenizer::sig_seq(logs.last()),
            s,
        )
    }
}

pub proof fn lemma_count_matches_nonneg(lines: Seq<Seq<u8>>, s: Seq<u8>)
    ensures
        count_matches(lines, s) >= 0,
    decreases lines.len(),
{
    if lines.len() > 0 {
        lemma_count_matches_nonneg(lines.drop_last(), s);
    }
}

pub proof fn lemma_corpus_lines_nonneg(logs: Seq<Seq<u8>>)
    ensures
        corpus_lines(logs) >= 0,
    decreases logs.len(),
{
    if logs.len() > 0 {
        lemma_corpus_lines_nonneg(logs.drop_last());
    }
}

pub proof fn lemma_corpus_count_nonneg(logs: Seq<Seq<u8>>, s: Seq<u8>)
    ensures
        corpus_count(logs, s) >= 0,
    decreases logs.len(),
{
    if logs.len() > 0 {
        lemma_corpus_count_nonneg(logs.drop_last(), s);
        lemma_count_matches_nonneg(tokenizer::sig_seq(logs.last()), s);
    }
}

/// Prefixes of a corpus hold no more lines than the whole.
proof fn lemma_corpus_lines_take_le(logs: Seq<Seq<u8>>, i: int)
    requires
        0 <= i <= logs.len(),
    ensures
        corpus_lines(logs.take(i)) <= corpus_lines(logs),
    decreases logs.len() - i,
{
    if i == logs.len() {
        assert(logs.take(i) =~= logs);
    } else {
        lemma_corpus_lines_take_le(logs, i + 1);
        assert(logs.take(i + 1).drop_last() =~= logs.take(i));
    }
}

/// Every single weight is bounded by the sum, weights being positive.
proof fn lemma_weight_le_sum(v: Seq<(Seq<u8>, u64)>, i: int)
    requires
        0 <= i < v.len(),
        forall|j: int| 0 <= j < v.len() ==> (#[trigger] v[j].1) > 0,
    ensures
        v[i].1 <= sum_weights(v),
    decreases v.len(),
{
    if i == v.len() - 1 {
        lemma_sum_nonneg(v.drop_last());
    } else {
        lemma_weight_le_sum(v.drop_last(), i);
    }
}

proof fn lemma_sum_nonneg(v: Seq<(Seq<u8>, u64)>)
    ensures
        sum_weights(v) >= 0,
    decreases v.len(),
{
    if v.len() > 0 {
        lemma_sum_nonneg(v.drop_last());
    }
}

proof fn lemma_sum_nonneg_pub(v: Seq<(Seq<u8>, u64)>)
    ensures
        sum_weights(v) >= 0,
{
    lemma_sum_nonneg(v);
}

proof fn lemma_sum_update(v: Seq<(Seq<u8>, u64)>, i: int, w: u64)
    requires
        0 <= i < v.len(),
    ensures
        sum_weights(v.update(i, (v[i].0, w))) == sum_weights(v) - v[i].1 + w,
    decreases v.len(),
{
    let v1 = v.update(i, (v[i].0, w));
    if i == v.len() - 1 {
        assert(v1.drop_last() =~= v.drop_last());
    } else {
        assert(v1.drop_last() =~= v.drop_last().update(i, (v[i].0, w)));
        lemma_sum_update(v.drop_last(), i, w);
    }
}

proof fn lemma_sum_insert(v: Seq<(Seq<u8>, u64)>, i: int, e: (Seq<u8>, u64))
    requires
        0 <= i <= v.len(),
    ensures
        sum_weights(v.insert(i, e)) == sum_weights(v) + e.1,
    decreases v.len(),
{
    let v1 = v.insert(i, e);
    if i == v.len() {
        assert(v1.drop_last() =~= v);
    } else {
        assert(v1.drop_last() =~= v.drop_last().insert(i, e));
        assert(v1.last() == v.last());
        lemma_sum_insert(v.drop_last(), i, e);
    }
}

/// At the first entry carrying `sig`, `weight_of` is that entry's weight.
proof fn lemma_weight_of_at(v: Seq<(Seq<u8>, u64)>, i: int, sig: Seq<u8>)
    requires
        0 <= i < v.len(),
        v[i].0 == sig,
        forall|j: int| 0 <= j < i ==> (#[trigger] v[j].0) != sig,
    ensures
        weight_of(v, sig) == v[i].1,
    decreases v.len(),
{
    if i > 0 {
        assert(v.subrange(1, v.len() as int) =~= v.skip(1));
        lemma_weight_of_at(v.subrange(1, v.len() as int), i - 1, sig);
    }
}

/// Updating the weight at `i` (same signature) moves `weight_of` for that
/// signature only if no earlier entry carries it.
proof fn lemma_weight_of_update(v: Seq<(Seq<u8>, u64)>, i: int, w: u64, sig: Seq<u8>)
    requires
        0 <= i < v.len(),
        v[i].0 == sig,
        forall|j: int| 0 <= j < i ==> (#[trigger] v[j].0) != sig,
    ensures
        weight_of(v.update(i, (sig, w)), sig) == w,
    decreases v.len(),
{
    let v1 = v.update(i, (sig, w));
    if i == 0 {
        assert(v1[0].0 == sig);
    } else {
        assert(v1.subrange(1, v1.len() as int) =~= v.subrange(1, v.len() as int).update(
            i - 1,
            (sig, w),
        ));
        lemma_weight_of_update(v.subrange(1, v.len() as int), i - 1, w, sig);
    }
}

proof fn lemma_weight_of_update_other(v: Seq<(Seq<u8>, u64)>, i: int, w: u64, s: Seq<u8>)
    requires
        0 <= i < v.len(),
        v[i].0 != s,
    ensures
        weight_of(v.update(i, (v[i].0, w)), s) == weight_of(v, s),
    decreases v.len(),
{
    let v1 = v.update(i, (v[i].0, w));
    if v.len() > 0 {
        if i == 0 {
            assert(v1.subrange(1, v1.len() as int) =~= v.subrange(1, v.len() as int));
        } else {
            if v[0].0 == s {
            } else {
                assert(v1.subrange(1, v1.len() as int) =~= v.subrange(1, v.len() as int).update(
                    i - 1,
                    (v[i].0, w),
                ));
                lemma_weight_of_update_other(v.subrange(1, v.len() as int), i - 1, w, s);
            }
        }
    }
}

proof fn lemma_weight_of_insert_same(v: Seq<(Seq<u8>, u64)>, i: int, e: (Seq<u8>, u64))
    requires
        0 <= i <= v.len(),
        forall|j: int| 0 <= j < i ==> (#[trigger] v[j].0) != e.0,
    ensures
        weight_of(v.insert(i, e), e.0) == e.1,
    decreases v.len(),
{
    let v1 = v.insert(i, e);
    if i == 0 {
        assert(v1[0] == e);
    } else {
        assert(v1[0] == v[0]);
        assert(v1.subrange(1, v1.len() as int) =~= v.subrange(1, v.len() as int).insert(
            i - 1,
            e,
        ));
        lemma_weight_of_insert_same(v.subrange(1, v.len() as int), i - 1, e);
    }
}

proof fn lemma_weight_of_insert_other(v: Seq<(Seq<u8>, u64)>, i: int, e: (Seq<u8>, u64), s: Seq<u8>)
    requires
        0 <= i <= v.len(),
        e.0 != s,
    ensures
        weight_of(v.insert(i, e), s) == weight_of(v, s),
    decreases v.len(),
{
    let v1 = v.insert(i, e);
    if i == 0 {
        assert(v1[0] == e);
        assert(v1.subrange(1, v1.len() as int) =~= v);
    } else {
        assert(v1[0] == v[0]);
        if v[0].0 == s {
        } else {
            assert(v1.subrange(1, v1.len() as int) =~= v.subrange(1, v.len() as int).insert(
                i - 1,
                e,
            ));
            lemma_weight_of_insert_other(v.subrange(1, v.len() as int), i - 1, e, s);
        }
    }
}

/// Entries strictly below `sig` in the order cannot equal `sig`.
proof fn lemma_sorted_prefix_not_found(v: Seq<(Seq<u8>, u64)>, i: int, sig: Seq<u8>)
    requires
        0 <= i <= v.len(),
        forall|j: int| 0 <= j < i ==> lex_lt(#[trigger] v[j].0, sig),
    ensures
        forall|j: int| 0 <= j < i ==> (#[trigger] v[j].0) != sig,
{
    assert forall|j: int| 0 <= j < i implies (#[trigger] v[j].0) != sig by {
        lemma_lex_lt_irrefl(v[j].0, sig);
    }
}

/// Strict lexicographic order never relates a sequence to itself.
pub proof fn lemma_lex_lt_irrefl(a: Seq<u8>, b: Seq<u8>)
    requires
        lex_lt(a, b),
    ensures
        a != b,
    decreases a.len(),
{
    if b.len() == 0 {
    } else if a.len() == 0 {
    } else if a[0] < b[0] {
    } else if a[0] > b[0] {
    } else {
        lemma_lex_lt_irrefl(a.subrange(1, a.len() as int), b.subrange(1, b.len() as int));
        if a == b {
            assert(a.subrange(1, a.len() as int) =~= b.subrange(1, b.len() as int));
        }
    }
}

/// Inserting a fresh signature between its strict neighbours keeps the
/// canonical order.
proof fn lemma_canonical_insert(v: Seq<(Seq<u8>, u64)>, i: int, e: (Seq<u8>, u64))
    requires
        0 <= i <= v.len(),
        entries_canonical(v),
        e.1 > 0,
        forall|j: int| 0 <= j < i ==> lex_lt(#[trigger] v[j].0, e.0),
        i < v.len() ==> lex_lt(e.0, v[i].0),
    ensures
        entries_canonical(v.insert(i, e)),
{
    let v1 = v.insert(i, e);
    assert forall|k: int| 0 <= k && k + 1 < v1.len() implies lex_lt(
        v1[k].0,
        #[trigger] v1[k + 1].0,
    ) by {
        if k + 1 < i {
            assert(v1[k] == v[k] && v1[k + 1] == v[k + 1]);
            assert(lex_lt(v[k].0, v[k + 1].0));
        } else if k + 1 == i {
            assert(v1[k] == v[k] && v1[k + 1] == e);
            assert(lex_lt(v[k].0, e.0));
        } else if k == i {
            assert(v1[k] == e && v1[k + 1] == v[k]);
            assert(lex_lt(e.0, v[i].0));
        } else {
            assert(v1[k] == v[k - 1] && v1[k + 1] == v[k]);
            assert(lex_lt(v[(k - 1)].0, v[(k - 1) + 1].0));
        }
    }
    assert forall|k: int| 0 <= k < v1.len() implies (#[trigger] v1[k].1) > 0 by {
        if k < i {
            assert(v1[k] == v[k]);
        } else if k == i {
        } else {
            assert(v1[k] == v[k - 1]);
        }
    }
}

/// Three-way lexicographic comparison of byte strings: 0 for equal, 1 when
/// `a` orders first, 2 when `b` orders first.
pub fn cmp_bytes(a: &[u8], b: &[u8]) -> (r: u8)
    ensures
        r == 0 || r == 1 || r == 2,
        (r == 0) <==> a@ == b@,
        (r == 1) <==> lex_lt(a@, b@),
        (r == 2) <==> lex_lt(b@, a@),
{
    let na = a.len();
    let nb = b.len();
    let mut i: usize = 0;
    while i < na && i < nb
        invariant
            na == a@.len(),
            nb == b@.len(),
            0 <= i <= na,
            0 <= i <= nb,
            forall|j: int| 0 <= j < i ==> a@[j] == b@[j],
        decreases na - i,
    {
        let x = a[i];
        let y = b[i];
        if x < y {
            proof {
                lemma_lex_lt_from_diff(a@, b@, i as int);
                lemma_lex_not_both(a@, b@);
                lemma_lex_lt_irrefl(a@, b@);
            }
            return 1;
        }
        if x > y {
            proof {
                lemma_lex_lt_from_diff(b@, a@, i as int);
                lemma_lex_not_both(b@, a@);
                lemma_lex_lt_irrefl(b@, a@);
            }
            return 2;
        }
        i += 1;
    }
    if na == nb {
        proof {
            assert(a@ =~= b@);
            lemma_lex_lt_irrefl_eq(a@);
        }
        0
    } else if na < nb {
        proof {
            lemma_lex_lt_prefix(a@, b@, i as int);
            lemma_lex_not_both(a@, b@);
            lemma_lex_lt_irrefl(a@, b@);
        }
        1
    } else {
        proof {
            lemma_lex_lt_prefix(b@, a@, i as int);
            lemma_lex_not_both(b@, a@);
            lemma_lex_lt_irrefl(b@, a@);
        }
        2
    }
}

/// Equal prefixes and a smaller byte at the first difference give the strict
/// order.
proof fn lemma_lex_lt_from_diff(a: Seq<u8>, b: Seq<u8>, i: int)
    requires
        0 <= i < a.len(),
        i < b.len(),
        forall|j: int| 0 <= j < i ==> a[j] == b[j],
        a[i] < b[i],
    ensures
        lex_lt(a, b),
    decreases i,
{
    if i == 0 {
    } else {
        lemma_lex_lt_from_diff(a.subrange(1, a.len() as int), b.subrange(1, b.len() as int), i - 1);
    }
}

/// A strict prefix orders before the longer sequence.
proof fn lemma_lex_lt_prefix(a: Seq<u8>, b: Seq<u8>, i: int)
    requires
        a.len() == i,
        i < b.len(),
        forall|j: int| 0 <= j < i ==> a[j] == b[j],
    ensures
        lex_lt(a, b),
    decreases i,
{
    if i == 0 {
    } else {
        lemma_lex_lt_prefix(a.subrange(1, a.len() as int), b.subrange(1, b.len() as int), i - 1);
    }
}

proof fn lemma_lex_lt_irrefl_eq(a: Seq<u8>)
    ensures
        !lex_lt(a, a),
    decreases a.len(),
{
    if a.len() > 0 {
        lemma_lex_lt_irrefl_eq(a.subrange(1, a.len() as int));
    }
}

/// The order is transitive.
pub proof fn lemma_lex_trans(a: Seq<u8>, b: Seq<u8>, c: Seq<u8>)
    requires
        lex_lt(a, b),
        lex_lt(b, c),
    ensures
        lex_lt(a, c),
    decreases a.len(),
{
    if c.len() == 0 {
    } else if b.len() == 0 {
    } else if a.len() == 0 {
    } else {
        if a[0] == b[0] && b[0] == c[0] {
            lemma_lex_trans(
                a.subrange(1, a.len() as int),
                b.subrange(1, b.len() as int),
                c.subrange(1, c.len() as int),
            );
        }
    }
}

/// In a canonically ordered entry sequence, any earlier signature orders
/// before any later one.
pub proof fn lemma_sorted_chain(v: Seq<(Seq<u8>, u64)>, i: int, j: int)
    requires
        entries_canonical(v),
        0 <= i < j < v.len(),
    ensures
        lex_lt(v[i].0, v[j].0),
    decreases j - i,
{
    assert(lex_lt(v[(j - 1)].0, v[(j - 1) + 1].0));
    if i < j - 1 {
        lemma_sorted_chain(v, i, j - 1);
        lemma_lex_trans(v[i].0, v[j - 1].0, v[j].0);
    }
}

/// A signature carried by no entry has weight 0.
pub proof fn lemma_weight_of_absent(v: Seq<(Seq<u8>, u64)>, sig: Seq<u8>)
    requires
        forall|j: int| 0 <= j < v.len() ==> (#[trigger] v[j].0) != sig,
    ensures
        weight_of(v, sig) == 0,
    decreases v.len(),
{
    if v.len() > 0 {
        assert(v.subrange(1, v.len() as int) =~= v.skip(1));
        lemma_weight_of_absent(v.subrange(1, v.len() as int), sig);
    }
}

/// The order is asymmetric: at most one direction holds.
pub proof fn lemma_lex_not_both(a: Seq<u8>, b: Seq<u8>)
    requires
        lex_lt(a, b),
    ensures
        !lex_lt(b, a),
    decreases a.len(),
{
    if b.len() == 0 {
    } else if a.len() == 0 {
    } else if a[0] < b[0] {
    } else if a[0] > b[0] {
    } else {
        lemma_lex_not_both(a.subrange(1, a.len() as int), b.subrange(1, b.len() as int));
    }
}

} // verus!
