//! The greedy merge loop: repeatedly pop the best live candidate from
//! the queue, lazily re-validate its count snapshot against the
//! authoritative pair-count table, apply the merge to exactly the words
//! in the candidate's position set, propagate the reported deltas, and
//! push refreshed candidates, until the target vocabulary size is
//! reached or no useful merge remains.

use vstd::prelude::*;
use vstd::multiset::Multiset;
use crate::agg::{corpus_count, count_pairs_parallel, lemma_cc_bounds, total_weight, PairStats};
use crate::queue::{cand_heap_new, cand_heap_pop, cand_heap_push, cand_le, heap_items, inv_key,
    make_inv_key, make_pair_key, Cand};
use crate::word::{pair_key, Word};

verus! {

broadcast use {vstd::std_specs::hash::group_hash_axioms, vstd::multiset::group_multiset_axioms};

/// Why a training request was rejected before any work began.
#[derive(Debug, Clone, Copy, PartialEq, Eq, Structural)]
pub enum TrainError {
    /// The target vocabulary size is below the 256 reserved byte ids.
    InvalidVocabSize,
    /// The word and frequency collections have different lengths.
    LengthMismatch,
    /// Some frequency entry is not a positive integer.
    NonPositiveCount,
}

/// Saturating signed addition: the exact sum when it fits in an `i64`,
/// else the nearer bound.
pub fn sat_add(a: i64, b: i64) -> (r: i64)
    ensures
        r == if a + b > i64::MAX {
            i64::MAX as int
        } else if a + b < i64::MIN {
            i64::MIN as int
        } else {
            a + b
        },
{
    if b >= 0 {
        if a <= i64::MAX - b {
            a + b
        } else {
            i64::MAX
        }
    } else {
        if a >= i64::MIN - b {
            a + b
        } else {
            i64::MIN
        }
    }
}

/// Splits a packed pair key back into its two token ids.
pub fn unpack_key(k: u64) -> (p: (u32, u32))
    ensures
        pair_key(p.0, p.1) == k,
{
    let hi = k / 0x1_0000_0000u64;
    let lo = k % 0x1_0000_0000u64;
    proof {
        assert(hi < 0x1_0000_0000 && lo < 0x1_0000_0000 && (k as int) == (hi as int)
            * 0x1_0000_0000 + (lo as int)) by (nonlinear_arith)
            requires
                hi == k as int / 0x1_0000_0000,
                lo == k as int % 0x1_0000_0000,
                k <= u64::MAX,
        ;
    }
    (hi as u32, lo as u32)
}

/// The live count a candidate would be validated against: the
/// authoritative total for its ticket's pair, clamped to zero when the
/// pair is unknown or its total is not positive.
pub open spec fn live_of(x: Cand, tp: Seq<(u32, u32)>, sl: Map<u64, usize>, to: Seq<i64>) -> u64 {
    if x.2 < tp.len() {
        let p = tp[x.2 as int];
        let k = pair_key(p.0, p.1);
        if sl.contains_key(k) && (sl[k] as int) < to.len() && to[sl[k] as int] > 0 {
            to[sl[k] as int] as u64
        } else {
            0
        }
    } else {
        0
    }
}

/// A queued candidate whose count snapshot no longer matches the live
/// count.
pub open spec fn is_stale(x: Cand, tp: Seq<(u32, u32)>, sl: Map<u64, usize>, to: Seq<i64>) -> bool {
    x.0 != live_of(x, tp, sl, to)
}

/// The stale candidates among `m`.
pub open spec fn stale_set(
    m: Multiset<Cand>,
    tp: Seq<(u32, u32)>,
    sl: Map<u64, usize>,
    to: Seq<i64>,
) -> Multiset<Cand> {
    m.filter(|y: Cand| is_stale(y, tp, sl, to))
}

proof fn lemma_remove_stale(
    m: Multiset<Cand>,
    x: Cand,
    tp: Seq<(u32, u32)>,
    sl: Map<u64, usize>,
    to: Seq<i64>,
)
    requires
        m.count(x) > 0,
        is_stale(x, tp, sl, to),
    ensures
        m.remove(x).len() == m.len() - 1,
        stale_set(m.remove(x), tp, sl, to).len() == stale_set(m, tp, sl, to).len() - 1,
{
    assert(Multiset::singleton(x).subset_of(m)) by {
        assert forall|v: Cand| Multiset::singleton(x).count(v) <= m.count(v) by {
            if v == x {
            } else {
                assert(Multiset::singleton(x).count(v) == 0);
            }
        }
    }
    assert(stale_set(m.remove(x), tp, sl, to) =~= stale_set(m, tp, sl, to).remove(x));
    assert(stale_set(m, tp, sl, to).count(x) == m.count(x));
    assert(Multiset::singleton(x).subset_of(stale_set(m, tp, sl, to))) by {
        assert forall|v: Cand| Multiset::singleton(x).count(v) <= stale_set(
            m,
            tp,
            sl,
            to,
        ).count(v) by {
            if v == x {
            } else {
                assert(Multiset::singleton(x).count(v) == 0);
            }
        }
    }
}

proof fn lemma_insert_fresh(
    m: Multiset<Cand>,
    y: Cand,
    tp: Seq<(u32, u32)>,
    sl: Map<u64, usize>,
    to: Seq<i64>,
)
    requires
        !is_stale(y, tp, sl, to),
    ensures
        m.insert(y).len() == m.len() + 1,
        stale_set(m.insert(y), tp, sl, to) == stale_set(m, tp, sl, to),
{
    assert(stale_set(m.insert(y), tp, sl, to) =~= stale_set(m, tp, sl, to));
}

/// Appends `idx` to the position list collected for pair `p` during one
/// merge application, creating the list on first sight of the pair and
/// skipping the append when `idx` is already its last entry.
fn record_local(lp: &mut Vec<(u32, u32)>, lpos: &mut Vec<Vec<usize>>, p: (u32, u32), idx: usize)
    requires
        old(lp)@.len() == old(lpos)@.len(),
    ensures
        final(lp)@.len() == final(lpos)@.len(),
        forall|j: int, q: int|
            #![trigger final(lpos)@[j]@[q]]
            0 <= j < final(lpos)@.len() && 0 <= q < final(lpos)@[j]@.len()
                ==> (final(lpos)@[j]@[q] == idx || (j < old(lpos)@.len() && q < old(
                lpos)@[j]@.len() && final(lpos)@[j]@[q] == old(lpos)@[j]@[q])),
{
    let n = lp.len();
    let mut j: usize = 0;
    while j < n
        invariant
            n == lp@.len(),
            lp@.len() == lpos@.len(),
            j <= n,
            lp@ == old(lp)@,
            lpos@ == old(lpos)@,
            forall|q: int| 0 <= q < j ==> !(lp@[q].0 == p.0 && lp@[q].1 == p.1),
        decreases n - j,
    {
        let e = lp[j];
        if e.0 == p.0 && e.1 == p.1 {
            let mut entry: Vec<usize> = Vec::new();
            lpos.set_and_swap(j, &mut entry);
            let pl = entry.len();
            let already = pl > 0 && entry[pl - 1] == idx;
            if !already {
                entry.push(idx);
            }
            lpos.set_and_swap(j, &mut entry);
            return ;
        }
        j += 1;
    }
    lp.push(p);
    let mut fresh: Vec<usize> = Vec::new();
    fresh.push(idx);
    lpos.push(fresh);
}

/// The default GPT-4-style split pattern, as a sequence of characters.
pub open spec fn default_pattern_spec() -> Seq<char> {
    "'(?i:[sdmt]|ll|ve|re)|[^\\r\\n\\p{L}\\p{N}]?+\\p{L}+|\\p{N}{1,3}| ?[^\\s\\p{L}\\p{N}]++[\\r\\n]*|\\s*[\\r\\n]|\\s+(?!\\S)|\\s+"@
}

/// The pair `(a, b)` is a best first merge for the corpus: its
/// weighted count is positive, and every pair with a positive weighted
/// count either has a smaller count or, at an equal count, a pair key
/// at least as large.
pub open spec fn best_initial_pair(words: Seq<Word>, counts: Seq<i32>, a: u32, b: u32) -> bool {
    let n = words.len() as int;
    let k0 = pair_key(a, b);
    &&& corpus_count(words, counts, n, k0) > 0
    &&& forall|a2: u32, b2: u32|
        corpus_count(words, counts, n, #[trigger] pair_key(a2, b2)) > 0 ==> (corpus_count(
            words,
            counts,
            n,
            k0,
        ) > corpus_count(words, counts, n, pair_key(a2, b2)) || (corpus_count(words, counts, n, k0)
            == corpus_count(words, counts, n, pair_key(a2, b2)) && k0 <= pair_key(a2, b2)))
}

/// A BPE tokenizer in training: the insertion-ordered merge table it
/// has learned, and the pre-tokenizer split pattern it documents for
/// downstream compatibility (the pattern is applied upstream, never by
/// the trainer itself).
pub struct Tokenizer {
    pub merges: Vec<((u32, u32), u32)>,
    pub pattern: String,
}

impl Tokenizer {
    /// A fresh tokenizer with an empty merge table and the default
    /// GPT-4-style split pattern.
    pub fn new() -> (t: Tokenizer)
        ensures
            t.merges@.len() == 0,
            t.pattern@ == default_pattern_spec(),
    {
        Tokenizer {
            merges: Vec::new(),
            pattern:
                "'(?i:[sdmt]|ll|ve|re)|[^\\r\\n\\p{L}\\p{N}]?+\\p{L}+|\\p{N}{1,3}| ?[^\\s\\p{L}\\p{N}]++[\\r\\n]*|\\s*[\\r\\n]|\\s+(?!\\S)|\\s+".to_owned(),
        }
    }

    /// Looks a pair up in the learned merge table.
    pub fn lookup(&self, pair: (u32, u32)) -> (r: Option<u32>)
        ensures
            match r {
                Option::Some(id) => exists|j: int|
                    0 <= j < self.merges@.len() && self.merges@[j] == (pair, id),
                Option::None => forall|j: int|
                    0 <= j < self.merges@.len() ==> (#[trigger] self.merges@[j]).0 != pair,
            },
    {
        let n = self.merges.len();
        let mut j: usize = 0;
        while j < n
            invariant
                n == self.merges@.len(),
                j <= n,
                forall|q: int| 0 <= q < j ==> (#[trigger] self.merges@[q]).0 != pair,
            decreases n - j,
        {
            let e = self.merges[j];
            if e.0.0 == pair.0 && e.0.1 == pair.1 {
                proof {
                    assert(self.merges@[j as int] == (pair, e.1));
                }
                return Option::Some(e.1);
            }
            j += 1;
        }
        Option::None
    }

    /// Trains a BPE merge table: validates the request, aggregates the
    /// initial pair counts in parallel, then greedily merges the most
    /// frequent live pair (ties broken toward the smaller pair) until
    /// `vocab_size - 256` merges are recorded or no pair with a
    /// positive count remains. Assigned ids are exactly
    /// `256, 257, 258, ...` in insertion order; the first recorded
    /// pair is a most frequent pair of the corpus, the smallest on
    /// ties. On a rejected request the tokenizer is left unchanged.
    #[verifier::rlimit(100)]
    pub fn train_core_incremental(
        &mut self,
        words: Vec<Word>,
        counts: Vec<i32>,
        vocab_size: u32,
    ) -> (r: Result<(), TrainError>)
        requires
            total_weight(words@, counts@, words@.len() as int) <= i64::MAX,
        ensures
            r == Err::<(), TrainError>(TrainError::InvalidVocabSize) <==> vocab_size < 256,
            r == Err::<(), TrainError>(TrainError::LengthMismatch) <==> (vocab_size >= 256
                && words@.len() != counts@.len()),
            r == Err::<(), TrainError>(TrainError::NonPositiveCount) <==> (vocab_size >= 256
                && words@.len() == counts@.len() && exists|i: int|
                0 <= i < counts@.len() && counts@[i] < 1),
            r.is_ok() <==> (vocab_size >= 256 && words@.len() == counts@.len() && forall|i: int|
                0 <= i < counts@.len() ==> counts@[i] >= 1),
            r.is_ok() ==> final(self).merges@.len() <= vocab_size - 256,
            r.is_ok() ==> forall|j: int|
                0 <= j < final(self).merges@.len() ==> (#[trigger] final(self).merges@[j]).1 == 256
                    + j,
            r.is_ok() && vocab_size > 256 && (exists|k: u64|
                corpus_count(words@, counts@, words@.len() as int, k) > 0)
                ==> final(self).merges@.len() >= 1,
            r.is_ok() && final(self).merges@.len() >= 1 ==> best_initial_pair(
                words@,
                counts@,
                final(self).merges@[0].0.0,
                final(self).merges@[0].0.1,
            ),
            r.is_err() ==> final(self).merges == old(self).merges,
            final(self).pattern == old(self).pattern,
    {
        if vocab_size < 256 {
            return Err(TrainError::InvalidVocabSize);
        }
        if words.len() != counts.len() {
            return Err(TrainError::LengthMismatch);
        }
        let nwords = words.len();
        let mut ci: usize = 0;
        while ci < nwords
            invariant
                vocab_size >= 256,
                words@.len() == counts@.len(),
                nwords == counts@.len(),
                ci <= nwords,
                forall|i: int| 0 <= i < ci ==> counts@[i] >= 1,
            decreases nwords - ci,
        {
            if counts[ci] < 1 {
                proof {
                    assert(exists|i: int| 0 <= i < counts@.len() && counts@[i] < 1) by {
                        assert(0 <= ci < counts@.len() && counts@[ci as int] < 1);
                    }
                }
                return Err(TrainError::NonPositiveCount);
            }
            ci += 1;
        }
        let num_merges: u32 = vocab_size - 256;
        let mut words = words;
        let ghost wordsv0 = words@;

        // initial aggregation (parallel scans, sequential reduction)
        let stats = count_pairs_parallel(&words, &counts);
        let PairStats { keys: keys0, totals: totals0, pos: pos0, slots: slots0 } = stats;
        let mut keys = keys0;
        let mut totals = totals0;
        let mut pos = pos0;
        let mut slots = slots0;

        // seed the queue with every pair holding a positive count
        let mut heap = cand_heap_new();
        let mut tick_pair: Vec<(u32, u32)> = Vec::new();
        let mut tick_pos: Vec<Vec<usize>> = Vec::new();
        let nk = keys.len();
        let mut s: usize = 0;
        let mut seeded = false;
        while s < nk
            invariant
                nk == keys@.len(),
                totals@.len() == keys@.len(),
                pos@.len() == keys@.len(),
                s <= nk,
                forall|k: u64| #[trigger]
                    slots@.contains_key(k) ==> slots@[k] < keys@.len() && keys@[slots@[k] as int]
                        == k,
                forall|s2: int|
                    0 <= s2 < keys@.len() ==> slots@.contains_key(#[trigger] keys@[s2])
                        && slots@[keys@[s2]] == s2,
                forall|s2: int| 0 <= s2 < s && totals@[s2] > 0 ==> seeded,
                seeded ==> heap_items(heap).len() > 0,
                forall|x: Cand|
                    #![trigger heap_items(heap).count(x)]
                    heap_items(heap).count(x) > 0 ==> !is_stale(x, tick_pair@, slots@, totals@)
                        && x.0 > 0 && x.1 == inv_key(
                        tick_pair@[x.2 as int].0,
                        tick_pair@[x.2 as int].1,
                    ),
                forall|s2: int|
                    #![trigger totals@[s2]]
                    0 <= s2 < s && totals@[s2] > 0 ==> exists|t2: int|
                        0 <= t2 < tick_pair@.len() && pair_key(
                            tick_pair@[t2].0,
                            tick_pair@[t2].1,
                        ) == keys@[s2] && heap_items(heap).count(
                            ((totals@[s2] as u64, (u64::MAX - keys@[s2]) as u64, t2 as usize)),
                        ) > 0,
                tick_pair@.len() == tick_pos@.len(),
                forall|x: Cand|
                    #![trigger heap_items(heap).count(x)]
                    heap_items(heap).count(x) > 0 ==> x.2 < tick_pair@.len(),
                forall|t: int, q: int|
                    #![trigger tick_pos@[t]@[q]]
                    0 <= t < tick_pos@.len() && 0 <= q < tick_pos@[t]@.len() ==> tick_pos@[t]@[q]
                        < wordsv0.len(),
                forall|s2: int|
                    s <= s2 < nk ==> crate::agg::pos_exact(
                        (#[trigger] pos@[s2])@,
                        wordsv0,
                        keys@[s2],
                    ),
                words@ == wordsv0,
            decreases nk - s,
        {
            let c = totals[s];
            if c > 0 {
                let p = unpack_key(keys[s]);
                let mut taken: Vec<usize> = Vec::new();
                pos.set_and_swap(s, &mut taken);
                let t = tick_pair.len();
                let ghost tpold = tick_pair@;
                let ghost hold = heap_items(heap);
                tick_pair.push(p);
                tick_pos.push(taken);
                let item = (c as u64, make_inv_key(p.0, p.1), t);
                cand_heap_push(&mut heap, item);
                seeded = true;
                proof {
                    assert(tick_pair@[t as int] == p);
                    assert(pair_key(p.0, p.1) == keys@[s as int]);
                    assert(slots@.contains_key(keys@[s as int]) && slots@[keys@[s as int]]
                        == s as usize);
                    assert(live_of(item, tick_pair@, slots@, totals@) == c as u64);
                    assert forall|x: Cand|
                        heap_items(heap).count(x) > 0 implies !is_stale(
                        x,
                        tick_pair@,
                        slots@,
                        totals@,
                    ) && x.0 > 0 && x.1 == inv_key(
                        tick_pair@[x.2 as int].0,
                        tick_pair@[x.2 as int].1,
                    ) by {
                        if x == item {
                            assert(item.1 == inv_key(p.0, p.1));
                        } else {
                            assert(hold.count(x) > 0);
                            assert(!is_stale(x, tpold, slots@, totals@));
                            assert(x.2 < tpold.len());
                            assert(tick_pair@[x.2 as int] == tpold[x.2 as int]);
                            assert(live_of(x, tick_pair@, slots@, totals@) == live_of(
                                x,
                                tpold,
                                slots@,
                                totals@,
                            ));
                        }
                    }
                    assert forall|s2: int|
                        #![trigger totals@[s2]]
                        0 <= s2 <= s && totals@[s2] > 0 implies exists|t2: int|
                            0 <= t2 < tick_pair@.len() && pair_key(
                                tick_pair@[t2].0,
                                tick_pair@[t2].1,
                            ) == keys@[s2] && heap_items(heap).count(
                                ((totals@[s2] as u64, (u64::MAX - keys@[s2]) as u64, t2 as usize)),
                            ) > 0 by {
                        if s2 == s {
                            assert(totals@[s2] == c);
                            assert(pair_key(tick_pair@[t as int].0, tick_pair@[t as int].1)
                                == keys@[s2]);
                            assert(item == ((
                                totals@[s2] as u64,
                                (u64::MAX - keys@[s2]) as u64,
                                t as usize,
                            )));
                            assert(heap_items(heap).count(item) > 0);
                            assert(0 <= (t as int) && (t as int) < tick_pair@.len());
                        } else {
                            assert(exists|t2: int|
                                0 <= t2 < tpold.len() && pair_key(tpold[t2].0, tpold[t2].1)
                                    == keys@[s2] && hold.count(
                                    ((
                                        totals@[s2] as u64,
                                        (u64::MAX - keys@[s2]) as u64,
                                        t2 as usize,
                                    )),
                                ) > 0);
                            let t2 = choose|t2: int|
                                0 <= t2 < tpold.len() && pair_key(tpold[t2].0, tpold[t2].1)
                                    == keys@[s2] && hold.count(
                                    ((
                                        totals@[s2] as u64,
                                        (u64::MAX - keys@[s2]) as u64,
                                        t2 as usize,
                                    )),
                                ) > 0;
                            assert(tick_pair@[t2] == tpold[t2]);
                            assert(heap_items(heap).count(
                                ((totals@[s2] as u64, (u64::MAX - keys@[s2]) as u64, t2 as usize)),
                            ) > 0);
                        }
                    }
                }
            }
            s += 1;
        }
        let ghost exk = exists|k: u64|
            corpus_count(wordsv0, counts@, wordsv0.len() as int, k) > 0;
        proof {
            if exk {
                let kw = choose|k: u64|
                    corpus_count(wordsv0, counts@, wordsv0.len() as int, k) > 0;
                assert(slots@.contains_key(kw));
                assert(totals@[slots@[kw] as int] > 0);
                assert(seeded);
            }
        }

        // greedy merge loop with lazy invalidation
        self.merges = Vec::new();
        let mut merges_done: u32 = 0;
        loop
            invariant
                merges_done <= num_merges,
                self.merges@.len() == merges_done,
                forall|j: int|
                    0 <= j < merges_done ==> (#[trigger] self.merges@[j]).1 == 256 + j,
                self.pattern == old(self).pattern,
                num_merges == vocab_size - 256,
                vocab_size >= 256,
                totals@.len() == keys@.len(),
                forall|k: u64| #[trigger]
                    slots@.contains_key(k) ==> slots@[k] < keys@.len() && keys@[slots@[k] as int]
                        == k,
                forall|s2: int|
                    0 <= s2 < keys@.len() ==> slots@.contains_key(#[trigger] keys@[s2])
                        && slots@[keys@[s2]] == s2,
                tick_pair@.len() == tick_pos@.len(),
                forall|x: Cand|
                    #![trigger heap_items(heap).count(x)]
                    heap_items(heap).count(x) > 0 ==> x.2 < tick_pair@.len(),
                forall|t: int, q: int|
                    #![trigger tick_pos@[t]@[q]]
                    0 <= t < tick_pos@.len() && 0 <= q < tick_pos@[t]@.len() ==> tick_pos@[t]@[q]
                        < words@.len(),
                words@.len() == wordsv0.len(),
                counts@.len() == wordsv0.len(),
                forall|i2: int| 0 <= i2 < counts@.len() ==> counts@[i2] >= 1,
                total_weight(wordsv0, counts@, wordsv0.len() as int) <= i64::MAX,
                merges_done == 0 ==> forall|x: Cand|
                    #![trigger heap_items(heap).count(x)]
                    heap_items(heap).count(x) > 0 ==> !is_stale(x, tick_pair@, slots@, totals@)
                        && x.0 > 0 && x.1 == inv_key(
                        tick_pair@[x.2 as int].0,
                        tick_pair@[x.2 as int].1,
                    ),
                merges_done == 0 ==> forall|k2: u64| #[trigger]
                    slots@.contains_key(k2) ==> totals@[slots@[k2] as int] == corpus_count(
                        wordsv0,
                        counts@,
                        wordsv0.len() as int,
                        k2,
                    ),
                merges_done == 0 ==> forall|k2: u64|
                    !(#[trigger] slots@.contains_key(k2)) ==> corpus_count(
                        wordsv0,
                        counts@,
                        wordsv0.len() as int,
                        k2,
                    ) == 0,
                merges_done == 0 ==> forall|s2: int|
                    #![trigger totals@[s2]]
                    0 <= s2 < keys@.len() && totals@[s2] > 0 ==> exists|t2: int|
                        0 <= t2 < tick_pair@.len() && pair_key(
                            tick_pair@[t2].0,
                            tick_pair@[t2].1,
                        ) == keys@[s2] && heap_items(heap).count(
                            ((totals@[s2] as u64, (u64::MAX - keys@[s2]) as u64, t2 as usize)),
                        ) > 0,
                merges_done >= 1 ==> best_initial_pair(
                    wordsv0,
                    counts@,
                    self.merges@[0].0.0,
                    self.merges@[0].0.1,
                ),
                exk ==> merges_done >= 1 || heap_items(heap).len() > 0,
            ensures
                exk && num_merges >= 1 ==> merges_done >= 1,
            decreases (num_merges - merges_done) as int, stale_set(
                heap_items(heap),
                tick_pair@,
                slots@,
                totals@,
            ).len() + heap_items(heap).len(),
        {
            if merges_done >= num_merges {
                break ;
            }
            let ghost h0 = heap_items(heap);
            let ghost tp0 = tick_pair@;
            let ghost sl0 = slots@;
            let ghost to0 = totals@;
            let popped = cand_heap_pop(&mut heap);
            let top: Cand = match popped {
                Option::Some(t) => t,
                Option::None => {
                    proof {
                        assert(h0.len() == 0);
                    }
                    break ;
                },
            };
            let t = top.2;
            let pair = tick_pair[t];
            let k = make_pair_key(pair.0, pair.1);
            let live: i64 = match slots.get(&k) {
                Option::Some(s0) => totals[*s0],
                Option::None => 0,
            };
            let live_u: u64 = if live > 0 {
                live as u64
            } else {
                0
            };
            proof {
                assert(live_u == live_of(top, tp0, sl0, to0));
            }
            // lazy refresh: a stale snapshot is corrected and re-queued
            if top.0 != live_u {
                proof {
                    if merges_done == 0 {
                        assert(h0.count(top) > 0);
                        assert(!is_stale(top, tp0, sl0, to0));
                        assert(false);
                    }
                    lemma_remove_stale(h0, top, tp0, sl0, to0);
                }
                if live_u > 0 {
                    let fresh_cand = (live_u, make_inv_key(pair.0, pair.1), t);
                    proof {
                        assert(live_of(fresh_cand, tp0, sl0, to0) == live_u);
                        lemma_insert_fresh(h0.remove(top), fresh_cand, tp0, sl0, to0);
                    }
                    cand_heap_push(&mut heap, fresh_cand);
                }
                continue ;
            }
            if live_u == 0 {
                proof {
                    if merges_done == 0 {
                        assert(h0.count(top) > 0);
                        assert(!is_stale(top, tp0, sl0, to0) && top.0 > 0);
                        assert(false);
                    }
                }
                break ;
            }
            // accept the merge
            let new_id: u32 = 256 + merges_done;
            proof {
                if merges_done == 0 {
                    // the first accepted pair is a best initial pair: the queue
                    // held a fresh candidate for every positive-count pair, and
                    // the popped one ranks at least as high as each of them
                    let n0 = wordsv0.len() as int;
                    let k0 = pair_key(pair.0, pair.1);
                    assert(h0.count(top) > 0);
                    assert(tp0[t as int] == pair);
                    assert(top.1 == inv_key(pair.0, pair.1));
                    assert(top.0 == live_u && live_u > 0 && live > 0);
                    assert(sl0.contains_key(k0) && to0[sl0[k0] as int] == live);
                    assert(corpus_count(wordsv0, counts@, n0, k0) == live as int);
                    lemma_cc_bounds(wordsv0, counts@, n0, k0);
                    assert forall|a2: u32, b2: u32|
                        corpus_count(wordsv0, counts@, n0, #[trigger] pair_key(a2, b2))
                            > 0 implies (corpus_count(wordsv0, counts@, n0, k0) > corpus_count(
                        wordsv0,
                        counts@,
                        n0,
                        pair_key(a2, b2),
                    ) || (corpus_count(wordsv0, counts@, n0, k0) == corpus_count(
                        wordsv0,
                        counts@,
                        n0,
                        pair_key(a2, b2),
                    ) && k0 <= pair_key(a2, b2))) by {
                        let k2 = pair_key(a2, b2);
                        assert(sl0.contains_key(k2));
                        let s2 = sl0[k2] as int;
                        assert(keys@[s2] == k2);
                        assert(to0[s2] == corpus_count(wordsv0, counts@, n0, k2));
                        assert(0 <= s2 < keys@.len() && to0[s2] > 0);
                        lemma_cc_bounds(wordsv0, counts@, n0, k2);
                        assert(exists|t2: int|
                            0 <= t2 < tp0.len() && pair_key(tp0[t2].0, tp0[t2].1) == k2
                                && h0.count(
                                ((to0[s2] as u64, (u64::MAX - k2) as u64, t2 as usize)),
                            ) > 0);
                        let t2 = choose|t2: int|
                            0 <= t2 < tp0.len() && pair_key(tp0[t2].0, tp0[t2].1) == k2
                                && h0.count(
                                ((to0[s2] as u64, (u64::MAX - k2) as u64, t2 as usize)),
                            ) > 0;
                        let item2 = ((to0[s2] as u64, (u64::MAX - k2) as u64, t2 as usize));
                        assert(h0.count(item2) > 0);
                        assert(cand_le(item2, top));
                        assert(item2.0 == corpus_count(wordsv0, counts@, n0, k2) as u64);
                        assert(top.0 == corpus_count(wordsv0, counts@, n0, k0) as u64);
                        assert(top.1 == (u64::MAX - k0) as u64);
                    }
                    assert(best_initial_pair(wordsv0, counts@, pair.0, pair.1));
                }
            }
            self.merges.push((pair, new_id));
            proof {
                if merges_done == 0 {
                    assert(self.merges@[0] == ((pair, new_id)));
                }
            }
            // apply it to exactly the words in the candidate's position set
            let mut poslist: Vec<usize> = Vec::new();
            tick_pos.set_and_swap(t, &mut poslist);
            let mut local_pairs: Vec<(u32, u32)> = Vec::new();
            let mut local_pos: Vec<Vec<usize>> = Vec::new();
            let np = poslist.len();
            let mut q: usize = 0;
            while q < np
                invariant
                    np == poslist@.len(),
                    q <= np,
                    forall|q2: int| 0 <= q2 < np ==> poslist@[q2] < words@.len(),
                    words@.len() == wordsv0.len(),
                    counts@.len() == wordsv0.len(),
                    totals@.len() == keys@.len(),
                    forall|k2: u64| #[trigger]
                        slots@.contains_key(k2) ==> slots@[k2] < keys@.len() && keys@[slots@[k2] as int]
                            == k2,
                    forall|s2: int|
                        0 <= s2 < keys@.len() ==> slots@.contains_key(#[trigger] keys@[s2])
                            && slots@[keys@[s2]] == s2,
                    local_pairs@.len() == local_pos@.len(),
                    forall|j2: int, q2: int|
                        #![trigger local_pos@[j2]@[q2]]
                        0 <= j2 < local_pos@.len() && 0 <= q2 < local_pos@[j2]@.len()
                            ==> local_pos@[j2]@[q2] < words@.len(),
                decreases np - q,
            {
                let idx = poslist[q];
                let mut w = Word::new(Vec::new());
                words.set_and_swap(idx, &mut w);
                let ds = w.merge_pair(pair, new_id);
                words.set_and_swap(idx, &mut w);
                let cw: i64 = counts[idx] as i64;
                let nd = ds.len();
                let mut r: usize = 0;
                while r < nd
                    invariant
                        nd == ds@.len(),
                        r <= nd,
                        -0x8000_0000 <= cw as int <= 0x7fff_ffff,
                        idx < words@.len(),
                        words@.len() == wordsv0.len(),
                        totals@.len() == keys@.len(),
                        forall|k2: u64| #[trigger]
                            slots@.contains_key(k2) ==> slots@[k2] < keys@.len()
                                && keys@[slots@[k2] as int] == k2,
                        forall|s2: int|
                            0 <= s2 < keys@.len() ==> slots@.contains_key(#[trigger] keys@[s2])
                                && slots@[keys@[s2]] == s2,
                        local_pairs@.len() == local_pos@.len(),
                        forall|j2: int, q2: int|
                            #![trigger local_pos@[j2]@[q2]]
                            0 <= j2 < local_pos@.len() && 0 <= q2 < local_pos@[j2]@.len()
                                ==> local_pos@[j2]@[q2] < words@.len(),
                    decreases nd - r,
                {
                    let (dp, delta) = ds[r];
                    proof {
                        assert(-0x4000_0000_0000_0000 <= (delta as int) * (cw as int)
                            <= 0x4000_0000_0000_0000) by (nonlinear_arith)
                            requires
                                -0x8000_0000 <= delta as int <= 0x7fff_ffff,
                                -0x8000_0000 <= cw as int <= 0x7fff_ffff,
                        ;
                    }
                    let dt: i64 = (delta as i64) * cw;
                    if dt != 0 {
                        let pk = make_pair_key(dp.0, dp.1);
                        let so: Option<usize> = match slots.get(&pk) {
                            Option::Some(s0) => Option::Some(*s0),
                            Option::None => Option::None,
                        };
                        let sl: usize = match so {
                            Option::Some(s0) => s0,
                            Option::None => {
                                let ns = keys.len();
                                keys.push(pk);
                                totals.push(0);
                                slots.insert(pk, ns);
                                ns
                            },
                        };
                        let cur = totals[sl];
                        totals.set(sl, sat_add(cur, dt));
                        if delta > 0 {
                            record_local(&mut local_pairs, &mut local_pos, dp, idx);
                        }
                    }
                    r += 1;
                }
                q += 1;
            }
            // push refreshed candidates for the pairs that gained positions
            let nl = local_pairs.len();
            let mut j: usize = 0;
            while j < nl
                invariant
                    nl == local_pairs@.len(),
                    local_pairs@.len() == local_pos@.len(),
                    j <= nl,
                    totals@.len() == keys@.len(),
                    forall|k2: u64| #[trigger]
                        slots@.contains_key(k2) ==> slots@[k2] < keys@.len()
                            && keys@[slots@[k2] as int] == k2,
                    tick_pair@.len() == tick_pos@.len(),
                    forall|x: Cand|
                        #![trigger heap_items(heap).count(x)]
                        heap_items(heap).count(x) > 0 ==> x.2 < tick_pair@.len(),
                    forall|t2: int, q2: int|
                        #![trigger tick_pos@[t2]@[q2]]
                        0 <= t2 < tick_pos@.len() && 0 <= q2 < tick_pos@[t2]@.len()
                            ==> tick_pos@[t2]@[q2] < words@.len(),
                    forall|j2: int, q2: int|
                        #![trigger local_pos@[j2]@[q2]]
                        0 <= j2 < local_pos@.len() && 0 <= q2 < local_pos@[j2]@.len()
                            ==> local_pos@[j2]@[q2] < words@.len(),
                decreases nl - j,
            {
                let p = local_pairs[j];
                let pk = make_pair_key(p.0, p.1);
                let live2: i64 = match slots.get(&pk) {
                    Option::Some(s0) => totals[*s0],
                    Option::None => 0,
                };
                if live2 > 0 {
                    let mut taken: Vec<usize> = Vec::new();
                    local_pos.set_and_swap(j, &mut taken);
                    let t2 = tick_pair.len();
                    tick_pair.push(p);
                    tick_pos.push(taken);
                    cand_heap_push(&mut heap, (live2 as u64, make_inv_key(p.0, p.1), t2));
                }
                j += 1;
            }
            merges_done = merges_done + 1;
        }
        Ok(())
    }
}

} // verus!
