//! Pair aggregation: the global weighted count of every adjacent id pair
//! across all words, together with the set of word indices containing
//! each pair. The per-word scans run in parallel; the combination into
//! the global tables is a single-threaded, verified reduction.

use vstd::prelude::*;
use std::collections::HashMap;
use rayon::iter::{IndexedParallelIterator, IntoParallelRefIterator, ParallelIterator};
use crate::word::{adj_rec, delta_sum, lemma_deltas_track_pairs, lemma_merge_len, lemma_occurrences_are_adjacencies, merged, occurrences, pair_key, pair_keys_seq, word_deltas, Word};

verus! {

broadcast use vstd::std_specs::hash::group_hash_axioms;

/// How many of the first `t` entries of `ks` equal `k`.
pub open spec fn kc_rec(ks: Seq<u64>, k: u64, t: int) -> int
    decreases t,
{
    if t <= 0 {
        0
    } else {
        kc_rec(ks, k, t - 1) + if ks[t - 1] == k {
            1int
        } else {
            0int
        }
    }
}

/// How many entries of `ks` equal `k`.
pub open spec fn key_count(ks: Seq<u64>, k: u64) -> int {
    kc_rec(ks, k, ks.len() as int)
}

/// The brute-force weighted count of the pair with key `k` over the
/// first `n` words: the sum of `counts[i]` times the number of adjacent
/// occurrences of the pair in word `i`.
pub open spec fn corpus_count(words: Seq<Word>, counts: Seq<i32>, n: int, k: u64) -> int
    decreases n,
{
    if n <= 0 {
        0
    } else {
        corpus_count(words, counts, n - 1, k) + (counts[n - 1] as int) * key_count(
            pair_keys_seq(words[n - 1]@),
            k,
        )
    }
}

/// The weighted total length of the first `n` words:
/// the sum of `counts[i]` times the length of word `i`.
pub open spec fn total_weight(words: Seq<Word>, counts: Seq<i32>, n: int) -> int
    decreases n,
{
    if n <= 0 {
        0
    } else {
        total_weight(words, counts, n - 1) + (counts[n - 1] as int) * words[n - 1]@.len()
    }
}

/// Word `w` contains at least one adjacent occurrence of the pair with
/// key `k`.
pub open spec fn word_has_key(w: Word, k: u64) -> bool {
    key_count(pair_keys_seq(w@), k) > 0
}

/// `ps` is strictly increasing.
pub open spec fn strict_sorted(ps: Seq<usize>) -> bool {
    forall|q1: int, q2: int|
        #![trigger ps[q1], ps[q2]]
        0 <= q1 < q2 < ps.len() ==> ps[q1] < ps[q2]
}

/// `ps` is exactly the sorted set of indices below `n` of words
/// containing the pair with key `k`.
pub open spec fn pos_pre(ps: Seq<usize>, words: Seq<Word>, n: int, k: u64) -> bool {
    &&& strict_sorted(ps)
    &&& forall|q: int|
        0 <= q < ps.len() ==> (#[trigger] ps[q]) < n && word_has_key(words[ps[q] as int], k)
    &&& forall|t: int|
        0 <= t < n && word_has_key(#[trigger] words[t], k) ==> ps.contains(t as usize)
}

/// `ps` is exactly the sorted set of indices of words containing the
/// pair with key `k`.
pub open spec fn pos_exact(ps: Seq<usize>, words: Seq<Word>, k: u64) -> bool {
    pos_pre(ps, words, words.len() as int, k)
}

proof fn lemma_kc_bounds(ks: Seq<u64>, k: u64, t: int)
    ensures
        0 <= kc_rec(ks, k, t),
        kc_rec(ks, k, t) <= if t <= 0 {
            0int
        } else {
            t
        },
    decreases t,
{
    if t > 0 {
        lemma_kc_bounds(ks, k, t - 1);
    }
}

proof fn lemma_kc_monotone(ks: Seq<u64>, k: u64, t1: int, t2: int)
    requires
        t1 <= t2,
    ensures
        kc_rec(ks, k, t1) <= kc_rec(ks, k, t2),
    decreases t2 - t1,
{
    if t1 < t2 {
        lemma_kc_monotone(ks, k, t1, t2 - 1);
        lemma_kc_bounds(ks, k, t2 - 1);
    }
}

/// A pair's weighted corpus count over `n` words is between zero and
/// the weighted total length.
pub proof fn lemma_cc_bounds(words: Seq<Word>, counts: Seq<i32>, n: int, k: u64)
    requires
        n <= words.len(),
        words.len() == counts.len(),
        forall|i: int| 0 <= i < counts.len() ==> counts[i] >= 1,
    ensures
        0 <= corpus_count(words, counts, n, k),
        corpus_count(words, counts, n, k) <= total_weight(words, counts, n),
    decreases n,
{
    if n > 0 {
        lemma_cc_bounds(words, counts, n - 1, k);
        let ks = pair_keys_seq(words[n - 1]@);
        let len = words[n - 1]@.len() as int;
        lemma_kc_bounds(ks, k, ks.len() as int);
        assert(key_count(ks, k) <= len);
        let c = counts[n - 1] as int;
        assert(0 <= c * key_count(ks, k) && c * key_count(ks, k) <= c * len) by (nonlinear_arith)
            requires
                c >= 1,
                0 <= key_count(ks, k) <= len,
        ;
    }
}

proof fn lemma_tw_monotone(words: Seq<Word>, counts: Seq<i32>, n: int, m: int)
    requires
        0 <= n <= m <= words.len(),
        words.len() == counts.len(),
        forall|i: int| 0 <= i < counts.len() ==> counts[i] >= 1,
    ensures
        total_weight(words, counts, n) <= total_weight(words, counts, m),
    decreases m - n,
{
    if n < m {
        lemma_tw_monotone(words, counts, n, m - 1);
        let c = counts[m - 1] as int;
        let len = words[m - 1]@.len() as int;
        assert(c * len >= 0) by (nonlinear_arith)
            requires
                c >= 1,
                len >= 0,
        ;
    }
}

/// If some word before `n` contains the pair, the weighted corpus count
/// over the first `n` words is positive.
proof fn lemma_cc_word_pos(words: Seq<Word>, counts: Seq<i32>, n: int, t: int, k: u64)
    requires
        0 <= t < n <= words.len(),
        words.len() == counts.len(),
        forall|i: int| 0 <= i < counts.len() ==> counts[i] >= 1,
        word_has_key(words[t], k),
    ensures
        corpus_count(words, counts, n, k) > 0,
    decreases n,
{
    lemma_cc_bounds(words, counts, n - 1, k);
    let ks = pair_keys_seq(words[n - 1]@);
    lemma_kc_bounds(ks, k, ks.len() as int);
    if t == n - 1 {
        assert((counts[t] as int) * key_count(ks, k) >= 1) by (nonlinear_arith)
            requires
                counts[t] >= 1,
                key_count(ks, k) >= 1,
        ;
    } else {
        lemma_cc_word_pos(words, counts, n - 1, t, k);
        assert((counts[n - 1] as int) * key_count(ks, k) >= 0) by (nonlinear_arith)
            requires
                counts[n - 1] >= 1,
                key_count(ks, k) >= 0,
        ;
    }
}

/// Index `t` belongs to the position set of key `k` in the middle of a
/// scan of word `i`: either an earlier word contains the pair, or the
/// current word has shown an occurrence among its first `j` pairs.
pub open spec fn in_mid(t: int, words: Seq<Word>, i: int, row: Seq<u64>, j: int, k: u64) -> bool {
    (0 <= t < i && word_has_key(words[t], k)) || (t == i && kc_rec(row, k, j) > 0)
}

/// Mid-scan position invariant for one slot.
pub open spec fn pos_mid(
    ps: Seq<usize>,
    words: Seq<Word>,
    i: int,
    row: Seq<u64>,
    j: int,
    k: u64,
) -> bool {
    &&& strict_sorted(ps)
    &&& forall|q: int| 0 <= q < ps.len() ==> in_mid((#[trigger] ps[q]) as int, words, i, row, j, k)
    &&& forall|t: int| #[trigger] in_mid(t, words, i, row, j, k) ==> ps.contains(t as usize)
}

proof fn lemma_pos_enter(ps: Seq<usize>, words: Seq<Word>, i: int, row: Seq<u64>, k: u64)
    requires
        pos_pre(ps, words, i, k),
    ensures
        pos_mid(ps, words, i, row, 0, k),
{
    assert forall|t: int| #[trigger] in_mid(t, words, i, row, 0, k) implies ps.contains(
        t as usize,
    ) by {
        assert(kc_rec(row, k, 0) == 0);
        assert(0 <= t < i && word_has_key(words[t], k));
    }
}

proof fn lemma_pos_exit(ps: Seq<usize>, words: Seq<Word>, i: int, row: Seq<u64>, k: u64)
    requires
        0 <= i < words.len(),
        row == pair_keys_seq(words[i]@),
        pos_mid(ps, words, i, row, row.len() as int, k),
    ensures
        pos_pre(ps, words, i + 1, k),
{
    assert forall|t: int| 0 <= t < i + 1 && word_has_key(#[trigger] words[t], k) implies ps
        .contains(t as usize) by {
        if t == i {
            assert(in_mid(t, words, i, row, row.len() as int, k));
        } else {
            assert(in_mid(t, words, i, row, row.len() as int, k));
        }
    }
    assert forall|q: int| 0 <= q < ps.len() implies (#[trigger] ps[q]) < i + 1 && word_has_key(
        words[ps[q] as int],
        k,
    ) by {
        assert(in_mid(ps[q] as int, words, i, row, row.len() as int, k));
    }
}

/// Stepping past pair `j` of the current word leaves the position set
/// of every other key as it was.
proof fn lemma_pos_same(
    ps: Seq<usize>,
    words: Seq<Word>,
    i: int,
    row: Seq<u64>,
    j: int,
    k: u64,
)
    requires
        0 <= j < row.len(),
        row[j] != k,
        pos_mid(ps, words, i, row, j, k),
    ensures
        pos_mid(ps, words, i, row, j + 1, k),
{
    assert(kc_rec(row, k, j + 1) == kc_rec(row, k, j));
    assert forall|t: int| #[trigger] in_mid(t, words, i, row, j + 1, k) implies ps.contains(
        t as usize,
    ) by {
        assert(in_mid(t, words, i, row, j, k));
    }
    assert forall|q: int| 0 <= q < ps.len() implies in_mid(
        (#[trigger] ps[q]) as int,
        words,
        i,
        row,
        j,
        k,
    ) && in_mid(ps[q] as int, words, i, row, j + 1, k) by {
        assert(in_mid(ps[q] as int, words, i, row, j, k));
    }
}

/// Stepping past pair `j`, which is an occurrence of key `k`: the
/// current word index joins the position set, once.
proof fn lemma_pos_step(
    psold: Seq<usize>,
    psnew: Seq<usize>,
    words: Seq<Word>,
    i: usize,
    row: Seq<u64>,
    j: int,
    k: u64,
    pushed: bool,
)
    requires
        0 <= j < row.len(),
        row[j] == k,
        (i as int) < words.len(),
        pos_mid(psold, words, i as int, row, j, k),
        pushed == !(psold.len() > 0 && psold[psold.len() - 1] == i),
        psnew == if pushed {
            psold.push(i)
        } else {
            psold
        },
    ensures
        pos_mid(psnew, words, i as int, row, j + 1, k),
{
    lemma_kc_bounds(row, k, j);
    assert(kc_rec(row, k, j + 1) == kc_rec(row, k, j) + 1);
    assert forall|q: int| 0 <= q < psold.len() implies (#[trigger] psold[q]) <= i by {
        assert(in_mid(psold[q] as int, words, i as int, row, j, k));
    }
    if pushed {
        assert forall|q: int| 0 <= q < psold.len() implies (#[trigger] psold[q]) < i by {
            assert(in_mid(psold[q] as int, words, i as int, row, j, k));
            if psold[q] == i {
                if q < psold.len() - 1 {
                    assert(psold[q] < psold[psold.len() - 1]);
                }
            }
        }
        assert(strict_sorted(psnew)) by {
            assert forall|q1: int, q2: int|
                #![trigger psnew[q1], psnew[q2]]
                0 <= q1 < q2 < psnew.len() implies psnew[q1] < psnew[q2] by {
                if q2 < psnew.len() - 1 {
                    assert(psold[q1] < psold[q2]);
                } else {
                    assert(psnew[q2] == i);
                    assert(psnew[q1] == psold[q1]);
                }
            }
        }
        assert forall|q: int| 0 <= q < psnew.len() implies in_mid(
            (#[trigger] psnew[q]) as int,
            words,
            i as int,
            row,
            j + 1,
            k,
        ) by {
            if q < psnew.len() - 1 {
                assert(in_mid(psold[q] as int, words, i as int, row, j, k));
            } else {
                assert(psnew[q] == i);
            }
        }
        assert forall|t: int| #[trigger] in_mid(t, words, i as int, row, j + 1, k) implies psnew
            .contains(t as usize) by {
            if t == i as int {
                assert(psnew[psnew.len() - 1] == i);
            } else {
                assert(in_mid(t, words, i as int, row, j, k));
                let q = choose|q: int| 0 <= q < psold.len() && psold[q] == t as usize;
                assert(psnew[q] == t as usize);
            }
        }
    } else {
        assert(psold.len() > 0 && psold[psold.len() - 1] == i);
        assert(in_mid(i as int, words, i as int, row, j, k));
        assert forall|q: int| 0 <= q < psnew.len() implies in_mid(
            (#[trigger] psnew[q]) as int,
            words,
            i as int,
            row,
            j + 1,
            k,
        ) by {
            assert(in_mid(psnew[q] as int, words, i as int, row, j, k));
        }
        assert forall|t: int| #[trigger] in_mid(t, words, i as int, row, j + 1, k) implies psnew
            .contains(t as usize) by {
            if t == i as int {
                assert(psnew[psnew.len() - 1] == i);
            } else {
                assert(in_mid(t, words, i as int, row, j, k));
            }
        }
    }
}

/// The aggregated pair statistics. Each distinct pair key occupies one
/// slot: `keys[s]` is the packed pair, `totals[s]` its weighted count,
/// `pos[s]` the sorted indices of the words containing it, and `slots`
/// maps a key back to its slot.
pub struct PairStats {
    pub keys: Vec<u64>,
    pub totals: Vec<i64>,
    pub pos: Vec<Vec<usize>>,
    pub slots: HashMap<u64, usize>,
}

impl PairStats {
    /// The slot table is well formed: the three columns are aligned and
    /// `slots` is a bijection between the keys and their slot numbers.
    pub open spec fn wf(&self) -> bool {
        &&& self.totals@.len() == self.keys@.len()
        &&& self.pos@.len() == self.keys@.len()
        &&& forall|k: u64| #[trigger]
            self.slots@.contains_key(k) ==> self.slots@[k] < self.keys@.len()
                && self.keys@[self.slots@[k] as int] == k
        &&& forall|s: int|
            0 <= s < self.keys@.len() ==> self.slots@.contains_key(#[trigger] self.keys@[s])
                && self.slots@[self.keys@[s]] == s
    }
}

/// Relies on rayon's `par_iter`, `map` and `collect_into_vec`: the
/// indexed parallel map yields one result per word, and the indexed
/// collect writes each result into that word's slot, so the output is
/// in word order whatever the partitioning; the closure only calls the
/// verified `Word::pair_keys`.
#[verifier::external_body]
fn pair_keys_parallel(words: &Vec<Word>) -> (r: Vec<Vec<u64>>)
    ensures
        r@.len() == words@.len(),
        forall|i: int| 0 <= i < words@.len() ==> r@[i]@ == pair_keys_seq(words@[i]@),
{
    let mut r: Vec<Vec<u64>> = Vec::new();
    words.par_iter().map(|w| w.pair_keys()).collect_into_vec(&mut r);
    r
}

/// Computes, for every adjacent id pair over all words, the weighted
/// global count (the sum over words of the word's frequency times the
/// pair's occurrences in it) and the exact set of word indices
/// containing the pair. The per-word pair scans run in parallel; the
/// reduction is sequential and index-ordered, so the result does not
/// depend on worker partitioning or scheduling.
#[verifier::rlimit(100)]
pub fn count_pairs_parallel(words: &Vec<Word>, counts: &Vec<i32>) -> (r: PairStats)
    requires
        words@.len() == counts@.len(),
        forall|i: int| 0 <= i < counts@.len() ==> counts@[i] >= 1,
        total_weight(words@, counts@, words@.len() as int) <= i64::MAX,
    ensures
        stats_exact(r, words@, counts@),
{
    let mut keyss = pair_keys_parallel(words);
    let mut keys: Vec<u64> = Vec::new();
    let mut totals: Vec<i64> = Vec::new();
    let mut pos: Vec<Vec<usize>> = Vec::new();
    let mut slots: HashMap<u64, usize> = HashMap::new();
    let ghost wordsv = words@;
    let ghost countsv = counts@;
    let n = words.len();
    let mut i: usize = 0;
    while i < n
        invariant
            n == wordsv.len(),
            wordsv == words@,
            countsv == counts@,
            wordsv.len() == countsv.len(),
            forall|t: int| 0 <= t < countsv.len() ==> countsv[t] >= 1,
            total_weight(wordsv, countsv, n as int) <= i64::MAX,
            keyss@.len() == n,
            forall|t: int| i <= t < n ==> (#[trigger] keyss@[t])@ == pair_keys_seq(wordsv[t]@),
            i <= n,
            totals@.len() == keys@.len(),
            pos@.len() == keys@.len(),
            forall|k: u64| #[trigger]
                slots@.contains_key(k) ==> slots@[k] < keys@.len() && keys@[slots@[k] as int] == k,
            forall|s: int|
                0 <= s < keys@.len() ==> slots@.contains_key(#[trigger] keys@[s])
                    && slots@[keys@[s]] == s,
            forall|k: u64| #[trigger]
                slots@.contains_key(k) ==> totals@[slots@[k] as int] == corpus_count(
                    wordsv,
                    countsv,
                    i as int,
                    k,
                ),
            forall|k: u64|
                !(#[trigger] slots@.contains_key(k)) ==> corpus_count(
                    wordsv,
                    countsv,
                    i as int,
                    k,
                ) == 0,
            forall|k: u64| #[trigger] slots@.contains_key(k) ==> totals@[slots@[k] as int] > 0,
            forall|s: int|
                0 <= s < keys@.len() ==> pos_pre(#[trigger] pos@[s]@, wordsv, i as int, keys@[s]),
        decreases n - i,
    {
        let mut row: Vec<u64> = Vec::new();
        keyss.set_and_swap(i, &mut row);
        let ghost rowv = row@;
        let m = row.len();
        let c = counts[i];
        let ci64: i64 = c as i64;
        let mut j: usize = 0;
        proof {
            assert(rowv == pair_keys_seq(wordsv[i as int]@));
            assert forall|s: int| 0 <= s < keys@.len() implies pos_mid(
                #[trigger] pos@[s]@,
                wordsv,
                i as int,
                rowv,
                0,
                keys@[s],
            ) by {
                lemma_pos_enter(pos@[s]@, wordsv, i as int, rowv, keys@[s]);
            }
        }
        while j < m
            invariant
                n == wordsv.len(),
                wordsv == words@,
                countsv == counts@,
                wordsv.len() == countsv.len(),
                forall|t: int| 0 <= t < countsv.len() ==> countsv[t] >= 1,
                total_weight(wordsv, countsv, n as int) <= i64::MAX,
                i < n,
                c == countsv[i as int],
                ci64 == c as i64,
                rowv == row@,
                rowv == pair_keys_seq(wordsv[i as int]@),
                m == rowv.len(),
                j <= m,
                totals@.len() == keys@.len(),
                pos@.len() == keys@.len(),
                forall|k: u64| #[trigger]
                    slots@.contains_key(k) ==> slots@[k] < keys@.len() && keys@[slots@[k] as int]
                        == k,
                forall|s: int|
                    0 <= s < keys@.len() ==> slots@.contains_key(#[trigger] keys@[s])
                        && slots@[keys@[s]] == s,
                forall|k: u64| #[trigger]
                    slots@.contains_key(k) ==> totals@[slots@[k] as int] == corpus_count(
                        wordsv,
                        countsv,
                        i as int,
                        k,
                    ) + (c as int) * kc_rec(rowv, k, j as int),
                forall|k: u64|
                    !(#[trigger] slots@.contains_key(k)) ==> corpus_count(
                        wordsv,
                        countsv,
                        i as int,
                        k,
                    ) + (c as int) * kc_rec(rowv, k, j as int) == 0,
                forall|k: u64| #[trigger] slots@.contains_key(k) ==> totals@[slots@[k] as int]
                    > 0,
                forall|s: int|
                    0 <= s < keys@.len() ==> pos_mid(
                        #[trigger] pos@[s]@,
                        wordsv,
                        i as int,
                        rowv,
                        j as int,
                        keys@[s],
                    ),
            decreases m - j,
        {
            let k = row[j];
            let ghost jj = j as int;
            let so: Option<usize> = match slots.get(&k) {
                Option::Some(s0) => Option::Some(*s0),
                Option::None => Option::None,
            };
            let s: usize = match so {
                Option::Some(s0) => s0,
                Option::None => {
                    let ns = keys.len();
                    proof {
                        // the key is new: its corpus count so far is zero
                        lemma_cc_bounds(wordsv, countsv, i as int, k);
                        lemma_kc_bounds(rowv, k, jj);
                        assert((c as int) * kc_rec(rowv, k, jj) >= 0 && ((c as int) * kc_rec(
                            rowv,
                            k,
                            jj,
                        ) == 0 ==> kc_rec(rowv, k, jj) == 0)) by (nonlinear_arith)
                            requires
                                c >= 1,
                                kc_rec(rowv, k, jj) >= 0,
                        ;
                        assert(corpus_count(wordsv, countsv, i as int, k) == 0);
                        assert(kc_rec(rowv, k, jj) == 0);
                        assert forall|t: int| !in_mid(t, wordsv, i as int, rowv, jj, k) by {
                            if 0 <= t < i && word_has_key(wordsv[t], k) {
                                lemma_cc_word_pos(wordsv, countsv, i as int, t, k);
                            }
                        }
                    }
                    keys.push(k);
                    totals.push(0);
                    pos.push(Vec::new());
                    slots.insert(k, ns);
                    ns
                },
            };
            let cur = totals[s];
            proof {
                assert(slots@.contains_key(k) && slots@[k] == s);
                assert(cur == corpus_count(wordsv, countsv, i as int, k) + (c as int) * kc_rec(
                    rowv,
                    k,
                    jj,
                ));
                // the updated total still fits in an i64
                lemma_cc_bounds(wordsv, countsv, i as int, k);
                lemma_kc_bounds(rowv, k, jj);
                lemma_kc_bounds(rowv, k, jj + 1);
                lemma_kc_monotone(rowv, k, jj + 1, m as int);
                assert(kc_rec(rowv, k, jj + 1) == kc_rec(rowv, k, jj) + 1);
                assert((c as int) * kc_rec(rowv, k, jj + 1) <= (c as int) * key_count(rowv, k) && (
                c as int) * kc_rec(rowv, k, jj) >= 0) by (nonlinear_arith)
                    requires
                        c >= 1,
                        0 <= kc_rec(rowv, k, jj + 1) <= key_count(rowv, k),
                        0 <= kc_rec(rowv, k, jj),
                ;
                assert(corpus_count(wordsv, countsv, i as int + 1, k) == corpus_count(
                    wordsv,
                    countsv,
                    i as int,
                    k,
                ) + (c as int) * key_count(rowv, k));
                lemma_cc_bounds(wordsv, countsv, i as int + 1, k);
                lemma_tw_monotone(wordsv, countsv, i as int + 1, n as int);
                assert((c as int) * kc_rec(rowv, k, jj + 1) == (c as int) * kc_rec(rowv, k, jj) + (
                c as int)) by (nonlinear_arith)
                    requires
                        kc_rec(rowv, k, jj + 1) == kc_rec(rowv, k, jj) + 1,
                ;
                assert(cur + ci64 == corpus_count(wordsv, countsv, i as int, k) + (c as int)
                    * kc_rec(rowv, k, jj + 1));
                assert(cur + ci64 <= total_weight(wordsv, countsv, n as int));
                assert(cur + ci64 >= 0);
            }
            totals.set(s, cur + ci64);
            // record word i in the position set of this pair, once
            let mut entry: Vec<usize> = Vec::new();
            pos.set_and_swap(s, &mut entry);
            let ghost psold = entry@;
            let pl = entry.len();
            let already = pl > 0 && entry[pl - 1] == i;
            if !already {
                entry.push(i);
            }
            pos.set_and_swap(s, &mut entry);
            j += 1;
            proof {
                let kk = keys@[s as int];
                assert(kk == k);
                lemma_pos_step(psold, pos@[s as int]@, wordsv, i, rowv, jj, k, !already);
                assert((c as int) * kc_rec(rowv, k, jj + 1) == (c as int) * kc_rec(rowv, k, jj) + (
                c as int)) by (nonlinear_arith)
                    requires
                        kc_rec(rowv, k, jj + 1) == kc_rec(rowv, k, jj) + 1,
                ;
                assert(kc_rec(rowv, k, jj + 1) == kc_rec(rowv, k, jj) + 1);
                assert(totals@[s as int] == cur + ci64);
                assert(cur + ci64 == corpus_count(wordsv, countsv, i as int, k) + (c as int)
                    * kc_rec(rowv, k, jj + 1));
                assert forall|k2: u64| #[trigger] slots@.contains_key(k2) implies
                    totals@[slots@[k2] as int] == corpus_count(wordsv, countsv, i as int, k2) + (
                c as int) * kc_rec(rowv, k2, jj + 1) by {
                    assert(kc_rec(rowv, k2, jj + 1) == kc_rec(rowv, k2, jj) + if rowv[jj] == k2 {
                        1int
                    } else {
                        0int
                    });
                }
                assert forall|k2: u64| !(#[trigger] slots@.contains_key(k2)) implies corpus_count(
                    wordsv,
                    countsv,
                    i as int,
                    k2,
                ) + (c as int) * kc_rec(rowv, k2, jj + 1) == 0 by {
                    assert(kc_rec(rowv, k2, jj + 1) == kc_rec(rowv, k2, jj));
                }
                assert forall|s2: int| 0 <= s2 < keys@.len() implies pos_mid(
                    #[trigger] pos@[s2]@,
                    wordsv,
                    i as int,
                    rowv,
                    jj + 1,
                    keys@[s2],
                ) by {
                    if s2 != s as int {
                        lemma_pos_same(pos@[s2]@, wordsv, i as int, rowv, jj, keys@[s2]);
                    }
                }
            }
        }
        i += 1;
        proof {
            assert forall|k2: u64| #[trigger] slots@.contains_key(k2) implies
                totals@[slots@[k2] as int] == corpus_count(wordsv, countsv, i as int, k2) by {
                assert(corpus_count(wordsv, countsv, i as int, k2) == corpus_count(
                    wordsv,
                    countsv,
                    i as int - 1,
                    k2,
                ) + (countsv[i as int - 1] as int) * key_count(rowv, k2));
            }
            assert forall|k2: u64| !(#[trigger] slots@.contains_key(k2)) implies corpus_count(
                wordsv,
                countsv,
                i as int,
                k2,
            ) == 0 by {
                assert(corpus_count(wordsv, countsv, i as int, k2) == corpus_count(
                    wordsv,
                    countsv,
                    i as int - 1,
                    k2,
                ) + (countsv[i as int - 1] as int) * key_count(rowv, k2));
            }
            assert forall|s2: int| 0 <= s2 < keys@.len() implies pos_pre(
                #[trigger] pos@[s2]@,
                wordsv,
                i as int,
                keys@[s2],
            ) by {
                lemma_pos_exit(pos@[s2]@, wordsv, i as int - 1, rowv, keys@[s2]);
            }
        }
    }
    PairStats { keys, totals, pos, slots }
}

/// The aggregation contract as one predicate: the tables are well
/// formed, every present key's total is the brute-force weighted count,
/// every absent key's brute-force count is zero, and each position list
/// is exactly the sorted set of containing word indices.
pub open spec fn stats_exact(r: PairStats, words: Seq<Word>, counts: Seq<i32>) -> bool {
    &&& r.wf()
    &&& forall|k: u64| #[trigger]
        r.slots@.contains_key(k) ==> r.totals@[r.slots@[k] as int] == corpus_count(
            words,
            counts,
            words.len() as int,
            k,
        )
    &&& forall|k: u64|
        !(#[trigger] r.slots@.contains_key(k)) ==> corpus_count(
            words,
            counts,
            words.len() as int,
            k,
        ) == 0
    &&& forall|s: int|
        0 <= s < r.keys@.len() ==> pos_exact((#[trigger] r.pos@[s])@, words, r.keys@[s])
    &&& forall|s: int|
        0 <= s < r.keys@.len() ==> corpus_count(
            words,
            counts,
            words.len() as int,
            #[trigger] r.keys@[s],
        ) > 0
}

/// The weighted count the aggregation reports for key `k`: the total of
/// its slot, or zero when the key is absent.
pub open spec fn reported_count(r: PairStats, k: u64) -> int {
    if r.slots@.contains_key(k) {
        r.totals@[r.slots@[k] as int] as int
    } else {
        0
    }
}

/// The aggregation reports word `i` as containing the pair with key `k`.
pub open spec fn reported_position(r: PairStats, k: u64, i: usize) -> bool {
    r.slots@.contains_key(k) && r.pos@[r.slots@[k] as int]@.contains(i)
}

/// Determinism of aggregation: any two results meeting the aggregation
/// contract for the same words and counts report the same weighted
/// count and the same position set for every pair, however the work was
/// partitioned or scheduled.
pub proof fn lemma_aggregation_deterministic(
    r1: PairStats,
    r2: PairStats,
    words: Seq<Word>,
    counts: Seq<i32>,
)
    requires
        words.len() == counts.len(),
        forall|i: int| 0 <= i < counts.len() ==> counts[i] >= 1,
        stats_exact(r1, words, counts),
        stats_exact(r2, words, counts),
    ensures
        forall|k: u64| #[trigger]
            r1.slots@.contains_key(k) <==> #[trigger] r2.slots@.contains_key(k),
        forall|k: u64| #[trigger] reported_count(r1, k) == #[trigger] reported_count(r2, k),
        forall|k: u64, i: usize| #[trigger]
            reported_position(r1, k, i) <==> #[trigger] reported_position(r2, k, i),
{
    assert forall|k: u64| #[trigger]
        r1.slots@.contains_key(k) <==> #[trigger] r2.slots@.contains_key(k) by {
        if r1.slots@.contains_key(k) {
            assert(r1.keys@[r1.slots@[k] as int] == k);
            assert(corpus_count(words, counts, words.len() as int, k) > 0);
        }
        if r2.slots@.contains_key(k) {
            assert(r2.keys@[r2.slots@[k] as int] == k);
            assert(corpus_count(words, counts, words.len() as int, k) > 0);
        }
    }
    assert forall|k: u64| #[trigger] reported_count(r1, k) == reported_count(r2, k) by {
        if r1.slots@.contains_key(k) {
        }
        if r2.slots@.contains_key(k) {
        }
    }
    assert forall|k: u64, i: usize| #[trigger] reported_position(r1, k, i) <==> #[trigger]
        reported_position(r2, k, i) by {
        if reported_position(r1, k, i) {
            lemma_position_carries(r1, r2, words, counts, k, i);
        }
        if reported_position(r2, k, i) {
            lemma_position_carries(r2, r1, words, counts, k, i);
        }
    }
}

proof fn lemma_position_carries(
    ra: PairStats,
    rb: PairStats,
    words: Seq<Word>,
    counts: Seq<i32>,
    k: u64,
    i: usize,
)
    requires
        words.len() == counts.len(),
        forall|i2: int| 0 <= i2 < counts.len() ==> counts[i2] >= 1,
        stats_exact(ra, words, counts),
        stats_exact(rb, words, counts),
        reported_position(ra, k, i),
    ensures
        reported_position(rb, k, i),
{
    let sa = ra.slots@[k] as int;
    let ps = ra.pos@[sa]@;
    let q = choose|q: int| 0 <= q < ps.len() && ps[q] == i;
    assert(ps[q] < words.len() && word_has_key(words[ps[q] as int], k));
    lemma_cc_word_pos(words, counts, words.len() as int, i as int, k);
    assert(rb.slots@.contains_key(k));
    let sb = rb.slots@[k] as int;
    assert(rb.keys@[sb] == k);
    assert(pos_exact(rb.pos@[sb]@, words, k));
    assert(rb.pos@[sb]@.contains(i));
}

proof fn lemma_tw_update(words: Seq<Word>, counts: Seq<i32>, n: int, i: int, w2: Word)
    requires
        0 <= i < words.len(),
        n <= words.len(),
        words.len() == counts.len(),
    ensures
        total_weight(words.update(i, w2), counts, n) == if i < n {
            total_weight(words, counts, n) + (counts[i] as int) * (w2@.len() - words[i]@.len())
        } else {
            total_weight(words, counts, n)
        },
    decreases n,
{
    if n > 0 {
        lemma_tw_update(words, counts, n - 1, i, w2);
        let wu = words.update(i, w2);
        if i == n - 1 {
            assert(wu[n - 1] == w2);
            assert((counts[i] as int) * (w2@.len() as int) == (counts[i] as int) * (
            words[i]@.len() as int) + (counts[i] as int) * (w2@.len() - words[i]@.len()))
                by (nonlinear_arith);
        } else {
            assert(wu[n - 1] == words[n - 1]);
        }
    }
}

proof fn lemma_kc_adj_bridge(s: Seq<u32>, k: u64, t: int)
    requires
        s.len() >= 2,
        0 <= t <= s.len() - 1,
    ensures
        kc_rec(pair_keys_seq(s), k, t) + adj_rec(s, k, t) == key_count(pair_keys_seq(s), k),
    decreases s.len() - t,
{
    let ks = pair_keys_seq(s);
    if t == s.len() - 1 {
        assert(adj_rec(s, k, t) == 0);
    } else {
        lemma_kc_adj_bridge(s, k, t + 1);
        assert(kc_rec(ks, k, t + 1) == kc_rec(ks, k, t) + if ks[t] == k {
            1int
        } else {
            0int
        });
        assert(ks[t] == pair_key(s[t], s[t + 1]));
    }
}

/// A word's plain adjacency count of a pair equals the count of its key
/// among the word's pair keys: the unit the aggregation sums.
pub proof fn lemma_adj_is_key_count(s: Seq<u32>, k: u64)
    ensures
        adj_rec(s, k, 0) == key_count(pair_keys_seq(s), k),
{
    if s.len() < 2 {
        assert(adj_rec(s, k, 0) == 0);
        assert(pair_keys_seq(s).len() == 0);
    } else {
        lemma_kc_adj_bridge(s, k, 0);
    }
}

/// Incremental maintenance is sound: for every pair, the count of its
/// key among a word's pair keys after a merge equals the count before
/// plus the net sum of the deltas `merge_pair` reports for it. Summed
/// with a word's frequency, this is exactly the update the trainer
/// applies to the global pair-count table.
pub proof fn lemma_deltas_match_key_counts(s: Seq<u32>, a: u32, b: u32, nid: u32, k: u64)
    ensures
        key_count(pair_keys_seq(merged(s, a, b, nid)), k) == key_count(pair_keys_seq(s), k)
            + delta_sum(word_deltas(s, a, b, nid), k),
{
    lemma_deltas_track_pairs(s, a, b, nid, k);
    lemma_adj_is_key_count(merged(s, a, b, nid), k);
    lemma_adj_is_key_count(s, k);
}

/// Token-count monotonicity, per applied word: replacing word `i` by
/// its merged form lowers the weighted total length by exactly
/// `counts[i]` times the number of merged occurrences in that word.
pub proof fn lemma_weight_drop(
    words: Seq<Word>,
    counts: Seq<i32>,
    i: int,
    w2: Word,
    a: u32,
    b: u32,
    nid: u32,
)
    requires
        0 <= i < words.len(),
        words.len() == counts.len(),
        w2@ == merged(words[i]@, a, b, nid),
    ensures
        total_weight(words.update(i, w2), counts, words.len() as int) == total_weight(
            words,
            counts,
            words.len() as int,
        ) - (counts[i] as int) * occurrences(words[i]@, a, b),
{
    lemma_merge_len(words[i]@, a, b, nid);
    lemma_tw_update(words, counts, words.len() as int, i, w2);
    let c = counts[i] as int;
    let occ = occurrences(words[i]@, a, b);
    assert(c * (w2@.len() - words[i]@.len()) == -(c * occ)) by (nonlinear_arith)
        requires
            w2@.len() - words[i]@.len() == -occ,
    ;
}

/// Token-count monotonicity against the aggregation's own unit: for a
/// pair of two distinct ids, replacing word `i` by its merged form
/// lowers the weighted total length by exactly `counts[i]` times the
/// count of the pair's key among the word's pair keys, which is the
/// word's whole contribution to the pair's weighted corpus count.
pub proof fn lemma_weight_drop_by_key_count(
    words: Seq<Word>,
    counts: Seq<i32>,
    i: int,
    w2: Word,
    a: u32,
    b: u32,
    nid: u32,
)
    requires
        0 <= i < words.len(),
        words.len() == counts.len(),
        a != b,
        w2@ == merged(words[i]@, a, b, nid),
    ensures
        total_weight(words.update(i, w2), counts, words.len() as int) == total_weight(
            words,
            counts,
            words.len() as int,
        ) - (counts[i] as int) * key_count(pair_keys_seq(words[i]@), pair_key(a, b)),
{
    lemma_weight_drop(words, counts, i, w2, a, b, nid);
    lemma_occurrences_are_adjacencies(words[i]@, a, b);
    lemma_adj_is_key_count(words[i]@, pair_key(a, b));
}

} // verus!
