//! Words: mutable sequences of token ids, and the in-place pair merge
//! that reports the count deltas needed to keep a global aggregate
//! consistent.

use vstd::prelude::*;

verus! {

/// A pair of adjacent token ids packed into one `u64` key:
/// the first id in the high 32 bits, the second in the low 32 bits.
/// Packing is injective, and the numeric order of keys is the
/// lexicographic order of the pairs.
pub open spec fn pair_key(a: u32, b: u32) -> u64 {
    ((a as int) * 0x1_0000_0000 + (b as int)) as u64
}

/// One distinct pre-tokenized span: an owned, mutable sequence of token ids.
/// Its corpus frequency is kept externally, aligned by index.
pub struct Word {
    pub ids: Vec<u32>,
}

impl View for Word {
    type V = Seq<u32>;

    open spec fn view(&self) -> Seq<u32> {
        self.ids@
    }
}

/// The id sequence that remains after merging every non-overlapping
/// occurrence of `(a, b)` into `nid`, scanning left to right from
/// position `i`: on a match the scan resumes two positions further on,
/// so a run such as `a, a, b` merges only once.
pub open spec fn merge_rec(s: Seq<u32>, a: u32, b: u32, nid: u32, i: int) -> Seq<u32>
    decreases s.len() - i,
{
    if i >= s.len() {
        Seq::empty()
    } else if i + 1 < s.len() && s[i] == a && s[i + 1] == b {
        seq![nid] + merge_rec(s, a, b, nid, i + 2)
    } else {
        seq![s[i]] + merge_rec(s, a, b, nid, i + 1)
    }
}

/// The whole-word merge result.
pub open spec fn merged(s: Seq<u32>, a: u32, b: u32, nid: u32) -> Seq<u32> {
    merge_rec(s, a, b, nid, 0)
}

/// The count deltas reported while merging from position `i`, where
/// `last` is the id most recently written to the output (the left
/// neighbour of a match). For each merged occurrence: the pair with the
/// left neighbour moves from `(x, a)` to `(x, nid)`, the pair `(a, b)`
/// itself goes away, and the pair with the right neighbour moves from
/// `(b, y)` to `(nid, y)`.
pub open spec fn deltas_rec(
    s: Seq<u32>,
    a: u32,
    b: u32,
    nid: u32,
    i: int,
    last: Option<u32>,
) -> Seq<((u32, u32), i32)>
    decreases s.len() - i,
{
    if i >= s.len() {
        Seq::empty()
    } else if i + 1 < s.len() && s[i] == a && s[i + 1] == b {
        (match last {
            Option::Some(x) => seq![((x, a), -1i32), ((x, nid), 1i32)],
            Option::None => Seq::empty(),
        }) + seq![((a, b), -1i32)] + (if i + 2 < s.len() {
            seq![((b, s[i + 2]), -1i32), ((nid, s[i + 2]), 1i32)]
        } else {
            Seq::empty()
        }) + deltas_rec(s, a, b, nid, i + 2, Option::Some(nid))
    } else {
        deltas_rec(s, a, b, nid, i + 1, Option::Some(s[i]))
    }
}

/// The whole-word delta list.
pub open spec fn word_deltas(s: Seq<u32>, a: u32, b: u32, nid: u32) -> Seq<((u32, u32), i32)> {
    deltas_rec(s, a, b, nid, 0, Option::None)
}

/// The number of occurrences the left-to-right non-overlapping scan
/// merges, counting from position `i`.
pub open spec fn occ_rec(s: Seq<u32>, a: u32, b: u32, i: int) -> int
    decreases s.len() - i,
{
    if i >= s.len() {
        0
    } else if i + 1 < s.len() && s[i] == a && s[i + 1] == b {
        1 + occ_rec(s, a, b, i + 2)
    } else {
        occ_rec(s, a, b, i + 1)
    }
}

/// The number of merged occurrences over the whole word.
pub open spec fn occurrences(s: Seq<u32>, a: u32, b: u32) -> int {
    occ_rec(s, a, b, 0)
}

/// The packed keys of the adjacent pairs of `s`, in order
/// (empty when the word has fewer than two ids).
pub open spec fn pair_keys_seq(s: Seq<u32>) -> Seq<u64> {
    if s.len() < 2 {
        Seq::empty()
    } else {
        Seq::new((s.len() - 1) as nat, |j: int| pair_key(s[j], s[j + 1]))
    }
}

/// How many adjacent pairs of `s` at positions `j` onward have the
/// packed key `k`.
pub open spec fn adj_rec(s: Seq<u32>, k: u64, j: int) -> int
    decreases s.len() - j,
{
    if j < 0 || j + 1 >= s.len() {
        0
    } else {
        (if pair_key(s[j], s[j + 1]) == k {
            1int
        } else {
            0int
        }) + adj_rec(s, k, j + 1)
    }
}

/// Packing is injective: equal keys mean equal pairs.
pub proof fn lemma_pair_key_injective(x: u32, y: u32, a: u32, b: u32)
    requires
        pair_key(x, y) == pair_key(a, b),
    ensures
        x == a && y == b,
{
    assert((x as int) * 0x1_0000_0000 + (y as int) == (a as int) * 0x1_0000_0000 + (b as int));
    assert(x == a && y == b) by (nonlinear_arith)
        requires
            (x as int) * 0x1_0000_0000 + (y as int) == (a as int) * 0x1_0000_0000 + (b as int),
            0 <= (x as int) && (x as int) < 0x1_0000_0000,
            0 <= (y as int) && (y as int) < 0x1_0000_0000,
            0 <= (a as int) && (a as int) < 0x1_0000_0000,
            0 <= (b as int) && (b as int) < 0x1_0000_0000,
    ;
}

proof fn lemma_occ_adj_rec(s: Seq<u32>, a: u32, b: u32, i: int)
    requires
        a != b,
        0 <= i,
    ensures
        occ_rec(s, a, b, i) == adj_rec(s, pair_key(a, b), i),
    decreases s.len() - i,
{
    let k = pair_key(a, b);
    if i >= s.len() {
    } else if i + 1 >= s.len() {
        assert(occ_rec(s, a, b, i) == occ_rec(s, a, b, i + 1));
        assert(occ_rec(s, a, b, i + 1) == 0);
    } else if s[i] == a && s[i + 1] == b {
        lemma_occ_adj_rec(s, a, b, i + 2);
        if i + 2 < s.len() {
            if pair_key(s[i + 1], s[i + 2]) == k {
                lemma_pair_key_injective(s[i + 1], s[i + 2], a, b);
            }
        }
        assert(adj_rec(s, k, i + 1) == adj_rec(s, k, i + 2));
    } else {
        lemma_occ_adj_rec(s, a, b, i + 1);
        if pair_key(s[i], s[i + 1]) == k {
            lemma_pair_key_injective(s[i], s[i + 1], a, b);
        }
    }
}

/// For a pair of two distinct ids, the non-overlapping left-to-right
/// scan merges every adjacent occurrence: the number of merged
/// occurrences equals the plain adjacency count.
pub proof fn lemma_occurrences_are_adjacencies(s: Seq<u32>, a: u32, b: u32)
    requires
        a != b,
    ensures
        occurrences(s, a, b) == adj_rec(s, pair_key(a, b), 0),
{
    lemma_occ_adj_rec(s, a, b, 0);
}

proof fn lemma_merge_len_rec(s: Seq<u32>, a: u32, b: u32, nid: u32, i: int)
    requires
        0 <= i <= s.len(),
    ensures
        merge_rec(s, a, b, nid, i).len() == s.len() - i - occ_rec(s, a, b, i),
        0 <= occ_rec(s, a, b, i),
    decreases s.len() - i,
{
    if i >= s.len() {
    } else if i + 1 < s.len() && s[i] == a && s[i + 1] == b {
        lemma_merge_len_rec(s, a, b, nid, i + 2);
    } else {
        lemma_merge_len_rec(s, a, b, nid, i + 1);
    }
}

/// Each merged occurrence removes exactly one id: the merged word is
/// shorter than the original by the number of merged occurrences.
pub proof fn lemma_merge_len(s: Seq<u32>, a: u32, b: u32, nid: u32)
    ensures
        merged(s, a, b, nid).len() == s.len() - occurrences(s, a, b),
        0 <= occurrences(s, a, b),
{
    lemma_merge_len_rec(s, a, b, nid, 0);
}

proof fn lemma_merge_noop_rec(s: Seq<u32>, a: u32, b: u32, nid: u32, i: int, last: Option<u32>)
    requires
        0 <= i <= s.len(),
        forall|j: int| #![trigger s[j]] 0 <= j && j + 1 < s.len() ==> !(s[j] == a && s[j + 1] == b),
    ensures
        merge_rec(s, a, b, nid, i) =~= s.skip(i),
        deltas_rec(s, a, b, nid, i, last) =~= Seq::<((u32, u32), i32)>::empty(),
    decreases s.len() - i,
{
    if i >= s.len() {
    } else {
        lemma_merge_noop_rec(s, a, b, nid, i + 1, Option::Some(s[i]));
    }
}

/// No-op safety: merging a pair that does not occur in the word leaves
/// the word unchanged and reports no deltas.
pub proof fn lemma_merge_pair_noop(s: Seq<u32>, a: u32, b: u32, nid: u32)
    requires
        forall|j: int| #![trigger s[j]] 0 <= j && j + 1 < s.len() ==> !(s[j] == a && s[j + 1] == b),
    ensures
        merged(s, a, b, nid) == s,
        word_deltas(s, a, b, nid) == Seq::<((u32, u32), i32)>::empty(),
        occurrences(s, a, b) == 0,
{
    lemma_merge_noop_rec(s, a, b, nid, 0, Option::None);
    assert(merged(s, a, b, nid) =~= s.skip(0));
    assert(s.skip(0) =~= s);
    lemma_merge_len(s, a, b, nid);
}

impl Word {
    /// A word over the given id sequence.
    pub fn new(ids: Vec<u32>) -> (w: Word)
        ensures
            w@ == ids@,
    {
        Word { ids }
    }

    /// The adjacent id pairs of the word, in order.
    pub fn pairs(&self) -> (r: Vec<(u32, u32)>)
        ensures
            r@.len() == pair_keys_seq(self@).len(),
            forall|j: int|
                0 <= j < r@.len() ==> r@[j] == (self@[j], self@[j + 1]) && pair_key(
                    r@[j].0,
                    r@[j].1,
                ) == pair_keys_seq(self@)[j],
    {
        let mut r: Vec<(u32, u32)> = Vec::new();
        let n = self.ids.len();
        if n < 2 {
            return r;
        }
        let mut j: usize = 0;
        while j < n - 1
            invariant
                2 <= n == self@.len(),
                j <= n - 1,
                r@.len() == j,
                forall|q: int| 0 <= q < j ==> r@[q] == (self@[q], self@[q + 1]),
            decreases n - j,
        {
            r.push((self.ids[j], self.ids[j + 1]));
            j += 1;
        }
        r
    }

    /// The packed keys of the adjacent pairs of the word, in order.
    pub fn pair_keys(&self) -> (r: Vec<u64>)
        ensures
            r@ == pair_keys_seq(self@),
    {
        let mut r: Vec<u64> = Vec::new();
        let n = self.ids.len();
        if n < 2 {
            assert(r@ =~= pair_keys_seq(self@));
            return r;
        }
        let mut j: usize = 0;
        while j < n - 1
            invariant
                2 <= n == self@.len(),
                j <= n - 1,
                r@.len() == j,
                forall|q: int| 0 <= q < j ==> r@[q] == pair_key(self@[q], self@[q + 1]),
            decreases n - j,
        {
            let a = self.ids[j];
            let b = self.ids[j + 1];
            r.push((a as u64) * 0x1_0000_0000 + (b as u64));
            j += 1;
        }
        assert(r@ =~= pair_keys_seq(self@));
        r
    }

    /// Merges every non-overlapping occurrence of `pair` into `new_id`,
    /// scanning left to right, and returns the count deltas that keep an
    /// external pair aggregate consistent: for each merged occurrence,
    /// -1 for the pair with the old left neighbour and +1 with the new,
    /// -1 for the merged pair itself, and -1/+1 likewise on the right.
    pub fn merge_pair(&mut self, pair: (u32, u32), new_id: u32) -> (deltas: Vec<
        ((u32, u32), i32),
    >)
        ensures
            final(self)@ == merged(old(self)@, pair.0, pair.1, new_id),
            deltas@ == word_deltas(old(self)@, pair.0, pair.1, new_id),
            final(self)@.len() == old(self)@.len() - occurrences(old(self)@, pair.0, pair.1),
    {
        let a = pair.0;
        let b = pair.1;
        let ghost s = self.ids@;
        let n = self.ids.len();
        let mut deltas: Vec<((u32, u32), i32)> = Vec::new();
        proof {
            lemma_merge_len(s, a, b, new_id);
        }
        if n < 2 {
            proof {
                lemma_merge_pair_noop(s, a, b, new_id);
                assert(deltas@ =~= word_deltas(s, a, b, new_id));
            }
            return deltas;
        }
        let mut out: Vec<u32> = Vec::new();
        let mut last: Option<u32> = Option::None;
        let mut i: usize = 0;
        while i < n
            invariant
                n == s.len(),
                self@ == s,
                i <= n,
                out@ + merge_rec(s, a, b, new_id, i as int) == merge_rec(s, a, b, new_id, 0),
                deltas@ + deltas_rec(s, a, b, new_id, i as int, last) == deltas_rec(
                    s,
                    a,
                    b,
                    new_id,
                    0,
                    Option::None,
                ),
            decreases n - i,
        {
            if i + 1 < n && self.ids[i] == a && self.ids[i + 1] == b {
                if let Option::Some(x) = last {
                    deltas.push(((x, a), -1));
                    deltas.push(((x, new_id), 1));
                }
                deltas.push(((a, b), -1));
                if i + 2 < n {
                    let y = self.ids[i + 2];
                    deltas.push(((b, y), -1));
                    deltas.push(((new_id, y), 1));
                }
                out.push(new_id);
                proof {
                    assert(out@ + merge_rec(s, a, b, new_id, i + 2) =~= merge_rec(
                        s,
                        a,
                        b,
                        new_id,
                        0,
                    ));
                    assert(deltas@ + deltas_rec(s, a, b, new_id, i + 2, Option::Some(new_id))
                        =~= deltas_rec(s, a, b, new_id, 0, Option::None));
                }
                last = Option::Some(new_id);
                i += 2;
            } else {
                let c = self.ids[i];
                out.push(c);
                proof {
                    assert(out@ + merge_rec(s, a, b, new_id, i + 1) =~= merge_rec(
                        s,
                        a,
                        b,
                        new_id,
                        0,
                    ));
                    assert(deltas@ + deltas_rec(s, a, b, new_id, i + 1, Option::Some(c))
                        =~= deltas_rec(s, a, b, new_id, 0, Option::None));
                }
                last = Option::Some(c);
                i += 1;
            }
        }
        proof {
            assert(out@ + merge_rec(s, a, b, new_id, n as int) =~= out@);
            assert(deltas@ + deltas_rec(s, a, b, new_id, n as int, last) =~= deltas@);
        }
        self.ids = out;
        deltas
    }

    /// The current number of ids in the word.
    pub fn len(&self) -> (n: usize)
        ensures
            n == self@.len(),
    {
        self.ids.len()
    }
}

/// The net contribution of a delta list to the pair with key `k`.
pub open spec fn delta_sum(ds: Seq<((u32, u32), i32)>, k: u64) -> int
    decreases ds.len(),
{
    if ds.len() == 0 {
        0
    } else {
        (if pair_key(ds[0].0.0, ds[0].0.1) == k {
            ds[0].1 as int
        } else {
            0int
        }) + delta_sum(ds.drop_first(), k)
    }
}

proof fn lemma_delta_sum_concat(xs: Seq<((u32, u32), i32)>, ys: Seq<((u32, u32), i32)>, k: u64)
    ensures
        delta_sum(xs + ys, k) == delta_sum(xs, k) + delta_sum(ys, k),
    decreases xs.len(),
{
    if xs.len() == 0 {
        assert(xs + ys =~= ys);
    } else {
        assert((xs + ys).drop_first() =~= xs.drop_first() + ys);
        assert((xs + ys)[0] == xs[0]);
        lemma_delta_sum_concat(xs.drop_first(), ys, k);
    }
}

proof fn lemma_delta_sum_single(e: ((u32, u32), i32), k: u64)
    ensures
        delta_sum(seq![e], k) == if pair_key(e.0.0, e.0.1) == k {
            e.1 as int
        } else {
            0int
        },
{
    assert(seq![e].drop_first() =~= Seq::<((u32, u32), i32)>::empty());
    assert(delta_sum(Seq::<((u32, u32), i32)>::empty(), k) == 0);
}

proof fn lemma_delta_sum_two(e1: ((u32, u32), i32), e2: ((u32, u32), i32), k: u64)
    ensures
        delta_sum(seq![e1, e2], k) == (if pair_key(e1.0.0, e1.0.1) == k {
            e1.1 as int
        } else {
            0int
        }) + (if pair_key(e2.0.0, e2.0.1) == k {
            e2.1 as int
        } else {
            0int
        }),
{
    assert(seq![e1, e2] =~= seq![e1] + seq![e2]);
    lemma_delta_sum_concat(seq![e1], seq![e2], k);
    lemma_delta_sum_single(e1, k);
    lemma_delta_sum_single(e2, k);
}

/// A sequence with an optional extra id on the left: the left context
/// of a partially scanned word.
pub open spec fn opt_cons(last: Option<u32>, t: Seq<u32>) -> Seq<u32> {
    match last {
        Option::Some(x) => seq![x] + t,
        Option::None => t,
    }
}

/// The adjacency count of `t` seen together with its left context.
pub open spec fn cadj(last: Option<u32>, t: Seq<u32>, k: u64) -> int {
    adj_rec(opt_cons(last, t), k, 0)
}

proof fn lemma_adj_shift(x: u32, t: Seq<u32>, k: u64, j: int)
    requires
        0 <= j,
    ensures
        adj_rec(seq![x] + t, k, j + 1) == adj_rec(t, k, j),
    decreases t.len() - j,
{
    let u = seq![x] + t;
    if j + 1 >= t.len() {
    } else {
        lemma_adj_shift(x, t, k, j + 1);
        assert(u[j + 1] == t[j]);
        assert(u[j + 2] == t[j + 1]);
    }
}

proof fn lemma_adj_cons(x: u32, t: Seq<u32>, k: u64)
    ensures
        adj_rec(seq![x] + t, k, 0) == (if t.len() > 0 && pair_key(x, t[0]) == k {
            1int
        } else {
            0int
        }) + adj_rec(t, k, 0),
{
    let u = seq![x] + t;
    if t.len() == 0 {
        assert(u.len() == 1);
    } else {
        lemma_adj_shift(x, t, k, 0);
        assert(u[0] == x && u[1] == t[0]);
    }
}

proof fn lemma_cadj_empty(last: Option<u32>, k: u64)
    ensures
        cadj(last, Seq::<u32>::empty(), k) == 0,
{
    match last {
        Option::Some(x) => {
            assert(seq![x] + Seq::<u32>::empty() =~= seq![x]);
            assert(adj_rec(seq![x], k, 0) == 0);
        },
        Option::None => {},
    }
}

proof fn lemma_cadj_cons(last: Option<u32>, x: u32, t: Seq<u32>, k: u64)
    ensures
        cadj(last, seq![x] + t, k) == (match last {
            Option::Some(y) => if pair_key(y, x) == k {
                1int
            } else {
                0int
            },
            Option::None => 0int,
        }) + cadj(Option::Some(x), t, k),
{
    match last {
        Option::Some(y) => {
            lemma_adj_cons(y, seq![x] + t, k);
            assert((seq![x] + t)[0] == x);
            assert((seq![x] + t).len() > 0);
        },
        Option::None => {},
    }
}

#[verifier::rlimit(100)]
proof fn lemma_account_rec(s: Seq<u32>, a: u32, b: u32, nid: u32, i: int, last: Option<u32>, k: u64)
    requires
        0 <= i <= s.len(),
    ensures
        cadj(last, merge_rec(s, a, b, nid, i), k) == cadj(last, s.skip(i), k) + delta_sum(
            deltas_rec(s, a, b, nid, i, last),
            k,
        ),
    decreases s.len() - i,
{
    if i >= s.len() {
        assert(s.skip(i) =~= Seq::<u32>::empty());
        lemma_cadj_empty(last, k);
    } else if i + 1 < s.len() && s[i] == a && s[i + 1] == b {
        lemma_account_rec(s, a, b, nid, i + 2, Option::Some(nid), k);
        let m2 = merge_rec(s, a, b, nid, i + 2);
        assert(merge_rec(s, a, b, nid, i) == seq![nid] + m2);
        lemma_cadj_cons(last, nid, m2, k);
        // the unmerged remainder, decomposed around the occurrence
        assert(s.skip(i) =~= seq![a] + (seq![b] + s.skip(i + 2)));
        lemma_cadj_cons(last, a, seq![b] + s.skip(i + 2), k);
        lemma_cadj_cons(Option::Some(a), b, s.skip(i + 2), k);
        if i + 2 < s.len() {
            assert(s.skip(i + 2) =~= seq![s[i + 2]] + s.skip(i + 3));
            lemma_cadj_cons(Option::Some(nid), s[i + 2], s.skip(i + 3), k);
            lemma_cadj_cons(Option::Some(b), s[i + 2], s.skip(i + 3), k);
        } else {
            assert(s.skip(i + 2) =~= Seq::<u32>::empty());
            lemma_cadj_empty(Option::Some(nid), k);
            lemma_cadj_empty(Option::Some(b), k);
        }
        // the delta list of this step, summed piece by piece
        let lpart = match last {
            Option::Some(x) => seq![((x, a), -1i32), ((x, nid), 1i32)],
            Option::None => Seq::<((u32, u32), i32)>::empty(),
        };
        let mpart = seq![((a, b), -1i32)];
        let rpart = if i + 2 < s.len() {
            seq![((b, s[i + 2]), -1i32), ((nid, s[i + 2]), 1i32)]
        } else {
            Seq::<((u32, u32), i32)>::empty()
        };
        let dtail = deltas_rec(s, a, b, nid, i + 2, Option::Some(nid));
        assert(deltas_rec(s, a, b, nid, i, last) == lpart + mpart + rpart + dtail);
        lemma_delta_sum_concat(lpart + mpart + rpart, dtail, k);
        lemma_delta_sum_concat(lpart + mpart, rpart, k);
        lemma_delta_sum_concat(lpart, mpart, k);
        match last {
            Option::Some(x) => {
                lemma_delta_sum_two(((x, a), -1i32), ((x, nid), 1i32), k);
            },
            Option::None => {},
        }
        lemma_delta_sum_single(((a, b), -1i32), k);
        if i + 2 < s.len() {
            lemma_delta_sum_two(((b, s[i + 2]), -1i32), ((nid, s[i + 2]), 1i32), k);
        }
    } else {
        lemma_account_rec(s, a, b, nid, i + 1, Option::Some(s[i]), k);
        let m1 = merge_rec(s, a, b, nid, i + 1);
        assert(merge_rec(s, a, b, nid, i) == seq![s[i]] + m1);
        lemma_cadj_cons(last, s[i], m1, k);
        assert(s.skip(i) =~= seq![s[i]] + s.skip(i + 1));
        lemma_cadj_cons(last, s[i], s.skip(i + 1), k);
    }
}

/// The deltas account exactly for the merge: for every pair, the
/// adjacency count of the merged word is the adjacency count of the
/// original word plus the net sum of the reported deltas for that
/// pair. This is what lets an external aggregate be maintained
/// incrementally instead of being recomputed.
pub proof fn lemma_deltas_track_pairs(s: Seq<u32>, a: u32, b: u32, nid: u32, k: u64)
    ensures
        adj_rec(merged(s, a, b, nid), k, 0) == adj_rec(s, k, 0) + delta_sum(
            word_deltas(s, a, b, nid),
            k,
        ),
{
    lemma_account_rec(s, a, b, nid, 0, Option::None, k);
    assert(s.skip(0) =~= s);
}

} // verus!

