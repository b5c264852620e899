use rustbpe::agg::{count_pairs_parallel, PairStats};
use rustbpe::word::Word;

fn key(a: u32, b: u32) -> u64 {
    (a as u64) * 0x1_0000_0000 + (b as u64)
}

fn lookup(stats: &PairStats, a: u32, b: u32) -> Option<(i64, Vec<usize>)> {
    let s = *stats.slots.get(&key(a, b))?;
    Some((stats.totals[s], stats.pos[s].clone()))
}

#[test]
fn merge_pair_basic_deltas() {
    // [x, a, b, y] becomes [x, n, y]; the deltas move the neighbour
    // pairs over and retire (a, b) itself.
    let mut w = Word::new(vec![7, 1, 2, 9]);
    let ds = w.merge_pair((1, 2), 300);
    assert_eq!(w.ids, vec![7, 300, 9]);
    assert_eq!(
        ds,
        vec![((7, 1), -1), ((7, 300), 1), ((1, 2), -1), ((2, 9), -1), ((300, 9), 1)]
    );
}

#[test]
fn merge_pair_noop_when_absent() {
    // no-op safety: a pair that does not occur leaves the word
    // unchanged and reports no deltas.
    let mut w = Word::new(vec![1, 2, 3, 4]);
    let ds = w.merge_pair((9, 9), 300);
    assert!(ds.is_empty());
    assert_eq!(w.ids, vec![1, 2, 3, 4]);
}

#[test]
fn merge_pair_short_word_noop() {
    let mut w = Word::new(vec![5]);
    let ds = w.merge_pair((5, 5), 300);
    assert!(ds.is_empty());
    assert_eq!(w.ids, vec![5]);
}

#[test]
fn merge_pair_non_overlapping_run() {
    // a, a, b: only the rightmost occurrence merges; the leading a is
    // the left neighbour for the delta bookkeeping.
    let mut w = Word::new(vec![1, 1, 2]);
    let ds = w.merge_pair((1, 2), 300);
    assert_eq!(w.ids, vec![1, 300]);
    assert_eq!(ds, vec![((1, 1), -1), ((1, 300), 1), ((1, 2), -1)]);
}

#[test]
fn merge_pair_adjacent_occurrences() {
    // [a, b, a, b] merges twice; the transient (n, a) pair appears and
    // disappears within the same pass.
    let mut w = Word::new(vec![1, 2, 1, 2]);
    let ds = w.merge_pair((1, 2), 300);
    assert_eq!(w.ids, vec![300, 300]);
    assert_eq!(
        ds,
        vec![
            ((1, 2), -1),
            ((2, 1), -1),
            ((300, 1), 1),
            ((300, 1), -1),
            ((300, 300), 1),
            ((1, 2), -1)
        ]
    );
}

#[test]
fn merge_pair_length_drops_by_occurrences() {
    let mut w = Word::new(vec![4, 4, 4, 4, 4]);
    w.merge_pair((4, 4), 300);
    // non-overlapping scan: two occurrences merge, one 4 remains
    assert_eq!(w.ids, vec![300, 300, 4]);
}

#[test]
fn pairs_lists_adjacent_pairs() {
    let w = Word::new(vec![1, 2, 3]);
    assert_eq!(w.pairs(), vec![(1, 2), (2, 3)]);
    assert_eq!(Word::new(vec![1]).pairs(), vec![]);
}

#[test]
fn aggregate_counts_match_brute_force() {
    // words: [1,2,3] x2, [2,3] x5, [1] x7
    let words = vec![
        Word::new(vec![1, 2, 3]),
        Word::new(vec![2, 3]),
        Word::new(vec![1]),
    ];
    let stats = count_pairs_parallel(&words, &vec![2, 5, 7]);
    let (c12, p12) = lookup(&stats, 1, 2).unwrap();
    assert_eq!(c12, 2);
    assert_eq!(p12, vec![0]);
    let (c23, p23) = lookup(&stats, 2, 3).unwrap();
    assert_eq!(c23, 7);
    assert_eq!(p23, vec![0, 1]);
    assert!(lookup(&stats, 3, 1).is_none());
    assert_eq!(stats.keys.len(), 2);
}

#[test]
fn aggregate_counts_overlapping_occurrences() {
    // [2, 2, 2] holds the pair (2, 2) twice for counting purposes
    let words = vec![Word::new(vec![2, 2, 2])];
    let stats = count_pairs_parallel(&words, &vec![3]);
    let (c, p) = lookup(&stats, 2, 2).unwrap();
    assert_eq!(c, 6);
    assert_eq!(p, vec![0]);
}

#[test]
fn aggregate_skips_short_words() {
    let words = vec![Word::new(vec![1]), Word::new(Vec::new())];
    let stats = count_pairs_parallel(&words, &vec![4, 4]);
    assert_eq!(stats.keys.len(), 0);
}
