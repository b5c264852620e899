use rustbpe::trainer::{TrainError, Tokenizer};
use rustbpe::word::Word;

fn tok() -> Tokenizer {
    Tokenizer::new()
}

fn words_of(idss: &[&[u32]]) -> Vec<Word> {
    idss.iter().map(|ids| Word::new(ids.to_vec())).collect()
}

#[test]
fn single_merge_example() {
    // words "ab" (count 5) and "abc" (count 3): pair (97, 98) has
    // weighted count 8, the highest, so exactly it is merged.
    let mut t = tok();
    let words = words_of(&[&[97, 98], &[97, 98, 99]]);
    let r = t.train_core_incremental(words, vec![5, 3], 257);
    assert!(r.is_ok());
    assert_eq!(t.merges, vec![((97, 98), 256)]);
}

#[test]
fn two_merges_chain() {
    // after merging (97, 98) -> 256, the pair (256, 99) becomes the
    // most frequent and gets id 257.
    let mut t = tok();
    let words = words_of(&[&[97, 98, 99], &[97, 98, 99], &[97, 98]]);
    let r = t.train_core_incremental(words, vec![2, 1, 1], 258);
    assert!(r.is_ok());
    assert_eq!(t.merges, vec![((97, 98), 256), ((256, 99), 257)]);
}

#[test]
fn tie_break_smaller_pair_first() {
    // both pairs have count 4; (1, 2) < (3, 4), so (1, 2) merges first.
    let mut t = tok();
    let words = words_of(&[&[1, 2], &[3, 4]]);
    let r = t.train_core_incremental(words, vec![4, 4], 257);
    assert!(r.is_ok());
    assert_eq!(t.merges, vec![((1, 2), 256)]);
}

#[test]
fn tie_break_across_two_merges() {
    // with two merges requested both tied pairs are taken, smaller first.
    let mut t = tok();
    let words = words_of(&[&[1, 2], &[3, 4]]);
    let r = t.train_core_incremental(words, vec![4, 4], 258);
    assert!(r.is_ok());
    assert_eq!(t.merges, vec![((1, 2), 256), ((3, 4), 257)]);
}

#[test]
fn monotonic_ids_no_gaps() {
    let mut t = tok();
    let words = words_of(&[&[10, 11, 12, 13, 10, 11], &[11, 12, 13]]);
    let r = t.train_core_incremental(words, vec![7, 2], 260);
    assert!(r.is_ok());
    for (j, &(_, id)) in t.merges.iter().enumerate() {
        assert_eq!(id, 256 + j as u32);
    }
}

#[test]
fn early_termination_fewer_merges_than_requested() {
    // one word "ab": after merging (97, 98) nothing is left to merge,
    // so only one entry comes back although 10 were requested.
    let mut t = tok();
    let words = words_of(&[&[97, 98]]);
    let r = t.train_core_incremental(words, vec![1], 266);
    assert!(r.is_ok());
    assert_eq!(t.merges, vec![((97, 98), 256)]);
}

#[test]
fn exhaustion_on_empty_corpus() {
    let mut t = tok();
    let r = t.train_core_incremental(Vec::new(), Vec::new(), 300);
    assert!(r.is_ok());
    assert!(t.merges.is_empty());
}

#[test]
fn determinism_repeated_runs() {
    let idss: &[&[u32]] = &[&[5, 6, 7, 5, 6], &[6, 7, 5], &[5, 6], &[7, 7, 7, 7]];
    let counts = vec![3, 5, 2, 1];
    let mut first: Option<Vec<((u32, u32), u32)>> = None;
    for _ in 0..3 {
        let mut t = tok();
        let r = t.train_core_incremental(words_of(idss), counts.clone(), 262);
        assert!(r.is_ok());
        match &first {
            None => first = Some(t.merges.clone()),
            Some(m) => assert_eq!(&t.merges, m),
        }
    }
}

#[test]
fn vocab_size_below_256_rejected() {
    let mut t = tok();
    let r = t.train_core_incremental(words_of(&[&[1, 2]]), vec![1], 255);
    assert_eq!(r, Err(TrainError::InvalidVocabSize));
    assert!(t.merges.is_empty());
}

#[test]
fn vocab_size_256_means_no_merges() {
    let mut t = tok();
    let r = t.train_core_incremental(words_of(&[&[1, 2]]), vec![1], 256);
    assert!(r.is_ok());
    assert!(t.merges.is_empty());
}

#[test]
fn length_mismatch_rejected() {
    let mut t = tok();
    let r = t.train_core_incremental(words_of(&[&[1, 2], &[3, 4]]), vec![1], 257);
    assert_eq!(r, Err(TrainError::LengthMismatch));
}

#[test]
fn non_positive_count_rejected() {
    let mut t = tok();
    let r = t.train_core_incremental(words_of(&[&[1, 2], &[3, 4]]), vec![1, 0], 257);
    assert_eq!(r, Err(TrainError::NonPositiveCount));
}

#[test]
fn lookup_finds_recorded_merge() {
    let mut t = tok();
    let r = t.train_core_incremental(words_of(&[&[97, 98]]), vec![2], 257);
    assert!(r.is_ok());
    assert_eq!(t.lookup((97, 98)), Some(256));
    assert_eq!(t.lookup((98, 97)), None);
}

#[test]
fn resulting_words_reflect_merges() {
    // after merging (97,98) -> 256 the words become [256] and [256, 99]
    let mut w1 = Word::new(vec![97, 98]);
    let mut w2 = Word::new(vec![97, 98, 99]);
    w1.merge_pair((97, 98), 256);
    w2.merge_pair((97, 98), 256);
    assert_eq!(w1.ids, vec![256]);
    assert_eq!(w2.ids, vec![256, 99]);
}

#[test]
fn stale_candidate_discarded_when_count_drops_to_zero() {
    // (2,3) merges first; the queued (1,2) snapshot then goes stale at
    // count zero and is discarded, letting the new pair (1,256) win.
    let mut t = tok();
    let words = words_of(&[&[1, 2, 3], &[2, 3]]);
    let r = t.train_core_incremental(words, vec![3, 2], 258);
    assert!(r.is_ok());
    assert_eq!(t.merges, vec![((2, 3), 256), ((1, 256), 257)]);
}

#[test]
fn stale_candidate_requeued_with_corrected_count() {
    // (1,2) merges first and lowers (5,1) from 5 to 2; the stale (5,1)
    // snapshot is corrected, re-queued, and merged after (5,256).
    let mut t = tok();
    let words = words_of(&[&[5, 1], &[5, 1, 2], &[1, 2]]);
    let r = t.train_core_incremental(words, vec![2, 3, 4], 259);
    assert!(r.is_ok());
    assert_eq!(
        t.merges,
        vec![((1, 2), 256), ((5, 256), 257), ((5, 1), 258)]
    );
}

#[test]
fn large_counts_do_not_overflow() {
    let mut t = tok();
    let words = words_of(&[&[1, 2], &[2, 3]]);
    let r = t.train_core_incremental(words, vec![i32::MAX, i32::MAX - 1], 257);
    assert!(r.is_ok());
    assert_eq!(t.merges, vec![((1, 2), 256)]);
}
