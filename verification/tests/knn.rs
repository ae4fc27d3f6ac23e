use backend_showdown_2026::knn::{insert_best, Neighbors};
use backend_showdown_2026::labels::{count_frauds, is_fraud, is_fraud_label, pack_labels};
use backend_showdown_2026::{RandomSIMD, ReferenceSIMD};

fn unfilled() -> Neighbors {
    [(u64::MAX, 0usize); 5]
}

#[test]
fn first_candidate_takes_the_first_slot() {
    let mut best = unfilled();
    insert_best(&mut best, 10, 1);
    assert_eq!(best, [(10, 1), (u64::MAX, 0), (u64::MAX, 0), (u64::MAX, 0), (u64::MAX, 0)]);
}

#[test]
fn nearer_candidate_moves_up() {
    let mut best = unfilled();
    insert_best(&mut best, 10, 1);
    insert_best(&mut best, 5, 2);
    assert_eq!(best[0], (5, 2));
    assert_eq!(best[1], (10, 1));
}

#[test]
fn equal_distance_keeps_earlier_candidate_first() {
    let mut best = unfilled();
    insert_best(&mut best, 10, 1);
    insert_best(&mut best, 10, 2);
    assert_eq!(best[0], (10, 1));
    assert_eq!(best[1], (10, 2));
}

#[test]
fn candidate_at_max_distance_is_never_kept() {
    let mut best = unfilled();
    insert_best(&mut best, u64::MAX, 7);
    assert_eq!(best, unfilled());
}

#[test]
fn full_list_evicts_the_farthest() {
    let mut best = unfilled();
    for (d, i) in [(50u64, 0usize), (40, 1), (30, 2), (20, 3), (10, 4)] {
        insert_best(&mut best, d, i);
    }
    assert_eq!(best, [(10, 4), (20, 3), (30, 2), (40, 1), (50, 0)]);
    insert_best(&mut best, 25, 5);
    assert_eq!(best, [(10, 4), (20, 3), (25, 5), (30, 2), (40, 1)]);
    insert_best(&mut best, 40, 6);
    assert_eq!(best, [(10, 4), (20, 3), (25, 5), (30, 2), (40, 1)]);
}

#[test]
fn scan_keeps_the_five_nearest() {
    let distances = [90u64, 15, 70, 3, 44, 15, 8, 120, 60, 2];
    let mut best = unfilled();
    for (i, d) in distances.iter().enumerate() {
        insert_best(&mut best, *d, i);
    }
    assert_eq!(best, [(2, 9), (3, 3), (8, 6), (15, 1), (15, 5)]);
}

#[test]
fn pack_labels_sets_one_bit_per_flag() {
    let words = pack_labels(&[true, false, true]);
    assert_eq!(words, vec![0b101]);
    let mut flags = vec![false; 65];
    flags[64] = true;
    flags[63] = true;
    let words = pack_labels(&flags);
    assert_eq!(words, vec![1u64 << 63, 1]);
    assert_eq!(pack_labels(&[]), Vec::<u64>::new());
}

#[test]
fn pack_then_read_gives_the_flags_back() {
    let flags: Vec<bool> = (0..130).map(|i| i % 3 == 0 || i % 7 == 1).collect();
    let words = pack_labels(&flags);
    assert_eq!(words.len(), 3);
    for (i, f) in flags.iter().enumerate() {
        assert_eq!(is_fraud(&words, i), *f);
    }
    for i in 130..192 {
        assert!(!is_fraud(&words, i));
    }
}

#[test]
fn count_frauds_counts_labelled_neighbours() {
    let labels = [0b1010u64, 1];
    let best: Neighbors = [(1, 1), (2, 2), (3, 3), (4, 64), (5, 0)];
    assert_eq!(count_frauds(&labels, &best), 3);
    let best: Neighbors = [(u64::MAX, 0); 5];
    assert_eq!(count_frauds(&labels, &best), 0);
}

#[test]
fn block_searches_offer_candidates_the_same_way() {
    let mut a = unfilled();
    let mut b = unfilled();
    let mut c = unfilled();
    for (d, i) in [(7u64, 0usize), (3, 1), (7, 2), (1, 3)] {
        insert_best(&mut a, d, i);
        ReferenceSIMD::insert_best(&mut b, d, i);
        RandomSIMD::insert_best(&mut c, d, i);
    }
    assert_eq!(a, [(1, 3), (3, 1), (7, 0), (7, 2), (u64::MAX, 0)]);
    assert_eq!(a, b);
    assert_eq!(a, c);
}

#[test]
fn fraud_label_is_exactly_fraud() {
    assert!(is_fraud_label("fraud"));
    assert!(!is_fraud_label("legit"));
    assert!(!is_fraud_label("Fraud"));
    assert!(!is_fraud_label("fraud "));
    assert!(!is_fraud_label(""));
}
