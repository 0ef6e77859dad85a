use vecq::topk::{key_of_score, undo_key, TopK};

fn top(scores: &[f32], k: usize) -> Vec<(usize, f32)> {
    let mut best = TopK::new(k);
    for (i, s) in scores.iter().enumerate() {
        best.consider(s.to_bits(), i);
    }
    best.into_hits().into_iter().map(|(i, s)| (i, f32::from_bits(s))).collect()
}

#[test]
fn keys_order_scores() {
    let sorted = [f32::NEG_INFINITY, -2.5, -1.0, -0.0, 0.0, 1e-30, 0.5, 1.0, f32::INFINITY];
    for w in sorted.windows(2) {
        assert!(key_of_score(w[0].to_bits()) < key_of_score(w[1].to_bits()));
    }
    for x in sorted {
        assert_eq!(undo_key(key_of_score(x.to_bits())), x.to_bits());
    }
}

#[test]
fn the_best_come_out_best_first() {
    assert_eq!(top(&[0.1, 0.9, -0.4, 0.5], 2), vec![(1, 0.9), (3, 0.5)]);
    assert_eq!(top(&[0.1, 0.9], 5), vec![(1, 0.9), (0, 0.1)]);
    assert_eq!(top(&[], 3), vec![]);
}

#[test]
fn equal_scores_come_out_in_slot_order() {
    assert_eq!(top(&[0.5, 0.5, 0.5], 2), vec![(0, 0.5), (1, 0.5)]);
    assert_eq!(top(&[0.5, 0.5, 0.7, 0.5], 3), vec![(2, 0.7), (0, 0.5), (1, 0.5)]);
}

#[test]
fn a_better_score_drops_the_least_pair() {
    // The lowest slot among the worst leaves first.
    assert_eq!(top(&[0.5, 0.5, 0.9], 2), vec![(2, 0.9), (1, 0.5)]);
}
