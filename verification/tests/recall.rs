use vecq::arith::Op;
use vecq::recall::{brute_topk, count_hits, exact_top_k, rank, symmetric_score, unit_cosine};

fn native(op: Op, a: u32, b: u32) -> u32 {
    let (x, y) = (f32::from_bits(a), f32::from_bits(b));
    let r = match op {
        Op::Add => x + y,
        Op::Sub => x - y,
        Op::Mul => x * y,
        Op::Div => x / y,
        Op::Sqrt => x.sqrt(),
    };
    r.to_bits()
}

fn bits(v: &[f32]) -> Vec<u32> {
    v.iter().map(|x| x.to_bits()).collect()
}

#[test]
fn ranking_is_stable_and_descending() {
    assert_eq!(rank(&[3, 7, 7, 1, 9], 5), vec![4, 1, 2, 0, 3]);
    assert_eq!(rank(&[3, 7, 7, 1, 9], 2), vec![4, 1]);
    assert_eq!(rank(&[5, 5, 5], 2), vec![0, 1]);
    assert_eq!(rank(&[5, 5, 5], 0), vec![]);
    assert_eq!(rank(&[], 3), vec![]);
}

#[test]
fn nearest_unit_vectors() {
    let base: Vec<Vec<u32>> =
        [[1.0f32, 0.0], [0.0, 1.0], [0.6, 0.8], [1.0, 0.0]].iter().map(|v| bits(v)).collect();
    let q = bits(&[1.0, 0.0]);
    assert_eq!(brute_topk(&base, &q, 3, &native), vec![0, 3, 2]);
    assert_eq!(brute_topk(&base, &q, 9, &native), vec![0, 3, 2, 1]);
    assert_eq!(f32::from_bits(unit_cosine(&q, &base[2], &native)), 0.6);
}

#[test]
fn nearest_by_exact_cosine() {
    let base: Vec<Vec<u32>> =
        [[2.0f32, 0.0], [0.0, 5.0], [0.0, -5.0], [3.0, 4.0]].iter().map(|v| bits(v)).collect();
    let q = bits(&[1.0, 0.0]);
    // Both perpendicular vectors score zero, of either sign: the first wins.
    assert_eq!(exact_top_k(&base, &q, 4, &native), Some(vec![0, 3, 1, 2]));
    let zero = vec![bits(&[1.0, 0.0]), bits(&[0.0, 0.0])];
    assert_eq!(exact_top_k(&zero, &q, 1, &native), None);
    assert_eq!(exact_top_k(&zero[1..], &q, 1, &native), Some(vec![0]));
    assert_eq!(exact_top_k(&[], &q, 1, &native), Some(vec![]));
}

#[test]
fn hits_are_counted_in_the_truth() {
    assert_eq!(count_hits(&[1, 2, 3], &[3, 9, 1]), 2);
    assert_eq!(count_hits(&[1, 1], &[1]), 2);
    assert_eq!(count_hits(&[], &[1]), 0);
    assert_eq!(count_hits(&[4, 5], &[4, 5]), 2);
}

#[test]
fn coded_vectors_score_by_table() {
    let mut products = vec![0f32; 256];
    for a in 0..16 {
        for b in 0..16 {
            products[a * 16 + b] = a as f32 * 100.0 + b as f32;
        }
    }
    let s = symmetric_score(&bits(&products), &[1, 2, 3], &[15, 0, 7], &native);
    assert_eq!(f32::from_bits(s), 115.0 + 200.0 + 307.0);
    let s = symmetric_score(&bits(&products), &[1, 2, 3], &[4], &native);
    assert_eq!(f32::from_bits(s), 104.0);
}
