use vecq::dataset::{load_f32, meta_get, PairRng, Rng};

#[test]
fn the_stream_of_a_seed_is_fixed() {
    let mut rng = Rng { state: 42 };
    let first: Vec<u64> = (0..3).map(|_| rng.next_u64()).collect();
    assert_eq!(first, vec![11435511379416088765, 8363626497947505399, 2103083356132978009]);
    let mut again = Rng { state: 43 };
    assert_eq!(again.next_numerator(), 11435511379416088765 >> 11);
}

#[test]
fn the_pairs_of_a_seed_are_fixed() {
    let mut rng = PairRng { state: 43 };
    assert_eq!(rng.next_pair(), (22723181, 1489199687437));
    assert_eq!(rng.state, 3049880959871723);
}

#[test]
fn raw_files_hold_rows() {
    let mut bytes = Vec::new();
    for i in 0..6 {
        bytes.extend_from_slice(&(i as f32 + 0.5).to_le_bytes());
    }
    let rows = load_f32(&bytes, 2, 3).unwrap();
    let values: Vec<Vec<f32>> =
        rows.iter().map(|r| r.iter().map(|&x| f32::from_bits(x)).collect()).collect();
    assert_eq!(values, vec![vec![0.5, 1.5, 2.5], vec![3.5, 4.5, 5.5]]);
    assert!(load_f32(&bytes, 3, 3).is_none());
    assert!(load_f32(&bytes, 2, 2).is_none());
    assert!(load_f32(&bytes[..23], 2, 3).is_none());
    assert!(load_f32(&bytes, usize::MAX, 2).is_none());
    assert_eq!(load_f32(&[], 0, 7), Some(vec![]));
    assert_eq!(load_f32(&[], 2, 0), Some(vec![vec![], vec![]]));
}

#[test]
fn metadata_numbers() {
    let meta = br#"{"n_base": 2000, "n_query": 100, "dim": 768}"#;
    assert_eq!(meta_get(meta, b"n_base"), Some(2000));
    assert_eq!(meta_get(meta, b"n_query"), Some(100));
    assert_eq!(meta_get(meta, b"dim"), Some(768));
    assert_eq!(meta_get(meta, b"n"), None);
    // The digits have to end before the text does, and to be there.
    assert_eq!(meta_get(br#"{"dim": 7"#, b"dim"), None);
    assert_eq!(meta_get(br#"{"dim": x7}"#, b"dim"), None);
    assert_eq!(meta_get(br#"{"dim":"#, b"dim"), None);
    assert_eq!(meta_get(br#"{"dim": 99999999999999999999999}"#, b"dim"), None);
    assert_eq!(meta_get(br#"{"a": 1, "a": 2}"#, b"a"), Some(1));
}
