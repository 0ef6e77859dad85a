use vecq::arith::Op;
use vecq::format::V1_3;
use vecq::score::{score_batch4, score_scalar};
use vecq::store::{cosine_f32, PreparedQuery, VecqIndex};

fn native(op: Op, a: u32, b: u32) -> u32 {
    let (x, y) = (f32::from_bits(a), f32::from_bits(b));
    let r = match op {
        Op::Add => x + y,
        Op::Sub => x - y,
        Op::Mul => x * y,
        Op::Div => x / y,
        Op::Sqrt => x.sqrt(),
    };
    r.to_bits()
}

fn bits(v: &[f32]) -> Vec<u32> {
    v.iter().map(|x| x.to_bits()).collect()
}

fn add(idx: &mut VecqIndex, v: &[f32]) -> usize {
    idx.add(&bits(v), &native)
}

fn search(idx: &VecqIndex, q: &[f32], k: usize) -> Vec<(usize, f32)> {
    let found = idx.search(&bits(q), k, &native);
    found.into_iter().map(|(i, s)| (i, f32::from_bits(s))).collect()
}

fn add_keyed(idx: &mut VecqIndex, key: u64, v: &[f32]) -> usize {
    idx.add_keyed(key, &bits(v), &native)
}

fn search_keyed(idx: &VecqIndex, q: &[f32], k: usize) -> Vec<(u64, f32)> {
    let found = idx.search_keyed(&bits(q), k, &native);
    found.into_iter().map(|(i, s)| (i, f32::from_bits(s))).collect()
}

fn rand_unit(dim: usize, seed: u64) -> Vec<f32> {
    let mut x = seed | 1;
    let mut v = Vec::with_capacity(dim);
    for _ in 0..dim {
        x ^= x << 13;
        x ^= x >> 7;
        x ^= x << 17;
        let u1 = ((x >> 11) as f64 / (1u64 << 53) as f64).max(1e-12);
        x ^= x << 16;
        let u2 = (x >> 11) as f64 / (1u64 << 53) as f64;
        v.push(((-2.0 * u1.ln()).sqrt() * (std::f64::consts::TAU * u2).cos()) as f32);
    }
    let norm: f32 = v.iter().map(|a| a * a).sum::<f32>().sqrt();
    v.into_iter().map(|a| a / norm).collect()
}

fn prepare(idx: &VecqIndex, q: &[f32]) -> PreparedQuery {
    idx.prepare_query(&bits(q), &native)
}

fn score(idx: &VecqIndex, pq: &PreparedQuery, i: usize) -> f32 {
    f32::from_bits(idx.score(pq, i, &native))
}

fn cosine(a: &[f32], b: &[f32]) -> f32 {
    f32::from_bits(cosine_f32(&bits(a), &bits(b), &native))
}

#[test]
fn score_correlates_with_exact_cosine() {
    let dim = 128;
    let mut idx = VecqIndex::new(dim, 7);
    let base: Vec<Vec<f32>> = (0..200).map(|i| rand_unit(dim, i + 1)).collect();
    for v in &base {
        add(&mut idx, v);
    }
    let q = rand_unit(dim, 999);
    let pq = prepare(&idx, &q);
    let exact: Vec<f32> = base.iter().map(|v| cosine(&q, v)).collect();
    let mut max_err = 0f32;
    for (i, &e) in exact.iter().enumerate().take(200) {
        let est = score(&idx, &pq, i);
        max_err = max_err.max((est - e).abs());
    }
    assert!(max_err < 0.2, "max score error {max_err}");
}

#[test]
fn score_reproducible_and_close_to_naive() {
    let dim = 128;
    let mut idx = VecqIndex::new(dim, 13);
    for i in 0..50 {
        add(&mut idx, &rand_unit(dim, i + 21));
    }
    let q = rand_unit(dim, 321);
    let pq = prepare(&idx, &q);
    for vi in 0..50 {
        let codes = idx.slot_codes(vi);
        let mut naive = 0f32;
        for i in 0..idx.padded_dim() {
            let b = codes[i / 2];
            let code = if i % 2 == 0 { b & 0x0F } else { b >> 4 };
            naive += f32::from_bits(pq.rotated[i]) * f32::from_bits(pq.lut[code as usize]);
        }
        let s = score(&idx, &pq, vi);
        assert_eq!(s.to_bits(), score(&idx, &pq, vi).to_bits());
        let scale = f32::from_bits(idx.slot_scale(vi));
        assert!((s - naive * scale).abs() < 1e-5, "vector {vi}");
    }
}

/// The scores of the batch kernel for consecutive slots, four at a time.
fn batched(idx: &VecqIndex, pq: &PreparedQuery, n: usize) -> Vec<u32> {
    let mut out = Vec::new();
    for start in (0..n).step_by(4) {
        let codes4: Vec<u8> = (start..start + 4).flat_map(|i| idx.slot_codes(i).to_vec()).collect();
        let four = score_batch4(&codes4, idx.bits(), &pq.rotated, &pq.lut, &native);
        out.extend_from_slice(&four);
    }
    out
}

fn assert_batch_matches_scalar(dim: usize, seed: u64, n: u64, salt: u64, query: u64) {
    let mut idx = VecqIndex::new(dim, seed);
    for i in 0..n {
        add(&mut idx, &rand_unit(dim, i + salt));
    }
    let pq = prepare(&idx, &rand_unit(dim, query));
    let whole = n as usize / 4 * 4;
    for (vi, raw) in batched(&idx, &pq, whole).into_iter().enumerate() {
        let scalar = score_scalar(idx.slot_codes(vi), 4, &pq.rotated, &pq.lut, &native);
        assert_eq!(raw, scalar, "dim {dim} vector {vi}: kernels diverged");
    }
}

#[test]
fn neon_matches_scalar_bitwise() {
    assert_batch_matches_scalar(128, 42, 30, 500, 777);
}

#[test]
fn neon4_matches_neon_bitwise() {
    assert_batch_matches_scalar(128, 91, 12, 90, 1234);
}

#[test]
fn avx2_matches_scalar_bitwise() {
    // Eight dimensions leave no full block: only the tail is exercised.
    for (dim, seed) in [(128, 42), (8, 43)] {
        assert_batch_matches_scalar(dim, seed, 30, 500, 777);
    }
}

#[test]
fn avx24_matches_avx2_bitwise() {
    assert_batch_matches_scalar(128, 91, 12, 90, 1234);
}

#[test]
fn search_dispatch_matches_scalar_on_avx2_hosts() {
    let dim = 128;
    let mut idx = VecqIndex::new(dim, 55);
    for i in 0..30 {
        add(&mut idx, &rand_unit(dim, i + 800));
    }
    let q = rand_unit(dim, 888);
    let pq = prepare(&idx, &q);
    for vi in 0..30 {
        let raw = score_scalar(idx.slot_codes(vi), 4, &pq.rotated, &pq.lut, &native);
        let scalar = f32::from_bits(raw) * f32::from_bits(idx.slot_scale(vi));
        assert_eq!(score(&idx, &pq, vi).to_bits(), scalar.to_bits());
    }
}

#[test]
fn search_returns_sorted_results() {
    let dim = 64;
    let mut idx = VecqIndex::new(dim, 3);
    for i in 0..50 {
        add(&mut idx, &rand_unit(dim, i * 31 + 5));
    }
    let q = rand_unit(dim, 77);
    let res = search(&idx, &q, 5);
    assert_eq!(res.len(), 5);
    for w in res.windows(2) {
        assert!(w[0].1 >= w[1].1);
    }
}

#[test]
fn quantized_size_is_one_eighth() {
    let dim = 384;
    let mut idx = VecqIndex::new(dim, 1);
    add(&mut idx, &rand_unit(dim, 11));
    assert_eq!(idx.slots() * idx.code_len(), 512 / 2);
    assert_eq!(idx.slot_codes(0).len(), 512 / 2);
}

#[test]
fn keyed_add_search_remove() {
    let dim = 64;
    let mut idx = VecqIndex::new(dim, 5);
    for i in 0..50u64 {
        add_keyed(&mut idx, 1000 + i, &rand_unit(dim, i * 17 + 3));
    }
    assert_eq!(idx.len(), 50);
    assert!(idx.contains_key(1000));
    assert!(!idx.contains_key(999));

    let q = rand_unit(dim, 77);
    let keyed = search_keyed(&idx, &q, 5);
    assert_eq!(keyed.len(), 5);
    for w in keyed.windows(2) {
        assert!(w[0].1 >= w[1].1);
    }
    // Keys must all exist and match the positional results.
    let positional = search(&idx, &q, 5);
    for ((key, ks), (slot, ps)) in keyed.iter().zip(positional.iter()) {
        assert_eq!(key, &idx.key_of(*slot).unwrap());
        assert_eq!(ks.to_bits(), ps.to_bits());
    }

    // Remove the top hit: it must vanish from results, others keep scores.
    let top_key = keyed[0].0;
    assert!(idx.remove_keyed(top_key));
    assert!(!idx.remove_keyed(top_key), "second remove is a no-op");
    assert!(!idx.remove_keyed(12345), "unknown key returns false");
    assert_eq!(idx.len(), 49);
    assert_eq!(idx.tombstones(), 1);
    let keyed2 = search_keyed(&idx, &q, 5);
    assert!(!keyed2.iter().any(|(k, _)| *k == top_key));
    for (k, s) in keyed2.iter() {
        let old = keyed.iter().find(|(ok, _)| ok == k).map(|(_, os)| *os);
        if let Some(os) = old {
            assert_eq!(s.to_bits(), os.to_bits(), "key {k} score changed");
        }
    }
}

#[test]
fn keyed_add_same_key_replaces() {
    let dim = 32;
    let mut idx = VecqIndex::new(dim, 9);
    add_keyed(&mut idx, 7, &rand_unit(dim, 101));
    add_keyed(&mut idx, 7, &rand_unit(dim, 202));
    assert_eq!(idx.len(), 1, "replace must not grow the index");
    assert_eq!(idx.tombstones(), 0);
    // The stored vector is the second one: query near it, key 7 wins.
    let q = rand_unit(dim, 202);
    let res = search_keyed(&idx, &q, 1);
    assert_eq!(res[0].0, 7);
}

#[test]
fn keyed_slot_indices_stay_stable_across_remove_and_serialize() {
    let dim = 64;
    let mut idx = VecqIndex::new(dim, 15);
    for i in 0..20u64 {
        add_keyed(&mut idx, i, &rand_unit(dim, i + 300));
    }
    let q = rand_unit(dim, 404);
    let before = search(&idx, &q, 20);
    // Remove two vectors: remaining slot indices must not shift.
    idx.remove_keyed(idx.key_of(before[0].0).unwrap());
    idx.remove_keyed(idx.key_of(before[5].0).unwrap());
    let after = search(&idx, &q, 20);
    assert_eq!(after.len(), 18);
    for (slot, s) in &after {
        let old = before.iter().find(|(os, _)| os == slot);
        assert!(old.is_some(), "slot {slot} moved after remove");
        assert_eq!(old.unwrap().1.to_bits(), s.to_bits());
    }
    // Serializing drops removed slots on disk but must not disturb memory.
    let bytes = idx.to_bytes();
    let disk = VecqIndex::from_bytes(&bytes).unwrap();
    assert_eq!(disk.len(), 18);
    assert_eq!(search(&idx, &q, 20), after, "in-memory results unchanged");
}

#[test]
fn compact_drops_tombstones_and_preserves_results() {
    let dim = 64;
    let mut idx = VecqIndex::new(dim, 21);
    for i in 0..40u64 {
        add_keyed(&mut idx, 10 * i, &rand_unit(dim, i + 61));
    }
    for i in 0..20u64 {
        assert!(idx.remove_keyed(10 * i));
    }
    let q = rand_unit(dim, 123);
    let expected = search_keyed(&idx, &q, 20);
    idx.compact();
    assert_eq!(idx.tombstones(), 0);
    assert_eq!(idx.len(), 20);
    assert_eq!(search_keyed(&idx, &q, 20), expected);
    // Half-precision scales perturb scores by less than 1e-3: compare order and
    // approximate scores.
    let bytes = idx.to_bytes();
    let back = VecqIndex::from_bytes(&bytes).unwrap();
    let reloaded = search(&back, &q, 20);
    assert_eq!(reloaded.len(), 20);
    for ((slot, s), (key, ks)) in reloaded.iter().zip(expected.iter()) {
        assert_eq!(idx.key_of(*slot), Some(*key));
        assert!((s - ks).abs() < 1e-3, "key {key} score drifted: {s} vs {ks}");
    }
}

#[test]
fn keyed_search_on_empty_and_drained_index() {
    let dim = 32;
    let mut idx = VecqIndex::new(dim, 31);
    assert!(search_keyed(&idx, &rand_unit(dim, 1), 3).is_empty());
    add_keyed(&mut idx, 1, &rand_unit(dim, 2));
    add_keyed(&mut idx, 2, &rand_unit(dim, 3));
    assert!(idx.remove_keyed(1));
    assert!(idx.remove_keyed(2));
    assert!(idx.is_empty(), "drained index reports empty");
    assert_eq!(idx.tombstones(), 2);
    assert!(search_keyed(&idx, &rand_unit(dim, 4), 3).is_empty());
}

#[test]
fn keyed_index_from_file_supports_keyed_adds() {
    let dim = 64;
    let mut idx = VecqIndex::new(dim, 41);
    for i in 0..10u64 {
        add(&mut idx, &rand_unit(dim, i + 700));
    }
    let bytes = idx.to_bytes();
    let mut back = VecqIndex::from_bytes(&bytes).unwrap();
    add_keyed(&mut back, 555, &rand_unit(dim, 999));
    assert!(back.contains_key(555));
    assert_eq!(back.len(), 11);
    let q = rand_unit(dim, 999);
    assert_eq!(search_keyed(&back, &q, 1)[0].0, 555);
}

#[test]
fn working_dim_equal_to_dim_matches_new_bitwise() {
    let dim = 128;
    let mut a = VecqIndex::new(dim, 7);
    let mut b = VecqIndex::with_working_dim(dim, dim, 7);
    for i in 0..20 {
        add(&mut a, &rand_unit(dim, i + 61));
        add(&mut b, &rand_unit(dim, i + 61));
    }
    let q = rand_unit(dim, 321);
    let ra = search(&a, &q, 5);
    let rb = search(&b, &q, 5);
    assert_eq!(ra.len(), rb.len());
    for ((sa, fa), (sb, fb)) in ra.iter().zip(rb.iter()) {
        assert_eq!(sa, sb);
        assert_eq!(fa.to_bits(), fb.to_bits());
    }
    assert_eq!(a.to_bytes(), b.to_bytes());
    assert_eq!(b.working_dim(), dim);
}

#[test]
fn working_dim_truncates_storage_and_keeps_leading_signal() {
    let (dim, working, n) = (256, 64, 40);
    let signal: Vec<Vec<f32>> = (0..n).map(|i| rand_unit(working, i * 13 + 5)).collect();
    let mut full = VecqIndex::new(dim, 11);
    let mut trunc = VecqIndex::with_working_dim(dim, working, 11);
    let build = |s: &[f32], salt: u64| -> Vec<f32> {
        // Leading dimensions carry the identity, the tail is noise.
        let mut v = vec![0f32; dim];
        v[..working].copy_from_slice(s);
        let noise = rand_unit(dim - working, salt);
        v[working..].copy_from_slice(&noise.iter().map(|x: &f32| x * 0.05).collect::<Vec<_>>());
        let norm: f32 = v.iter().map(|x| x * x).sum::<f32>().sqrt();
        for x in v.iter_mut() {
            *x /= norm;
        }
        v
    };
    for (i, s) in signal.iter().enumerate() {
        let v = build(s, 9_000 + i as u64);
        add(&mut full, &v);
        add(&mut trunc, &v);
    }
    assert_eq!(trunc.working_dim(), working);
    assert!(trunc.to_bytes().len() * 3 < full.to_bytes().len(), "expected ~3x smaller");
    // Query: same construction as the true neighbor of vector 0.
    let qv = build(&signal[0], 9_000);
    let rt = search(&trunc, &qv, 1);
    assert_eq!(rt[0].0, 0, "truncated index must rank vector 0 first");
}

#[test]
fn working_dim_round_trips_through_file() {
    let (dim, working) = (256, 64);
    let mut idx = VecqIndex::with_working_dim(dim, working, 21);
    for i in 0..10 {
        add(&mut idx, &rand_unit(dim, i + 700));
    }
    let q = rand_unit(dim, 999);
    let expected = search(&idx, &q, 5);
    let bytes = idx.to_bytes();
    let back = VecqIndex::from_bytes(&bytes).expect("parse v1.2");
    assert_eq!(back.working_dim(), working);
    assert_eq!(back.dim(), dim);
    let reloaded = search(&back, &q, 5);
    assert_eq!(reloaded[0].0, expected[0].0);
    assert_eq!(reloaded.len(), expected.len());
    for ((s0, f0), (_, f1)) in reloaded.iter().zip(expected.iter()) {
        assert!((f0 - f1).abs() < 1e-3, "slot {s0}: {f0} vs {f1}");
    }
}

#[test]
fn legacy_v11_file_still_loads() {
    // A file of version 1.1 has no working dimension and must load as a full one.
    let mut idx = VecqIndex::new(128, 33);
    for i in 0..8 {
        add(&mut idx, &rand_unit(128, i + 50));
    }
    let bytes = idx.to_bytes();
    assert_eq!(u16::from_le_bytes([bytes[4], bytes[5]]), V1_3);
    assert_eq!(V1_3, 259);
    let mut v11 = bytes.clone();
    v11[4] = 257u16.to_le_bytes()[0];
    v11[5] = 257u16.to_le_bytes()[1];
    let q = rand_unit(128, 777);
    assert_eq!(
        search(&VecqIndex::from_bytes(&v11).unwrap(), &q, 5),
        search(&VecqIndex::from_bytes(&bytes).unwrap(), &q, 5)
    );
}

#[test]
fn only_vectors_with_a_direction_are_accepted() {
    let idx = VecqIndex::with_working_dim(4, 2, 3);
    assert!(idx.accepts(&bits(&[1.0, 2.0, 0.0, 0.0]), &native));
    assert!(idx.accepts(&bits(&[0.0, -1e-3, f32::NAN, 0.0]), &native));
    // Only the leading two coordinates count.
    assert!(!idx.accepts(&bits(&[0.0, 0.0, 1.0, 1.0]), &native));
    assert!(!idx.accepts(&bits(&[0.0, -0.0, 1.0, 1.0]), &native));
    assert!(!idx.accepts(&bits(&[f32::NAN, 0.0, 1.0, 1.0]), &native));
    // The square of this coordinate is too small for a number.
    assert!(!idx.accepts(&bits(&[1e-30, 0.0, 1.0, 1.0]), &native));
}

#[test]
fn slots_count_live_and_removed() {
    let dim = 16;
    let mut idx = VecqIndex::new(dim, 8);
    assert!(idx.is_empty());
    for i in 0..6u64 {
        assert_eq!(add_keyed(&mut idx, i, &rand_unit(dim, i + 1)), i as usize);
    }
    assert_eq!(add(&mut idx, &rand_unit(dim, 77)), 6);
    idx.remove_keyed(2);
    idx.remove_keyed(5);
    assert_eq!((idx.slots(), idx.len(), idx.tombstones()), (7, 5, 2));
    assert_eq!(idx.key_of(1), Some(1));
    assert_eq!(idx.key_of(2), None);
    assert_eq!(idx.key_of(6), None);
    assert_eq!(idx.key_of(99), None);
    assert!(!idx.slot_alive(2));
    assert!(idx.slot_alive(6));
    // A removed key can come back, in a new slot.
    assert_eq!(add_keyed(&mut idx, 2, &rand_unit(dim, 3)), 7);
}

#[test]
fn search_asks_for_at_least_one_and_at_most_all() {
    let dim = 16;
    let mut idx = VecqIndex::new(dim, 8);
    let q = rand_unit(dim, 40);
    assert_eq!(search(&idx, &q, 3), vec![]);
    for i in 0..3 {
        add(&mut idx, &rand_unit(dim, i + 1));
    }
    assert_eq!(search(&idx, &q, 0).len(), 1);
    assert_eq!(search(&idx, &q, 2).len(), 2);
    assert_eq!(search(&idx, &q, 100).len(), 3);
}

#[test]
fn equal_vectors_are_found_in_slot_order() {
    let dim = 32;
    let mut idx = VecqIndex::new(dim, 4);
    let v = rand_unit(dim, 12);
    for _ in 0..7 {
        add(&mut idx, &v);
    }
    let slots: Vec<usize> = search(&idx, &v, 3).into_iter().map(|(i, _)| i).collect();
    assert_eq!(slots, vec![0, 1, 2]);
}

#[test]
fn batches_and_single_slots_agree_across_removals() {
    let dim = 64;
    let mut idx = VecqIndex::new(dim, 17);
    for i in 0..11u64 {
        add_keyed(&mut idx, i, &rand_unit(dim, i + 5));
    }
    idx.remove_keyed(2);
    idx.remove_keyed(9);
    let q = rand_unit(dim, 500);
    let pq = prepare(&idx, &q);
    let found = search(&idx, &q, 11);
    assert_eq!(found.len(), 9);
    for (slot, s) in found {
        assert!(slot != 2 && slot != 9);
        assert_eq!(s.to_bits(), score(&idx, &pq, slot).to_bits());
    }
}

#[test]
fn several_vectors_under_one_key() {
    let dim = 32;
    let mut idx = VecqIndex::new(dim, 6);
    assert_eq!(add_keyed(&mut idx, 9, &rand_unit(dim, 1)), 0);
    add_keyed(&mut idx, 3, &rand_unit(dim, 2));
    let more = idx.add_keyed_multi(9, &bits(&rand_unit(dim, 3)), &native);
    assert_eq!(more, 2);
    assert_eq!(idx.len(), 3);
    assert_eq!(idx.key_of(0), Some(9));
    assert_eq!(idx.key_of(2), Some(9));
    // A keyed add replaces the first of them.
    assert_eq!(add_keyed(&mut idx, 9, &rand_unit(dim, 4)), 0);
    assert_eq!(idx.len(), 3);
    // Both are persisted, and both are removed.
    let mut back = VecqIndex::from_bytes(&idx.to_bytes()).unwrap();
    assert_eq!(back.key_of(2), Some(9));
    assert!(back.remove_keyed(9));
    assert_eq!((back.len(), back.tombstones()), (1, 2));
    assert!(!back.contains_key(9));
    assert!(back.contains_key(3));
}

#[test]
fn relabel_moves_all_vectors_of_a_key() {
    let dim = 32;
    let mut idx = VecqIndex::new(dim, 6);
    add_keyed(&mut idx, 1, &rand_unit(dim, 1));
    add_keyed(&mut idx, 2, &rand_unit(dim, 2));
    idx.add_keyed_multi(1, &bits(&rand_unit(dim, 3)), &native);
    assert!(!idx.relabel(7, 8));
    assert!(idx.relabel(1, 2));
    assert!(!idx.contains_key(1));
    assert_eq!((0..3).map(|s| idx.key_of(s)).collect::<Vec<_>>(), vec![Some(2); 3]);
    assert!(idx.relabel(2, 2));
    assert_eq!(idx.len(), 3);
    // The lowest slot is the first of the merged key.
    assert_eq!(add_keyed(&mut idx, 2, &rand_unit(dim, 9)), 0);
    assert!(idx.remove_keyed(2));
    assert!(idx.is_empty());
}

#[test]
fn second_pass_estimates_better() {
    let dim = 128;
    let mut plain = VecqIndex::new(dim, 7);
    let mut both = VecqIndex::with_residual(dim, 7);
    assert!(both.is_residual());
    let base: Vec<Vec<f32>> = (0..60).map(|i| rand_unit(dim, i + 1)).collect();
    for v in &base {
        add(&mut plain, v);
        add(&mut both, v);
    }
    let q = rand_unit(dim, 999);
    let (pp, pb) = (prepare(&plain, &q), prepare(&both, &q));
    let (mut worst_plain, mut worst_both) = (0f32, 0f32);
    for (i, v) in base.iter().enumerate() {
        let e = cosine(&q, v);
        worst_plain = worst_plain.max((score(&plain, &pp, i) - e).abs());
        worst_both = worst_both.max((score(&both, &pb, i) - e).abs());
    }
    assert!(worst_both < worst_plain / 2.0, "{worst_both} vs {worst_plain}");
}

#[test]
fn wider_codes_estimate_better() {
    let dim = 128;
    let base: Vec<Vec<f32>> = (0..60).map(|i| rand_unit(dim, i + 1)).collect();
    let q = rand_unit(dim, 999);
    let mut errors = Vec::new();
    for width in [4u8, 5, 6] {
        let mut idx = VecqIndex::new(dim, 7);
        assert_eq!(idx.bits(), 4);
        idx.set_bits(width);
        for v in &base {
            add(&mut idx, v);
        }
        assert_eq!(idx.slot_codes(0).len(), 128 * width as usize / 8);
        let pq = prepare(&idx, &q);
        assert_eq!(pq.lut.len(), 1 << width);
        let worst = base
            .iter()
            .enumerate()
            .map(|(i, v)| (score(&idx, &pq, i) - cosine(&q, v)).abs())
            .fold(0f32, f32::max);
        errors.push(worst);
    }
    assert!(errors[1] < errors[0] && errors[2] < errors[1], "{errors:?}");
}

#[test]
fn a_query_is_scaled_to_norm_one() {
    let idx = VecqIndex::with_working_dim(6, 3, 5);
    let pq = prepare(&idx, &[3.0, 0.0, 4.0, 100.0, 100.0, 100.0]);
    assert_eq!(f32::from_bits(pq.norm), 5.0);
    assert_eq!(pq.rotated.len(), 4);
    let n: f32 = pq.rotated.iter().map(|&x| f32::from_bits(x) * f32::from_bits(x)).sum();
    assert!((n - 1.0).abs() < 1e-6);
}

#[test]
fn cosine_of_known_vectors() {
    assert_eq!(cosine(&[1.0, 0.0], &[0.0, 2.0]), 0.0);
    assert_eq!(cosine(&[3.0, 4.0], &[3.0, 4.0]), 1.0);
    assert_eq!(cosine(&[1.0, 2.0, 2.0], &[-1.0, -2.0, -2.0]), -1.0);
    // Entries beyond the first vector's length are not looked at.
    assert_eq!(cosine(&[2.0], &[5.0, 9.0]), 1.0);
}

#[test]
fn no_vector_left_out_scores_higher() {
    let dim = 48;
    let mut idx = VecqIndex::new(dim, 19);
    for i in 0..25u64 {
        add_keyed(&mut idx, i, &rand_unit(dim, i * 3 + 1));
    }
    idx.remove_keyed(4);
    let q = rand_unit(dim, 900);
    let pq = prepare(&idx, &q);
    let found = search(&idx, &q, 6);
    assert_eq!(found.len(), 6);
    let worst = found[5].1;
    for slot in 0..25 {
        let s = score(&idx, &pq, slot);
        match found.iter().find(|(f, _)| *f == slot) {
            Some((_, fs)) => assert_eq!(fs.to_bits(), s.to_bits()),
            None => assert!(slot == 4 || s <= worst),
        }
    }
    // A search for all finds every live vector.
    let mut all: Vec<usize> = search(&idx, &q, 24).into_iter().map(|(i, _)| i).collect();
    all.sort_unstable();
    assert_eq!(all, (0..25).filter(|&i| i != 4).collect::<Vec<usize>>());
}

#[test]
fn compaction_renumbers_and_does_nothing_twice() {
    let dim = 48;
    let mut idx = VecqIndex::with_residual(dim, 19);
    for i in 0..9u64 {
        add_keyed(&mut idx, i, &rand_unit(dim, i * 3 + 1));
    }
    for key in [0u64, 3, 4, 8] {
        idx.remove_keyed(key);
    }
    let q = rand_unit(dim, 901);
    let before = search(&idx, &q, 5);
    idx.compact();
    let kept = [1usize, 2, 5, 6, 7];
    let after: Vec<(usize, f32)> =
        search(&idx, &q, 5).into_iter().map(|(i, s)| (kept[i], s)).collect();
    assert_eq!(after, before);
    let bytes = idx.to_bytes();
    idx.compact();
    assert_eq!(idx.to_bytes(), bytes);
    assert_eq!((idx.slots(), idx.len()), (5, 5));
}

/// The same calls on any index: additions, removals, a renaming, a compaction.
fn some_calls(idx: &mut VecqIndex, dim: usize) {
    for i in 0..12 {
        add_keyed(idx, i % 9, &rand_unit(dim, i + 5));
    }
    add(idx, &rand_unit(dim, 70));
    idx.add_keyed_multi(2, &bits(&rand_unit(dim, 71)), &native);
    assert!(idx.remove_keyed(4));
    idx.compact();
    assert!(idx.relabel(7, 40));
    assert!(idx.remove_keyed(2));
}

#[test]
fn the_same_calls_give_the_same_bytes() {
    let dim = 24;
    let mut a = VecqIndex::new(dim, 77);
    let mut b = VecqIndex::with_working_dim(dim, dim, 77);
    some_calls(&mut a, dim);
    some_calls(&mut b, dim);
    assert_eq!(a.tombstones(), 2);
    assert_eq!(a.to_bytes(), b.to_bytes());
    // A compaction first changes nothing in the file.
    b.compact();
    assert_eq!((a.tombstones(), b.tombstones()), (2, 0));
    assert_eq!(a.to_bytes(), b.to_bytes());
    // Another seed does.
    let mut c = VecqIndex::new(dim, 78);
    some_calls(&mut c, dim);
    assert_ne!(a.to_bytes(), c.to_bytes());
}

#[test]
fn scores_are_cosines_and_survive_a_reload() {
    for (dim, width) in [(2usize, 4u8), (48, 4), (128, 5), (300, 6)] {
        let mut idx = VecqIndex::new(dim, 9);
        idx.set_bits(width);
        for i in 0..20 {
            add(&mut idx, &rand_unit(dim, i + 3));
        }
        let back = VecqIndex::from_bytes(&idx.to_bytes()).unwrap();
        let slack = (idx.padded_dim() as f32 + 8.0) / 1048576.0;
        for j in 0..20 {
            // A stored vector is the query that comes nearest to its own slot.
            let q = rand_unit(dim, j + 3);
            let (p, r) = (prepare(&idx, &q), prepare(&back, &q));
            for i in 0..20 {
                let (s, t) = (score(&idx, &p, i), score(&back, &r, i));
                assert!(s.abs() <= 1.0 + slack, "dim {dim}: {s}");
                assert!((s - t).abs() < 1e-3, "dim {dim}: {s} and {t}");
            }
        }
    }
}

#[test]
fn scores_of_two_passes_survive_a_reload() {
    let dim = 64;
    let mut idx = VecqIndex::with_residual(dim, 9);
    for i in 0..20 {
        add(&mut idx, &rand_unit(dim, i + 3));
    }
    let back = VecqIndex::from_bytes(&idx.to_bytes()).unwrap();
    let q = rand_unit(dim, 8);
    let (p, r) = (prepare(&idx, &q), prepare(&back, &q));
    for i in 0..20 {
        assert!((score(&idx, &p, i) - score(&back, &r, i)).abs() < 1e-3);
    }
}
