use vecq::arith::Op;
use vecq::format::Error;
use vecq::store::VecqIndex;
use vecq::view::VecqView;

fn native(op: Op, a: u32, b: u32) -> u32 {
    let (x, y) = (f32::from_bits(a), f32::from_bits(b));
    let r = match op {
        Op::Add => x + y,
        Op::Sub => x - y,
        Op::Mul => x * y,
        Op::Div => x / y,
        Op::Sqrt => x.sqrt(),
    };
    r.to_bits()
}

fn bits(v: &[f32]) -> Vec<u32> {
    v.iter().map(|x| x.to_bits()).collect()
}

fn add(idx: &mut VecqIndex, v: &[f32]) -> usize {
    idx.add(&bits(v), &native)
}

fn search(idx: &VecqIndex, q: &[f32], k: usize) -> Vec<(usize, f32)> {
    let found = idx.search(&bits(q), k, &native);
    found.into_iter().map(|(i, s)| (i, f32::from_bits(s))).collect()
}

fn view_search(view: &VecqView, q: &[f32], k: usize) -> Vec<(usize, f32)> {
    let found = view.search(&bits(q), k, &native);
    found.into_iter().map(|(i, s)| (i, f32::from_bits(s))).collect()
}

fn rand_unit(dim: usize, salt: u64) -> Vec<f32> {
    let mut x = salt | 1;
    let mut v = Vec::with_capacity(dim);
    for _ in 0..dim {
        x ^= x << 13;
        x ^= x >> 7;
        x ^= x << 17;
        v.push((x as f32 / u32::MAX as f32 - 0.5) * 2.0);
    }
    let norm: f32 = v.iter().map(|a| a * a).sum::<f32>().sqrt();
    v.into_iter().map(|a| a / norm).collect()
}

#[test]
fn view_matches_loaded_index_bitwise() {
    let dim = 128;
    for width in [4u8, 5, 6] {
        let mut idx = VecqIndex::new(dim, 42);
        idx.set_bits(width);
        for i in 0..20 {
            add(&mut idx, &rand_unit(dim, i + 11));
        }
        let bytes = idx.to_bytes();
        let loaded = VecqIndex::from_bytes(&bytes).unwrap();
        let view = VecqView::from_bytes(&bytes).unwrap();
        assert_eq!(view.len(), 20);
        assert_eq!(view.bits(), width);
        for qi in 0..5 {
            let q = rand_unit(dim, 900 + qi);
            let a = search(&loaded, &q, 7);
            let b = view_search(&view, &q, 7);
            assert_eq!(a.len(), b.len(), "bits {width} q{qi}");
            for ((sa, fa), (sb, fb)) in a.iter().zip(b.iter()) {
                assert_eq!(sa, sb, "bits {width} q{qi}");
                assert_eq!(fa.to_bits(), fb.to_bits(), "bits {width} q{qi}");
            }
        }
    }
}

#[test]
fn view_supports_residual_and_working_dim() {
    let dim = 128;
    let mut resid = VecqIndex::with_residual(dim, 7);
    for i in 0..12 {
        add(&mut resid, &rand_unit(dim, i + 300));
    }
    let bytes = resid.to_bytes();
    let loaded = VecqIndex::from_bytes(&bytes).unwrap();
    let view = VecqView::from_bytes(&bytes).unwrap();
    assert!(view.is_residual());
    let q = rand_unit(dim, 500);
    for (sa, fa) in search(&loaded, &q, 5) {
        let (_, fb) = view_search(&view, &q, 5).into_iter().find(|(sb, _)| *sb == sa).unwrap();
        assert_eq!(fa.to_bits(), fb.to_bits());
    }

    let mut wd = VecqIndex::with_working_dim(256, 64, 21);
    for i in 0..10 {
        add(&mut wd, &rand_unit(256, i + 700));
    }
    let bytes = wd.to_bytes();
    let loaded = VecqIndex::from_bytes(&bytes).unwrap();
    let view = VecqView::from_bytes(&bytes).unwrap();
    assert_eq!(view.working_dim(), 64);
    let q = rand_unit(256, 999);
    for (sa, fa) in search(&loaded, &q, 5) {
        let (_, fb) = view_search(&view, &q, 5).into_iter().find(|(sb, _)| *sb == sa).unwrap();
        assert_eq!(fa.to_bits(), fb.to_bits());
    }
}

#[test]
fn view_rejects_v1_and_truncated_bytes() {
    let mut idx = VecqIndex::new(64, 3);
    add(&mut idx, &rand_unit(64, 1));
    let bytes = idx.to_bytes();
    // Views only accept version 1.2 and later.
    let mut v1 = bytes.clone();
    v1[4] = 1;
    v1[5] = 0;
    assert!(matches!(VecqView::from_bytes(&v1), Err(Error::UnsupportedVersion(1))));
    // Too short or wrong magic must give an error.
    assert!(VecqView::from_bytes(&bytes[..10]).is_err());
    let mut bad = bytes.clone();
    bad[0] = b'X';
    assert!(VecqView::from_bytes(&bad).is_err());
    // Truncated payload.
    assert!(VecqView::from_bytes(&bytes[..bytes.len() - 1]).is_err());
}

#[test]
fn every_cut_is_refused_by_a_view() {
    let mut idx = VecqIndex::with_residual(16, 3);
    idx.add_keyed(4, &bits(&rand_unit(16, 1)), &native);
    let bytes = idx.to_bytes();
    for n in 0..bytes.len() {
        let want = if n < 24 { Error::NotAStableFile } else { Error::Truncated };
        assert_eq!(VecqView::from_bytes(&bytes[..n]).err(), Some(want), "cut at {n}");
    }
    let mut old = bytes.clone();
    old[4..6].copy_from_slice(&257u16.to_le_bytes());
    assert_eq!(VecqView::from_bytes(&old).err(), Some(Error::UnsupportedVersion(257)));
    let mut wide = bytes.clone();
    wide[6..8].copy_from_slice(&17u16.to_le_bytes());
    assert_eq!(
        VecqView::from_bytes(&wide).err(),
        Some(Error::InvalidWorkingDim { dim: 16, working_dim: 17 })
    );
}

#[test]
fn a_view_rejects_what_the_loader_rejects() {
    let mut idx = VecqIndex::new(16, 3);
    idx.add_keyed(4, &bits(&rand_unit(16, 1)), &native);
    let mut bytes = idx.to_bytes();
    let slot = bytes.len() - 12;
    bytes[slot] = 9;
    assert_eq!(VecqIndex::from_bytes(&bytes).err(), Some(Error::InvalidKeyTable));
    assert_eq!(VecqView::from_bytes(&bytes).err(), Some(Error::InvalidKeyTable));

    // One slot named twice.
    let mut idx = VecqIndex::new(16, 3);
    idx.add_keyed(4, &bits(&rand_unit(16, 1)), &native);
    idx.add_keyed(5, &bits(&rand_unit(16, 2)), &native);
    let mut bytes = idx.to_bytes();
    assert_eq!(VecqView::from_bytes(&bytes).unwrap().len(), 2);
    let slot = bytes.len() - 12;
    bytes[slot] = 0;
    assert_eq!(VecqIndex::from_bytes(&bytes).err(), Some(Error::InvalidKeyTable));
    assert_eq!(VecqView::from_bytes(&bytes).err(), Some(Error::InvalidKeyTable));

    // No dimension at all.
    let mut header = b"VECQ".to_vec();
    header.extend_from_slice(&258u16.to_le_bytes());
    header.extend_from_slice(&[0; 18]);
    let want = Some(Error::InvalidWorkingDim { dim: 0, working_dim: 0 });
    assert_eq!(VecqIndex::from_bytes(&header).err(), want);
    assert_eq!(VecqView::from_bytes(&header).err(), want);
}

#[test]
fn a_view_of_nothing() {
    let idx = VecqIndex::new(16, 3);
    let bytes = idx.to_bytes();
    let view = VecqView::from_bytes(&bytes).unwrap();
    assert!(view.is_empty());
    assert_eq!(view.dim(), 16);
    assert_eq!(view_search(&view, &rand_unit(16, 2), 4), vec![]);
    assert!(!view.accepts(&bits(&[0.0; 16]), &native));
    assert!(view.accepts(&bits(&rand_unit(16, 2)), &native));
}

#[test]
fn scores_of_a_view_are_those_of_the_search() {
    let dim = 32;
    let mut idx = VecqIndex::new(dim, 3);
    for i in 0..6 {
        add(&mut idx, &rand_unit(dim, i + 2));
    }
    let bytes = idx.to_bytes();
    let view = VecqView::from_bytes(&bytes).unwrap();
    let q = rand_unit(dim, 99);
    let pq = view.prepare_query(&bits(&q), &native);
    for (slot, s) in view_search(&view, &q, 6) {
        assert_eq!(view.score(&pq, slot, &native), s.to_bits());
    }
}

#[test]
fn one_dimension_takes_no_code_bytes() {
    // One vector of dimension one: a header, a scale, and an empty key table.
    let mut bytes = b"VECQ".to_vec();
    bytes.extend_from_slice(&259u16.to_le_bytes());
    bytes.extend_from_slice(&0u16.to_le_bytes());
    bytes.extend_from_slice(&1u32.to_le_bytes());
    bytes.extend_from_slice(&5u64.to_le_bytes());
    bytes.extend_from_slice(&1u32.to_le_bytes());
    bytes.extend_from_slice(&0x3C00u16.to_le_bytes());
    bytes.extend_from_slice(&0u32.to_le_bytes());
    assert_eq!(bytes.len(), 30);
    let loaded = VecqIndex::from_bytes(&bytes).unwrap();
    assert_eq!((loaded.dim(), loaded.len(), loaded.code_len()), (1, 1, 0));
    assert_eq!(loaded.slot_scale(0), 1f32.to_bits());
    assert_eq!(search(&loaded, &[-2.5], 3), vec![(0, 0.0)]);
    assert_eq!(loaded.to_bytes(), bytes);
    let view = VecqView::from_bytes(&bytes).unwrap();
    assert_eq!(view.len(), 1);
    assert_eq!(view_search(&view, &[-2.5], 3), vec![(0, 0.0)]);
    assert!(VecqIndex::from_bytes(&bytes[..29]).is_err());
    assert!(VecqView::from_bytes(&bytes[..29]).is_err());
}
