use vecq::arith::Op;
use vecq::format::{Error, MAGIC, V1, V1_3, V1_4, V1_5};
use vecq::store::VecqIndex;

fn native(op: Op, a: u32, b: u32) -> u32 {
    let (x, y) = (f32::from_bits(a), f32::from_bits(b));
    let r = match op {
        Op::Add => x + y,
        Op::Sub => x - y,
        Op::Mul => x * y,
        Op::Div => x / y,
        Op::Sqrt => x.sqrt(),
    };
    r.to_bits()
}

fn bits(v: &[f32]) -> Vec<u32> {
    v.iter().map(|x| x.to_bits()).collect()
}

fn add(idx: &mut VecqIndex, v: &[f32]) -> usize {
    idx.add(&bits(v), &native)
}

fn search(idx: &VecqIndex, q: &[f32], k: usize) -> Vec<(usize, f32)> {
    let found = idx.search(&bits(q), k, &native);
    found.into_iter().map(|(i, s)| (i, f32::from_bits(s))).collect()
}

fn unit(dim: usize, salt: u64) -> Vec<f32> {
    let mut x = salt | 1;
    let mut v = Vec::with_capacity(dim);
    for _ in 0..dim {
        x ^= x << 13;
        x ^= x >> 7;
        x ^= x << 17;
        v.push((x as f32 / u32::MAX as f32 - 0.5) * 2.0);
    }
    let norm: f32 = v.iter().map(|a| a * a).sum::<f32>().sqrt();
    v.into_iter().map(|a| a / norm).collect()
}

#[test]
fn round_trip_is_identical() {
    let mut idx = VecqIndex::new(384, 99);
    for i in 0..50 {
        add(&mut idx, &unit(384, i * 7 + 1));
    }
    let bytes = idx.to_bytes();
    let back = VecqIndex::from_bytes(&bytes).expect("parse");
    assert_eq!(back.len(), 50);
    assert_eq!(back.dim(), 384);
    assert_eq!(back.seed(), 99);
    // Same file, identical search results.
    let q = unit(384, 4242);
    let r1 = search(&back, &q, 10);
    let bytes2 = back.to_bytes();
    assert_eq!(bytes, bytes2, "re-serialize must be byte-identical");
    let back2 = VecqIndex::from_bytes(&bytes2).unwrap();
    assert_eq!(r1, search(&back2, &q, 10));
    // Half-precision scales perturb scores by less than 1e-3.
    let r0 = search(&idx, &q, 10);
    assert_eq!(r0[0].0, r1[0].0);
    let overlap = r0.iter().filter(|(i, _)| r1.iter().any(|(j, _)| i == j)).count();
    assert!(overlap >= 9, "top-10 overlap {overlap}");
}

#[test]
fn v11_file_smaller_and_v1_readable() {
    let mut idx = VecqIndex::new(384, 7);
    for i in 0..30 {
        add(&mut idx, &unit(384, i + 3));
    }
    let v11 = idx.to_bytes();
    // A file of version 1, with binary32 scales.
    let mut v1 = Vec::new();
    v1.extend_from_slice(&MAGIC.to_le_bytes());
    v1.extend_from_slice(&V1.to_le_bytes());
    v1.extend_from_slice(&0u16.to_le_bytes());
    v1.extend_from_slice(&(384u32).to_le_bytes());
    v1.extend_from_slice(&7u64.to_le_bytes());
    v1.extend_from_slice(&(30u32).to_le_bytes());
    for i in 0..30 {
        v1.extend_from_slice(&idx.slot_scale(i).to_le_bytes());
    }
    let codes = &v11[24 + 30 * 2..];
    v1.extend_from_slice(codes);
    let from_v1 = VecqIndex::from_bytes(&v1).expect("v1 readable");
    assert_eq!(from_v1.len(), 30);
    let q = unit(384, 55);
    assert_eq!(search(&idx, &q, 5), search(&from_v1, &q, 5));
    assert_eq!(v1.len() - v11.len(), 30 * 2);
}

#[test]
fn deterministic_across_instances() {
    let mut a = VecqIndex::new(64, 5);
    let mut b = VecqIndex::new(64, 5);
    for i in 0..10 {
        let v = unit(64, i + 100);
        add(&mut a, &v);
        add(&mut b, &v);
    }
    assert_eq!(a.to_bytes(), b.to_bytes());
}

#[test]
fn rejects_garbage() {
    assert!(matches!(
        VecqIndex::from_bytes(b"nonsense-not-a-file-at-all"),
        Err(Error::NotAStableFile)
    ));
    assert!(matches!(VecqIndex::from_bytes(&[]), Err(Error::Truncated)));
}

fn header(version: u16, reserved: u16, dim: u32, count: u32) -> Vec<u8> {
    let mut b = Vec::new();
    b.extend_from_slice(b"VECQ");
    b.extend_from_slice(&version.to_le_bytes());
    b.extend_from_slice(&reserved.to_le_bytes());
    b.extend_from_slice(&dim.to_le_bytes());
    b.extend_from_slice(&5u64.to_le_bytes());
    b.extend_from_slice(&count.to_le_bytes());
    b
}

fn verdict(b: &[u8]) -> Option<Error> {
    VecqIndex::from_bytes(b).err()
}

#[test]
fn magic_spells_the_name() {
    assert_eq!(MAGIC.to_le_bytes(), *b"VECQ");
}

#[test]
fn file_of_a_small_index_byte_by_byte() {
    let mut idx = VecqIndex::new(2, 1);
    idx.add_keyed(0x0102, &bits(&[1.0, 0.0]), &native);
    add(&mut idx, &[0.0, 1.0]);
    let h = |slot: usize| -> [u8; 2] {
        vecq::half::f32_to_f16_bits(idx.slot_scale(slot)).to_le_bytes()
    };
    let mut want = Vec::new();
    want.extend_from_slice(b"VECQ");
    want.extend_from_slice(&[3, 1, 0, 0]);
    want.extend_from_slice(&[2, 0, 0, 0]);
    want.extend_from_slice(&[1, 0, 0, 0, 0, 0, 0, 0]);
    want.extend_from_slice(&[2, 0, 0, 0]);
    want.extend_from_slice(&h(0));
    want.extend_from_slice(&h(1));
    want.extend_from_slice(idx.slot_codes(0));
    want.extend_from_slice(idx.slot_codes(1));
    want.extend_from_slice(&[1, 0, 0, 0]);
    want.extend_from_slice(&[0, 0, 0, 0]);
    want.extend_from_slice(&[2, 1, 0, 0, 0, 0, 0, 0]);
    assert_eq!(idx.to_bytes(), want);
}

#[test]
fn versions_follow_the_mode() {
    let version = |b: &[u8]| u16::from_le_bytes([b[4], b[5]]);
    let plain = VecqIndex::new(8, 1);
    assert_eq!(version(&plain.to_bytes()), V1_3);
    let residual = VecqIndex::with_residual(8, 1);
    assert_eq!(version(&residual.to_bytes()), V1_4);
    for width in [5u8, 6] {
        let mut wide = VecqIndex::new(8, 1);
        wide.set_bits(width);
        let b = wide.to_bytes();
        assert_eq!(version(&b), V1_5);
        assert_eq!(b[24], width);
        assert_eq!(b.len(), 24 + 1 + 4);
    }
}

#[test]
fn older_versions_load_like_the_current_one() {
    let mut idx = VecqIndex::new(128, 33);
    for i in 0..8 {
        add(&mut idx, &unit(128, i + 50));
    }
    let bytes = idx.to_bytes();
    let q = unit(128, 777);
    let expected = search(&VecqIndex::from_bytes(&bytes).unwrap(), &q, 5);
    for version in [257u16, 258] {
        let mut old = bytes.clone();
        old[4..6].copy_from_slice(&version.to_le_bytes());
        assert_eq!(search(&VecqIndex::from_bytes(&old).unwrap(), &q, 5), expected);
    }
}

#[test]
fn removed_slots_are_not_written_and_keys_are() {
    let dim = 16;
    let mut idx = VecqIndex::new(dim, 2);
    for key in 0..5u64 {
        idx.add_keyed(key + 100, &bits(&unit(dim, key + 1)), &native);
    }
    add(&mut idx, &unit(dim, 60));
    idx.remove_keyed(100);
    idx.remove_keyed(103);
    let back = VecqIndex::from_bytes(&idx.to_bytes()).unwrap();
    assert_eq!((back.len(), back.slots(), back.tombstones()), (4, 4, 0));
    let keys: Vec<Option<u64>> = (0..4).map(|s| back.key_of(s)).collect();
    assert_eq!(keys, vec![Some(101), Some(102), Some(104), None]);
    assert_eq!(back.slot_codes(0), idx.slot_codes(1));
    assert!(back.contains_key(104) && !back.contains_key(100));
    // A compaction has the same file.
    let before = idx.to_bytes();
    idx.compact();
    assert_eq!(idx.to_bytes(), before);
    assert_eq!(idx.key_of(2), Some(104));
}

#[test]
fn every_mode_round_trips() {
    let dim = 24;
    let mut wide = VecqIndex::with_working_dim(dim, 9, 3);
    wide.set_bits(6);
    let mut residual = VecqIndex::with_residual(dim, 4);
    for idx in [&mut wide, &mut residual] {
        for i in 0..5 {
            add(idx, &unit(dim, i + 9));
        }
        let bytes = idx.to_bytes();
        let back = VecqIndex::from_bytes(&bytes).unwrap();
        assert_eq!(back.working_dim(), idx.working_dim());
        assert_eq!(back.bits(), idx.bits());
        assert_eq!(back.is_residual(), idx.is_residual());
        assert_eq!(back.to_bytes(), bytes);
        for s in 0..5 {
            assert_eq!(back.slot_codes(s), idx.slot_codes(s));
            if idx.is_residual() {
                assert_eq!(back.slot_codes2(s), idx.slot_codes2(s));
            }
        }
    }
}

#[test]
fn every_cut_of_a_file_is_refused() {
    let dim = 16;
    let mut plain = VecqIndex::new(dim, 2);
    plain.add_keyed(7, &bits(&unit(dim, 1)), &native);
    let mut wide = VecqIndex::new(dim, 2);
    wide.set_bits(5);
    let mut residual = VecqIndex::with_residual(dim, 2);
    add(&mut wide, &unit(dim, 1));
    add(&mut residual, &unit(dim, 1));
    for idx in [&plain, &wide, &residual] {
        let bytes = idx.to_bytes();
        for n in 0..bytes.len() {
            assert_eq!(verdict(&bytes[..n]), Some(Error::Truncated), "cut at {n}");
        }
        // What follows the file is not looked at.
        let mut longer = bytes.clone();
        longer.push(0);
        assert_eq!(verdict(&longer), None);
    }
}

#[test]
fn headers_are_checked() {
    let mut bad = header(259, 0, 8, 0);
    bad.extend_from_slice(&[0; 4]);
    assert_eq!(verdict(&bad), None);
    bad[0] = b'X';
    assert_eq!(verdict(&bad), Some(Error::NotAStableFile));
    for version in [0u16, 2, 256, 262] {
        let b = header(version, 0, 8, 0);
        assert_eq!(verdict(&b), Some(Error::UnsupportedVersion(version)));
    }
    assert_eq!(
        verdict(&header(258, 9, 8, 0)),
        Some(Error::InvalidWorkingDim { dim: 8, working_dim: 9 })
    );
    // Before version 1.2 the field is not a working dimension.
    assert_eq!(verdict(&header(257, 9, 8, 0)), None);
    assert_eq!(VecqIndex::from_bytes(&header(258, 3, 8, 0)).unwrap().working_dim(), 3);
    assert_eq!(
        verdict(&header(258, 0, 0, 0)),
        Some(Error::InvalidWorkingDim { dim: 0, working_dim: 0 })
    );
    let mut wide = header(261, 0, 8, 0);
    assert_eq!(verdict(&wide), Some(Error::Truncated));
    for width in [0u8, 3, 7, 255] {
        wide.truncate(24);
        wide.extend_from_slice(&[width, 0, 0, 0, 0]);
        assert_eq!(verdict(&wide), Some(Error::InvalidWidth { width }));
    }
    assert_eq!(verdict(&header(258, 0, u32::MAX, u32::MAX)), Some(Error::Truncated));
}

#[test]
fn key_tables_are_checked() {
    // Three vectors of eight dimensions: six bytes of scales, twelve of codes.
    let file = |entries: &[(u32, u64)]| -> Vec<u8> {
        let mut b = header(259, 0, 8, 3);
        b.extend_from_slice(&[0; 18]);
        b.extend_from_slice(&(entries.len() as u32).to_le_bytes());
        for (slot, key) in entries {
            b.extend_from_slice(&slot.to_le_bytes());
            b.extend_from_slice(&key.to_le_bytes());
        }
        b
    };
    assert_eq!(verdict(&file(&[(3, 1)])), Some(Error::InvalidKeyTable));
    assert_eq!(verdict(&file(&[(1, 1), (1, 2)])), Some(Error::InvalidKeyTable));
    let idx = VecqIndex::from_bytes(&file(&[(2, 9), (0, 9)])).unwrap();
    assert_eq!(idx.key_of(0), Some(9));
    assert_eq!(idx.key_of(1), None);
    assert_eq!(idx.key_of(2), Some(9));
    let mut short = file(&[(0, 1)]);
    short.pop();
    assert_eq!(verdict(&short), Some(Error::Truncated));
}

#[test]
fn scales_are_read_in_the_precision_of_the_version() {
    let mut v1 = header(1, 0, 2, 1);
    v1.extend_from_slice(&0.1f32.to_le_bytes());
    v1.push(0x21);
    let idx = VecqIndex::from_bytes(&v1).unwrap();
    assert_eq!(idx.slot_scale(0), 0.1f32.to_bits());
    assert_eq!(idx.slot_codes(0), &[0x21]);
    let mut v11 = header(257, 0, 2, 1);
    v11.extend_from_slice(&0x3C01u16.to_le_bytes());
    v11.push(0x43);
    let idx = VecqIndex::from_bytes(&v11).unwrap();
    assert_eq!(f32::from_bits(idx.slot_scale(0)), 1.0 + 1.0 / 1024.0);
    assert_eq!(idx.slot_codes(0), &[0x43]);
}

#[test]
fn errors_in_words() {
    let cases = [
        (Error::NotAStableFile, "not a vecq file"),
        (Error::UnsupportedVersion(262), "unsupported version 262"),
        (Error::Truncated, "file truncated"),
        (Error::DimMismatch { expected: 10, got: 0 }, "dim mismatch: expected 10, got 0"),
        (
            Error::InvalidWorkingDim { dim: 64, working_dim: 1289 },
            "invalid working_dim 1289 for dim 64",
        ),
        (Error::InvalidWidth { width: 7 }, "invalid code width 7"),
        (Error::InvalidKeyTable, "invalid keyed-slot table"),
    ];
    for (e, text) in cases {
        assert_eq!(e.message(), text);
    }
}

#[test]
fn bytes_per_vector_of_every_mode() {
    let dim = 768;
    let v = unit(dim, 5);
    for (width, size) in [(4u8, 514), (5, 642), (6, 770)] {
        let mut idx = VecqIndex::new(dim, 42);
        idx.set_bits(width);
        let empty = idx.to_bytes().len();
        add(&mut idx, &v);
        assert_eq!(idx.to_bytes().len() - empty, size);
    }
    let mut idx = VecqIndex::with_residual(dim, 42);
    let empty = idx.to_bytes().len();
    assert_eq!(empty, 24 + 4);
    add(&mut idx, &v);
    assert_eq!(idx.to_bytes().len() - empty, 1028);
    idx.add_keyed(3, &bits(&v), &native);
    assert_eq!(idx.to_bytes().len() - empty, 2 * 1028 + 12);
}

#[test]
fn a_file_of_an_older_version_has_no_keys() {
    let dim = 16;
    let mut idx = VecqIndex::new(dim, 2);
    for key in 0..4u64 {
        idx.add_keyed(key, &bits(&unit(dim, key + 1)), &native);
    }
    let mut old = idx.to_bytes();
    let new = VecqIndex::from_bytes(&old).unwrap();
    old[4..6].copy_from_slice(&257u16.to_le_bytes());
    let back = VecqIndex::from_bytes(&old).unwrap();
    assert_eq!(back.len(), 4);
    assert!((0..4).all(|s| back.key_of(s).is_none() && new.key_of(s) == Some(s as u64)));
    let q = unit(dim, 40);
    assert_eq!(search(&back, &q, 4), search(&new, &q, 4));
}

#[test]
fn a_reload_moves_scales_by_at_most_one_part_in_2048() {
    let mut idx = VecqIndex::with_residual(64, 3);
    for i in 0..12 {
        add(&mut idx, &unit(64, i + 1));
    }
    let back = VecqIndex::from_bytes(&idx.to_bytes()).unwrap();
    for s in 0..12 {
        for (was, now) in [
            (idx.slot_scale(s), back.slot_scale(s)),
            (idx.slot_scale2(s), back.slot_scale2(s)),
        ] {
            let (was, now) = (f32::from_bits(was), f32::from_bits(now));
            assert!((2f32.powi(-14)..65520.0).contains(&was));
            assert!((now - was).abs() * 2048.0 <= was, "{was} -> {now}");
        }
    }
}
