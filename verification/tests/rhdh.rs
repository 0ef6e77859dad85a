use vecq::arith::Op;
use vecq::rhdh::{fwht, padded_dim, Rhdh, SignStream};

fn native(op: Op, a: u32, b: u32) -> u32 {
    let (x, y) = (f32::from_bits(a), f32::from_bits(b));
    let r = match op {
        Op::Add => x + y,
        Op::Sub => x - y,
        Op::Mul => x * y,
        Op::Div => x / y,
        Op::Sqrt => x.sqrt(),
    };
    r.to_bits()
}

fn bits(v: &[f32]) -> Vec<u32> {
    v.iter().map(|x| x.to_bits()).collect()
}

fn values(v: &[u32]) -> Vec<f32> {
    v.iter().map(|&x| f32::from_bits(x)).collect()
}

fn apply(t: &Rhdh, v: &[f32]) -> Vec<f32> {
    let mut out = Vec::new();
    t.apply(&bits(v), &mut out, &native);
    values(&out)
}

#[test]
fn padded_dims() {
    assert_eq!(padded_dim(7), 8);
    assert_eq!(padded_dim(8), 8);
    assert_eq!(padded_dim(384), 512);
    assert_eq!(padded_dim(1024), 1024);
}

#[test]
fn transform_scales_norm_by_sqrt_padded() {
    let t = Rhdh::new(8, 42);
    let v: Vec<f32> = vec![0.3, -0.5, 0.2, 0.8, -0.1, 0.4, 0.6, -0.7];
    let out = apply(&t, &v);
    let n_in: f32 = v.iter().map(|x| x * x).sum::<f32>().sqrt();
    let n_out: f32 = out.iter().map(|x| x * x).sum::<f32>().sqrt();
    let scale = n_out / n_in;
    assert!((scale - (8f32).sqrt()).abs() < 1e-3, "scale {scale} expected sqrt(8)");
}

#[test]
fn deterministic_from_seed() {
    let a = Rhdh::new(16, 7);
    let b = Rhdh::new(16, 7);
    let c = Rhdh::new(16, 8);
    let v: Vec<f32> = (0..16).map(|i| (i as f32 * 0.13 - 1.0).sin()).collect();
    let (oa, ob, oc) = (apply(&a, &v), apply(&b, &v), apply(&c, &v));
    assert_eq!(oa, ob, "same seed must be byte-identical");
    assert_ne!(oa, oc, "different seed must differ");
}

#[test]
fn unit_vector_coords_approach_normal() {
    let d = 512;
    let t = Rhdh::new(d, 1234);
    let mut state = 0x853C_49E6_748F_EA9Bu64;
    let mut v = vec![0.0f32; d];
    for x in v.iter_mut() {
        state ^= state << 13;
        state ^= state >> 7;
        state ^= state << 17;
        let u1 = (state >> 11) as f64 / (1u64 << 53) as f64 + 1e-12;
        let u2 = ((state >> 21) as f64) / 4294967296.0;
        *x = ((-2.0 * u1.ln()).sqrt() * (std::f64::consts::TAU * u2).cos()) as f32;
    }
    let norm: f32 = v.iter().map(|x| x * x).sum::<f32>().sqrt();
    for x in v.iter_mut() {
        *x /= norm;
    }
    let out = apply(&t, &v);
    let var: f32 = out.iter().map(|x| x * x).sum::<f32>() / out.len() as f32;
    let expected = 1.0f32;
    assert!((var / expected - 1.0).abs() < 0.3, "var {var} expected ~{expected}");
}

#[test]
fn padding_of_small_and_exact_dims() {
    assert_eq!(padded_dim(0), 1);
    assert_eq!(padded_dim(1), 1);
    assert_eq!(padded_dim(2), 2);
    assert_eq!(padded_dim(3), 4);
    assert_eq!(padded_dim(1025), 2048);
}

#[test]
fn signs_of_a_seed_are_fixed() {
    let signs = |seed: u64, n: usize| -> Vec<f32> {
        let mut s = SignStream::new(seed);
        (0..n).map(|_| f32::from_bits(s.next_sign())).collect()
    };
    assert_eq!(signs(42, 8), vec![-1.0, 1.0, 1.0, 1.0, 1.0, 1.0, -1.0, -1.0]);
    assert_eq!(signs(0, 8), vec![-1.0, -1.0, 1.0, -1.0, 1.0, 1.0, 1.0, -1.0]);
    assert_eq!(values(&Rhdh::new(5, 42).signs), signs(42, 8));
}

#[test]
fn hadamard_of_small_vectors() {
    let mut v = bits(&[1.0, 0.0, 0.0, 0.0]);
    fwht(&mut v, &native);
    assert_eq!(values(&v), vec![1.0, 1.0, 1.0, 1.0]);
    let mut v = bits(&[1.0, 2.0, 3.0, 4.0]);
    fwht(&mut v, &native);
    assert_eq!(values(&v), vec![10.0, -2.0, -4.0, 0.0]);
    let mut v = bits(&[5.0]);
    fwht(&mut v, &native);
    assert_eq!(values(&v), vec![5.0]);
}

#[test]
fn transforming_integers_multiplies_the_energy_exactly() {
    let v: Vec<f32> = (0..64).map(|i| ((i * 37) % 19) as f32 - 9.0).collect();
    let mut w = bits(&v);
    fwht(&mut w, &native);
    let before: f32 = v.iter().map(|x| x * x).sum();
    let after: f32 = values(&w).iter().map(|x| x * x).sum();
    assert_eq!(after, 64.0 * before);
    fwht(&mut w, &native);
    let back: Vec<f32> = values(&w).iter().map(|x| x / 64.0).collect();
    assert_eq!(back, v);
}

#[test]
fn short_input_is_padded_and_old_output_dropped() {
    let t = Rhdh::new(3, 42);
    let mut out = bits(&[7.0; 9]);
    t.apply(&bits(&[1.0, 2.0, 3.0]), &mut out, &native);
    // Signs of this seed: -1, 1, 1, 1.
    assert_eq!(values(&out), vec![4.0, 0.0, -2.0, -6.0]);
}
