use rand::{thread_rng, Rng};
use rand_distr::{Distribution, Normal};
use ttfhe::ggsw::compute_bsk;
use ttfhe::glwe::{keygen, GlweCiphertext};
use ttfhe::lwe::{LweCiphertext, LweSecretKey};
use ttfhe::utils::{decode, decode_bootstrapped, encode};
use ttfhe::{ELL, N};

/// Rounded Gaussian noise with standard deviation 2^39.
fn glwe_noise() -> i64 {
    let normal = Normal::new(0.0, f64::powf(2.0, 39.0)).unwrap();
    normal.sample(&mut thread_rng()).round() as i64
}

#[test]
fn glwe_test_keygen_enc_dec() {
    let sk = keygen();
    for _ in 0..100 {
        let msg = thread_rng().gen_range(0..16);
        let ct = GlweCiphertext::encrypt(encode(msg), &sk, glwe_noise());
        let pt = decode(ct.decrypt(&sk));
        assert_eq!(pt, msg);
    }
}

#[test]
fn glwe_test_add() {
    let sk = keygen();
    for _ in 0..100 {
        let msg1 = thread_rng().gen_range(0..16);
        let msg2 = thread_rng().gen_range(0..16);
        let ct1 = GlweCiphertext::encrypt(encode(msg1), &sk, glwe_noise());
        let ct2 = GlweCiphertext::encrypt(encode(msg2), &sk, glwe_noise());
        let res = ct1.add(&ct2);
        let pt = decode(res.decrypt(&sk));
        assert_eq!(pt, (msg1 + msg2) % 16);
    }
}

#[test]
fn glwe_test_sub() {
    let sk = keygen();
    for _ in 0..100 {
        let msg1 = thread_rng().gen_range(0..16);
        let msg2 = thread_rng().gen_range(0..16);
        let ct1 = GlweCiphertext::encrypt(encode(msg1), &sk, glwe_noise());
        let ct2 = GlweCiphertext::encrypt(encode(msg2), &sk, glwe_noise());
        let res = ct1.sub(&ct2);
        let pt = decode(res.decrypt(&sk));
        assert_eq!(pt, (msg1.wrapping_sub(msg2)) % 16);
    }
}

#[test]
fn test_sample_extract() {
    let sk = keygen();
    let msg = thread_rng().gen_range(0..16);
    let ct = GlweCiphertext::encrypt(encode(msg), &sk, glwe_noise());

    let sample_extracted: LweCiphertext = ct.sample_extract();
    let recoded_sk: LweSecretKey = sk.recode();

    let pt = decode(sample_extracted.decrypt(&recoded_sk));
    assert_eq!(pt, msg)
}

#[test]
fn glwe_encrypt_with_zero_noise_decrypts_exactly() {
    let sk = keygen();
    let ct = GlweCiphertext::encrypt(987654321, &sk, 0);
    assert_eq!(ct.decrypt(&sk), 987654321);
    assert_eq!(ct.sample_extract().decrypt(&sk.recode()), 987654321);
}

#[test]
fn sample_extract_reverses_and_negates() {
    let mut ct = GlweCiphertext::trivial_encrypt(42);
    ct.mask[0].coefs[0] = 5;
    ct.mask[0].coefs[1] = 6;
    ct.mask[0].coefs[N - 1] = 7;
    let lwe = ct.sample_extract();
    assert_eq!(lwe.mask.len(), N);
    assert_eq!(lwe.mask[0], 5);
    assert_eq!(lwe.mask[1], 0u64.wrapping_sub(7));
    assert_eq!(lwe.mask[N - 1], 0u64.wrapping_sub(6));
    assert_eq!(lwe.body, 42);
}

#[test]
fn trivial_encrypt_decrypts_under_any_key() {
    let sk = keygen();
    let ct = GlweCiphertext::trivial_encrypt(encode(9));
    assert!(ct.mask[0].coefs.iter().all(|&c| c == 0));
    assert_eq!(ct.decrypt(&sk), encode(9));
}

#[test]
fn lut_poly_layout() {
    let lut = GlweCiphertext::trivial_encrypt_lut_poly();
    assert!(lut.mask[0].coefs.iter().all(|&c| c == 0));
    assert_eq!(lut.body.coefs[0], encode(0));
    assert_eq!(lut.body.coefs[63], encode(0));
    assert_eq!(lut.body.coefs[64], encode(1));
    assert_eq!(lut.body.coefs[N - 65], encode(7));
    assert_eq!(lut.body.coefs[N - 64], encode(0));
    assert_eq!(lut.body.coefs[N - 1], encode(0));
}

#[test]
fn rotate_moves_every_component() {
    let mut ct = GlweCiphertext::trivial_encrypt(3);
    ct.mask[0].coefs[0] = 4;
    let r = ct.rotate(2);
    assert_eq!(r.mask[0].coefs[2], 4);
    assert_eq!(r.body.coefs[2], 3);
    assert_eq!(r.body.coefs[0], 0);
    let mut t = ct.clone();
    t.rotate_trivial(2 * N as u64 - 1);
    // X^{-1} * 3 = -3 X^{N-1}
    assert_eq!(t.body.coefs[N - 1], 0u64.wrapping_sub(3));
    assert_eq!(t.mask[0].coefs[0], 4);
}

#[test]
fn recode_copies_the_key() {
    let sk = keygen();
    assert_eq!(sk.recode(), sk.polys[0].coefs);
}

#[test]
fn trivial_bootstrap_with_zero_key() {
    // Under the all-zero key every CMUX keeps its first input, so bootstrapping a
    // ciphertext whose mask is zero rotates the table by -body only.
    let s: LweSecretKey = vec![0u64; N];
    let sk = keygen();
    let noise = vec![0i64; N * 2 * ELL];
    let bsk = compute_bsk(&s, &sk, &noise);
    let c = LweCiphertext { mask: vec![0u64; N], body: 256 };
    let res = ttfhe::glwe::bootstrap(c, &bsk);
    let pt = decode_bootstrapped(res.decrypt(&sk.recode()));
    assert_eq!(pt, 2);
}

/// One trial of the full bootstrap with fresh keys: blind rotation of the lookup table
/// by an encryption of a plaintext in [0, 8), sample extraction, decoding.
fn blind_rotation_trial() {
    let sk1 = keygen().recode();
    let sk2 = keygen();
    let noise: Vec<i64> = (0..N * 2 * ELL).map(|_| glwe_noise()).collect();
    let bsk = compute_bsk(&sk1, &sk2, &noise); // list of encryptions under `sk2` of the bits of `sk1`.

    let lut = GlweCiphertext::trivial_encrypt_lut_poly();

    let msg = thread_rng().gen_range(0..8);
    let lwe_normal = Normal::new(0.0, f64::powf(2.0, 29.0)).unwrap();
    let e = lwe_normal.sample(&mut thread_rng()).round() as i64;
    let c = LweCiphertext::encrypt(encode(msg), &sk1, e).modswitch(); // "noisy" ciphertext that will be bootstrapped

    let blind_rotated_lut = lut.blind_rotate(c, &bsk);

    let res = blind_rotated_lut.sample_extract().decrypt(&sk2.recode());
    let pt = decode_bootstrapped(res);

    assert_eq!(msg, pt)
}

#[test]
fn test_blind_rotation() {
    blind_rotation_trial();
}

#[test]
fn blind_rotation_trial_2() {
    blind_rotation_trial();
}

#[test]
fn blind_rotation_trial_3() {
    blind_rotation_trial();
}

#[test]
fn blind_rotation_trial_4() {
    blind_rotation_trial();
}

#[test]
fn blind_rotation_trial_5() {
    blind_rotation_trial();
}

#[test]
fn blind_rotation_trial_6() {
    blind_rotation_trial();
}

#[test]
fn blind_rotation_trial_7() {
    blind_rotation_trial();
}

#[test]
fn blind_rotation_trial_8() {
    blind_rotation_trial();
}

#[test]
fn blind_rotation_trial_9() {
    blind_rotation_trial();
}

#[test]
fn blind_rotation_trial_10() {
    blind_rotation_trial();
}

#[test]
fn blind_rotation_trial_11() {
    blind_rotation_trial();
}

#[test]
fn blind_rotation_trial_12() {
    blind_rotation_trial();
}

#[test]
fn blind_rotation_trial_13() {
    blind_rotation_trial();
}

#[test]
fn blind_rotation_trial_14() {
    blind_rotation_trial();
}

#[test]
fn blind_rotation_trial_15() {
    blind_rotation_trial();
}

#[test]
fn blind_rotation_trial_16() {
    blind_rotation_trial();
}
