use rand::{thread_rng, Rng};
use rand_distr::{Distribution, Normal};
use ttfhe::lwe::{compute_ksk, lwe_keygen, LweCiphertext};
use ttfhe::utils::{decode, decode_modswitched, encode};
use ttfhe::{ELL, LWE_DIM};

/// Rounded Gaussian noise with standard deviation 2^29.
fn lwe_noise() -> i64 {
    let normal = Normal::new(0.0, f64::powf(2.0, 29.0)).unwrap();
    normal.sample(&mut thread_rng()).round() as i64
}

#[test]
fn test_keyswitch() {
    let sk1 = lwe_keygen();
    let sk2 = lwe_keygen();
    let noise: Vec<i64> = (0..ELL * LWE_DIM).map(|_| lwe_noise()).collect();
    let ksk = compute_ksk(&sk1, &sk2, &noise); //encrypt sk1 under sk2

    for _ in 0..100 {
        let msg = thread_rng().gen_range(0..16);

        let ct1 = LweCiphertext::encrypt(encode(msg), &sk1, lwe_noise());

        let res = ct1.keyswitch(&mut ksk.clone()).decrypt(&sk2);

        let pt = decode(res);

        assert_eq!(msg, pt);
    }
}

#[test]
fn lwe_test_keygen_enc_dec() {
    let sk = lwe_keygen();
    for _ in 0..100 {
        let msg = thread_rng().gen_range(0..16);
        let ct = LweCiphertext::encrypt(encode(msg), &sk, lwe_noise());
        let pt = decode(ct.decrypt(&sk));
        assert_eq!(pt, msg);
    }
}

#[test]
fn lwe_test_add() {
    let sk = lwe_keygen();
    for _ in 0..100 {
        let msg1 = thread_rng().gen_range(0..16);
        let msg2 = thread_rng().gen_range(0..16);
        let ct1 = LweCiphertext::encrypt(encode(msg1), &sk, lwe_noise());
        let ct2 = LweCiphertext::encrypt(encode(msg2), &sk, lwe_noise());
        let res = ct1.add(ct2);
        let pt = decode(res.decrypt(&sk));
        assert_eq!(pt, (msg1 + msg2) % 16);
    }
}

#[test]
fn lwe_test_sub() {
    let sk = lwe_keygen();
    for _ in 0..100 {
        let msg1 = thread_rng().gen_range(0..16);
        let msg2 = thread_rng().gen_range(0..16);
        let ct1 = LweCiphertext::encrypt(encode(msg1), &sk, lwe_noise());
        let ct2 = LweCiphertext::encrypt(encode(msg2), &sk, lwe_noise());
        let res = ct1.sub(&ct2);
        let pt = decode(res.decrypt(&sk));
        assert_eq!(pt, (msg1.wrapping_sub(msg2)) % 16);
    }
}

#[test]
fn test_modswitch() {
    for _ in 0..100 {
        let sk = lwe_keygen();
        let msg = thread_rng().gen_range(0..16);
        let ct = LweCiphertext::encrypt(encode(msg), &sk, lwe_noise());
        let modswitched = ct.modswitch();
        let pt = decode_modswitched(modswitched.decrypt_modswitched(&sk));
        assert_eq!(pt, msg);
    }
}

#[test]
fn lwe_encrypt_with_zero_noise_decrypts_exactly() {
    let sk = lwe_keygen();
    let ct = LweCiphertext::encrypt(12345, &sk, 0);
    assert_eq!(ct.mask.len(), LWE_DIM);
    assert_eq!(ct.decrypt(&sk), 12345);
}

#[test]
fn decrypt_subtracts_the_masked_bits() {
    let mut sk = vec![0u64; LWE_DIM];
    sk[0] = 1;
    sk[2] = 1;
    let mut mask = vec![0u64; LWE_DIM];
    mask[0] = 5;
    mask[1] = 100;
    mask[2] = u64::MAX;
    let ct = LweCiphertext { mask, body: 10 };
    // 10 - (5 + (2^64 - 1)) = 6 modulo 2^64
    assert_eq!(ct.decrypt(&sk), 6);
}

#[test]
fn decrypt_modswitched_reduces_modulo_2n() {
    let mut sk = vec![0u64; LWE_DIM];
    sk[3] = 1;
    let mut mask = vec![0u64; LWE_DIM];
    mask[3] = 2000;
    let ct = LweCiphertext { mask, body: 100 };
    // (100 - 2000) mod 2048 = 148
    assert_eq!(ct.decrypt_modswitched(&sk), 148);
}

#[test]
fn modswitch_rounds_half_up() {
    let mut mask = vec![0u64; LWE_DIM];
    mask[0] = u64::MAX;
    mask[1] = 1u64 << 52;
    mask[2] = 3u64 << 52;
    let ct = LweCiphertext { mask, body: 1u64 << 53 };
    let m = ct.modswitch();
    assert_eq!(m.mask[0], 2048);
    assert_eq!(m.mask[1], 1);
    assert_eq!(m.mask[2], 2);
    assert_eq!(m.mask[3], 0);
    assert_eq!(m.body, 1);
}

#[test]
fn add_and_sub_wrap_around() {
    let a = LweCiphertext { mask: vec![u64::MAX, 3], body: 1 };
    let b = LweCiphertext { mask: vec![2, 5], body: u64::MAX };
    let s = a.clone().add(b.clone());
    assert_eq!(s.mask, vec![1, 8]);
    assert_eq!(s.body, 0);
    let d = a.sub(&b);
    assert_eq!(d.mask, vec![u64::MAX - 2, u64::MAX - 1]);
    assert_eq!(d.body, 2);
}

#[test]
fn multiply_constant_assign_wraps() {
    let mut a = LweCiphertext { mask: vec![3, 1u64 << 63], body: u64::MAX };
    a.multiply_constant_assign(2);
    assert_eq!(a.mask, vec![6, 0]);
    assert_eq!(a.body, u64::MAX - 1);
}

#[test]
fn keyswitch_with_zero_key_keeps_body_and_clears_mask() {
    let zero = LweCiphertext { mask: vec![0u64; LWE_DIM], body: 0 };
    let ksk = vec![zero; ELL * LWE_DIM];
    let mut mask = vec![0u64; LWE_DIM];
    mask[7] = 0xdead_beef_0000_0000;
    let ct = LweCiphertext { mask, body: 77 };
    let r = ct.keyswitch(&ksk);
    assert_eq!(r.body, 77);
    assert!(r.mask.iter().all(|&m| m == 0));
}

#[test]
fn compute_ksk_layout() {
    let sk1 = lwe_keygen();
    let sk2 = lwe_keygen();
    let noise = vec![0i64; ELL * LWE_DIM];
    let ksk = compute_ksk(&sk1, &sk2, &noise);
    assert_eq!(ksk.len(), ELL * LWE_DIM);
    for i in [0usize, 1, 500, LWE_DIM - 1] {
        assert_eq!(ksk[ELL * i].clone().decrypt(&sk2), sk1[i] << 48);
        assert_eq!(ksk[ELL * i + 1].clone().decrypt(&sk2), sk1[i] << 56);
    }
}

#[test]
fn lwe_keygen_draws_bits() {
    let sk = lwe_keygen();
    assert_eq!(sk.len(), LWE_DIM);
    assert!(sk.iter().all(|&b| b <= 1));
    assert!(sk.iter().any(|&b| b == 1));
    assert!(sk.iter().any(|&b| b == 0));
}
