use rand::{thread_rng, Rng};
use rand_distr::{Distribution, Normal};
use ttfhe::ggsw::{cmux, decomposition, GgswCiphertext};
use ttfhe::glwe::{keygen, GlweCiphertext};
use ttfhe::utils::{decode, encode};
use ttfhe::{k, ELL};

/// Rounded Gaussian noise with standard deviation 2^39.
fn glwe_noise() -> i64 {
    let normal = Normal::new(0.0, f64::powf(2.0, 39.0)).unwrap();
    normal.sample(&mut thread_rng()).round() as i64
}

fn ggsw_noise() -> Vec<i64> {
    (0..(k + 1) * ELL).map(|_| glwe_noise()).collect()
}

#[test]
fn ggsw_test_keygen_enc_dec() {
    let sk = keygen();
    for _ in 0..100 {
        let msg = thread_rng().gen_range(0..16);
        let ct = GgswCiphertext::encrypt(msg, &sk, &ggsw_noise());
        let pt = ct.decrypt(&sk);
        assert_eq!(msg, pt as u8);
    }
}

#[test]
fn test_external_product() {
    let sk = keygen();
    for _ in 0..100 {
        let msg1 = thread_rng().gen_range(0..16);
        let msg2 = thread_rng().gen_range(0..16);
        let ct1 = GgswCiphertext::encrypt(msg1, &sk, &ggsw_noise());
        let ct2 = GlweCiphertext::encrypt(encode(msg2), &sk, glwe_noise());
        let res = ct1.external_product(&ct2);
        let pt = decode(res.decrypt(&sk));
        let expected: u8 = msg1 * msg2 % 16;
        assert_eq!(expected, pt);
    }
}

#[test]
fn test_cmux() {
    for _ in 0..100 {
        let sk = keygen();
        let msg1 = thread_rng().gen_range(0..16);
        let msg2 = thread_rng().gen_range(0..16);
        let b = thread_rng().gen_range(0..2);

        let ct1 = GlweCiphertext::encrypt(encode(msg1), &sk, glwe_noise());
        let ct2 = GlweCiphertext::encrypt(encode(msg2), &sk, glwe_noise());
        let ctb = GgswCiphertext::encrypt(b, &sk, &ggsw_noise());

        let res = cmux(&ctb, &ct1, &ct2);

        let pt = decode(res.decrypt(&sk));
        assert_eq!(pt, (1 - b) * msg1 + b * msg2);
    }
}

#[test]
fn test_cmux_trivial() {
    for _ in 0..100 {
        let sk = keygen();
        let msg1 = thread_rng().gen_range(0..16);
        let msg2 = thread_rng().gen_range(0..16);
        let b = thread_rng().gen_range(0..2);

        let ct1 = GlweCiphertext::trivial_encrypt(encode(msg1));
        let ct2 = GlweCiphertext::trivial_encrypt(encode(msg2));
        let ctb = GgswCiphertext::encrypt(b, &sk, &ggsw_noise());

        let res = cmux(&ctb, &ct1, &ct2);

        let pt = decode(res.decrypt(&sk));

        assert_eq!(pt, (1 - b) * msg1 + b * msg2);
    }
}

#[test]
fn decomposition_examples() {
    assert_eq!(decomposition(0), (0, 0));
    // 16 top bits 0x0102, no rounding
    assert_eq!(decomposition(0x0102u64 << 48), (2, 1));
    // low byte 0x80 is negative: carry into the high limb
    assert_eq!(decomposition(0x0180u64 << 48), (-128, 2));
    // rounding up from bit 47
    assert_eq!(decomposition((0x0102u64 << 48) | (1u64 << 47)), (3, 1));
    // all ones round up to 2^16: low 0, high wraps to 0
    assert_eq!(decomposition(u64::MAX), (0, 0));
}

#[test]
fn decomposition_round_trip_on_random_values() {
    for _ in 0..1000 {
        let v: u64 = thread_rng().gen();
        let (lo, hi) = decomposition(v);
        let rounded = ((v >> 47) + ((v >> 47) & 1)) >> 1;
        let back = (lo as i64 + 256 * hi as i64).rem_euclid(1 << 16) as u64;
        assert_eq!(back, rounded % (1 << 16));
    }
}

#[test]
fn ggsw_with_zero_noise_decrypts_every_message() {
    let sk = keygen();
    for msg in 0..16u8 {
        let ct = GgswCiphertext::encrypt(msg, &sk, &vec![0i64; (k + 1) * ELL]);
        assert_eq!(ct.decrypt(&sk), msg);
    }
}

#[test]
fn from_rows_checks_the_row_count() {
    let sk = keygen();
    let ct = GgswCiphertext::encrypt(1, &sk, &vec![0i64; (k + 1) * ELL]);
    let rows = ct.rows().clone();
    assert_eq!(rows.len(), (k + 1) * ELL);
    let back = GgswCiphertext::from_rows(rows.clone()).expect("four rows");
    assert_eq!(back.decrypt(&sk), 1);
    assert!(GgswCiphertext::from_rows(rows[..3].to_vec()).is_none());
    let mut bad = rows;
    bad[0].body.coefs.pop();
    assert!(GgswCiphertext::from_rows(bad).is_none());
}

#[test]
fn external_product_with_trivial_glwe_and_zero_noise() {
    // GGSW(1) (x) trivial(encode(m)) decrypts to encode(m) up to the rounding of the
    // decomposition.
    let sk = keygen();
    let ct = GgswCiphertext::encrypt(1, &sk, &vec![0i64; (k + 1) * ELL]);
    for m in 0..16u8 {
        let r = ct.external_product(&GlweCiphertext::trivial_encrypt(encode(m)));
        assert_eq!(decode(r.decrypt(&sk)), m);
    }
}
