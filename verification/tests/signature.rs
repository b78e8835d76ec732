use digital_euro_wallet::hash::tagged;
use digital_euro_wallet::natural::Natural;
use digital_euro_wallet::signature::{
    is_probable_prime, mod_inverse, passes_round, passes_rounds, prime_candidate, Keypair,
    PublicKey,
};
use rand::{rngs::StdRng, SeedableRng};

fn keypair() -> Keypair {
    Keypair::generate(512, &mut StdRng::seed_from_u64(42)).unwrap()
}

#[test]
fn signature_verifies() {
    let key = keypair();
    let digest = tagged("test", &[b"transfer"]);
    assert!(key.public.verify(&digest, &key.sign(&digest)));
}

#[test]
fn signature_does_not_verify_for_other_message() {
    let key = keypair();
    let digest = tagged("test", &[b"transfer-a"]);
    let other = tagged("test", &[b"transfer-b"]);
    assert!(!key.public.verify(&other, &key.sign(&digest)));
}

#[test]
fn signature_does_not_verify_under_other_key() {
    let key = keypair();
    let other = Keypair::generate(512, &mut StdRng::seed_from_u64(43)).unwrap();
    let digest = tagged("test", &[b"transfer"]);
    assert!(!other.public.verify(&digest, &key.sign(&digest)));
}

#[test]
fn miller_rabin_agrees_with_known_values() {
    let mut rng = StdRng::seed_from_u64(1);
    assert!(is_probable_prime(
        &Natural::from_u32(2_147_483_647u32),
        20,
        &mut rng
    )); // 2^31-1
    assert!(!is_probable_prime(
        &Natural::from_u32(2_147_483_649u32),
        20,
        &mut rng
    ));
}

/// Two Mersenne primes, which make a key whose numbers are known.
fn known_factors() -> (Natural, Natural) {
    let mut p = vec![0xffu8; 12];
    p[0] = 0x01; // 2^89 - 1
    let mut q = vec![0xffu8; 14];
    q[0] = 0x07; // 2^107 - 1
    (Natural::from_bytes_be(&p), Natural::from_bytes_be(&q))
}

fn hex(bytes: &[u8]) -> String {
    digital_euro_wallet::text::hex(bytes)
}

#[test]
fn known_key_signs_a_known_signature() {
    let (p, q) = known_factors();
    let key = Keypair::from_factors(&p, &q, 196).unwrap();
    assert_eq!(
        hex(&key.public.n.to_bytes_be()),
        "0ffffffffffffffffffffff7fffe0000000000000000000001"
    );
    assert_eq!(key.public.e, Natural::from_u32(65537));
    assert_eq!(key.public.modulus_bytes(), 25);
    let digest = tagged("test", &[b"transfer"]);
    assert_eq!(
        hex(&key.public.full_domain_hash(&digest).to_bytes_be()),
        "0741141f2c092fb838cb4cb9aa4d2a7e6ab3391fa4ac3a4b91"
    );
    let signature = key.sign(&digest);
    assert_eq!(
        hex(&signature.to_bytes_be()),
        "0745f54fffeb973cec47a3fd914d11b2b0ff5234bea017e636"
    );
    assert!(key.public.verify(&digest, &signature));
    assert!(!key.public.verify(&digest, &Natural::from_u32(0)));
    assert!(!key.public.verify(&digest, &key.public.n));
}

#[test]
fn nothing_verifies_under_the_zero_modulus() {
    let key = PublicKey {
        n: Natural::zero(),
        e: Natural::from_u32(3),
    };
    assert!(!key.verify(&[0; 32], &Natural::zero()));
    assert_eq!(key.modulus_bytes(), 0);
}

#[test]
fn unusable_factors_make_no_key() {
    let (p, q) = known_factors();
    assert!(Keypair::from_factors(&p, &p, 178).is_none());
    assert!(Keypair::from_factors(&p, &q, 195).is_none());
    // 65537 divides (p - 1) for p = 65537 * 2 + 1.
    let bad = Natural::from_u32(131075);
    assert!(Keypair::from_factors(&bad, &Natural::from_u32(7), 20).is_none());
}

#[test]
fn reduction_clears_the_top_bits() {
    let key = PublicKey {
        n: Natural::from_u32(1000),
        e: Natural::from_u32(3),
    };
    // 0xffff loses its two top bits: 0x3fff = 16383.
    assert_eq!(key.reduce(vec![0xff, 0xff]), Natural::from_u32(383));
    // 7^3 = 343.
    assert!(key.opens_to(&Natural::from_u32(7), &Natural::from_u32(343)));
    assert!(!key.opens_to(&Natural::from_u32(7), &Natural::from_u32(342)));
}

#[test]
fn inverses_modulo_a_number() {
    let inverse = |a: u32, m: u32| mod_inverse(&Natural::from_u32(a), &Natural::from_u32(m));
    assert_eq!(inverse(3, 11), Some(Natural::from_u32(4)));
    assert_eq!(
        inverse(65537, 1_000_000_007),
        Some(Natural::from_u32(743_534_192))
    );
    assert_eq!(inverse(6, 9), None);
    assert_eq!(inverse(5, 1), Some(Natural::zero()));
    assert_eq!(inverse(0, 7), None);
}

#[test]
fn small_numbers_are_classified_exactly() {
    let mut rng = StdRng::seed_from_u64(2);
    for n in 0u32..2000 {
        let prime = n >= 2 && (2..n).all(|d| n % d != 0);
        assert_eq!(
            is_probable_prime(&Natural::from_u32(n), 20, &mut rng),
            prime,
            "{n}"
        );
    }
}

#[test]
fn without_a_round_only_trial_division_decides() {
    let mut rng = StdRng::seed_from_u64(4);
    let mut settled = |n: u32| is_probable_prime(&Natural::from_u32(n), 0, &mut rng);
    // A product of two primes, neither of which is tried.
    assert!(settled(1009 * 1013));
    assert!(settled(1_000_003));
    assert!(!settled(2 * 1013));
    assert!(!settled(3 * 1013));
    assert!(!settled(0));
    assert!(!settled(1));
    assert!(settled(2));
}

#[test]
fn carmichael_numbers_are_caught() {
    let mut rng = StdRng::seed_from_u64(3);
    // Products of three primes that fool the plain Fermat test.
    for n in [56052361u32, 118901521, 172947529] {
        assert!(!is_probable_prime(&Natural::from_u32(n), 20, &mut rng));
    }
    assert!(is_probable_prime(
        &Natural::from_u32(4_294_967_291),
        20,
        &mut rng
    ));
}

#[test]
fn one_round_with_a_given_base() {
    // 2047 = 23 * 89 passes for base 2 and fails for base 3; 2046 = 1023 * 2.
    let n = Natural::from_u32(2047);
    let n_minus_one = Natural::from_u32(2046);
    let odd = Natural::from_u32(1023);
    assert!(passes_round(&n, &n_minus_one, &odd, 1, &Natural::from_u32(2)));
    assert!(!passes_round(&n, &n_minus_one, &odd, 1, &Natural::from_u32(3)));
    let bases = [2, 4, 3].map(Natural::from_u32);
    assert!(passes_rounds(&n, &n_minus_one, &odd, 1, &bases[..2]));
    assert!(!passes_rounds(&n, &n_minus_one, &odd, 1, &bases));
    assert!(passes_rounds(&n, &n_minus_one, &odd, 1, &[]));
}

#[test]
fn candidates_are_wide_and_odd() {
    let candidate = |raw: u32, bits: u64| prime_candidate(&Natural::from_u32(raw), bits);
    assert_eq!(candidate(0, 8), Natural::from_u32(193));
    assert_eq!(candidate(5, 8), Natural::from_u32(197));
    assert_eq!(candidate(255, 8), Natural::from_u32(255));
    assert_eq!(candidate(0, 2), Natural::from_u32(3));
    assert_eq!(candidate(0x1234, 16), Natural::from_u32(53813));
}

#[test]
fn generated_keys_have_the_width_asked_for() {
    let key = Keypair::generate(514, &mut StdRng::seed_from_u64(44)).unwrap();
    assert_eq!(key.public.modulus_bytes(), 65);
    assert_eq!(key.public.n.to_bytes_be()[0] & 0xfe, 0x02);
    assert_eq!(key.clone().public, key.public);
    assert!(key.public.equals(key.public_key()));
}
