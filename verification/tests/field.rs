use digital_euro_wallet::ecash::field::{Fp, P};
use rand::{rngs::StdRng, SeedableRng};

#[test]
fn add_sub_roundtrip() {
    let mut rng = StdRng::seed_from_u64(7);
    for _ in 0..1000 {
        let a = Fp::random(&mut rng).unwrap();
        let b = Fp::random(&mut rng).unwrap();
        assert_eq!(a.add(b).sub(b), a);
        assert_eq!(a.sub(b).add(b), a);
        assert_eq!(a.add(a.neg()), Fp::zero());
    }
}

#[test]
fn inverse_is_inverse() {
    let mut rng = StdRng::seed_from_u64(11);
    for _ in 0..500 {
        let a = Fp::random(&mut rng).unwrap();
        if a.is_zero() {
            continue;
        }
        assert_eq!(a.mul(a.inv().unwrap()), Fp::one());
    }
    assert!(Fp::zero().inv().is_none());
}

#[test]
fn multiplication_does_not_overflow_near_modulus() {
    let big = Fp::new(P - 1);
    assert_eq!(big.mul(big), Fp::one()); // (-1)^2 = 1
}

#[test]
fn reduction_is_canonical() {
    assert_eq!(P, (1u64 << 61) - 1);
    assert_eq!(Fp::new(P).value(), 0);
    assert_eq!(Fp::new(u64::MAX).value(), 7);
    assert_eq!(Fp::from_u128(u128::MAX).value(), 63);
    assert_eq!(Fp::default(), Fp::zero());
    assert!(Fp::new(5).equals(Fp::new(P + 5)));
}

#[test]
fn powers_and_encoding() {
    assert_eq!(Fp::new(2).pow(61), Fp::one());
    assert_eq!(Fp::new(3).pow(5).value(), 243);
    assert_eq!(Fp::zero().pow(0), Fp::one());
    assert_eq!(Fp::new(0x0102).to_bytes(), [0, 0, 0, 0, 0, 0, 1, 2]);
    assert_eq!(Fp::new(2).inv().unwrap().value(), 1u64 << 60);
    assert_eq!(Fp::new(1).sub(Fp::new(2)).value(), P - 1);
    assert_eq!(Fp::zero().neg(), Fp::zero());
}

#[test]
fn sampling_rejects_only_the_modulus() {
    assert!(Fp::from_random(P).is_none());
    assert!(Fp::from_random(u64::MAX).is_none());
    assert_eq!(Fp::from_random(P - 1).unwrap().value(), P - 1);
    assert_eq!(Fp::from_random(1u64 << 61).unwrap().value(), 0);
}
