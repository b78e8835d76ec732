use digital_euro_wallet::ecash::field::Fp;
use digital_euro_wallet::ecash::identity::{WalletId, LIMBS, LIMB_BITS};
use digital_euro_wallet::Error;
use rand::{rngs::StdRng, Rng, SeedableRng};

#[test]
fn limb_roundtrip_is_lossless() {
    let mut rng = StdRng::seed_from_u64(3);
    for _ in 0..500 {
        let id = WalletId::from_bytes(rng.gen());
        let limbs = id.to_limbs();
        assert_eq!(WalletId::from_limbs(&limbs).unwrap(), id);
    }
}

#[test]
fn out_of_range_limb_is_rejected() {
    let mut limbs = WalletId::from_bytes([0u8; 32]).to_limbs();
    limbs[0] = Fp::new(1u64 << 60);
    assert!(WalletId::from_limbs(&limbs).is_err());
}

#[test]
fn limbs_are_taken_from_the_low_end() {
    let mut bytes = [0u8; 32];
    bytes[0] = 0x34;
    bytes[1] = 0x12;
    bytes[6] = 0xf0; // bits 52 to 55
    bytes[31] = 0x80; // bit 255
    let id = WalletId::from_bytes(bytes);
    assert_eq!(id.words(), [0x00f0_0000_0000_1234, 0, 0, 1u64 << 63]);
    let limbs = id.to_limbs();
    assert_eq!(limbs[0].value(), 0x1234);
    assert_eq!(limbs[1].value(), 0xf);
    assert_eq!(limbs[2].value(), 0);
    assert_eq!(limbs[3].value(), 0);
    assert_eq!(limbs[4].value(), 1u64 << 47);
    assert_eq!(LIMBS, limbs.len());
    assert_eq!(LIMB_BITS, 52);
}

#[test]
fn bits_beyond_the_end_are_zero() {
    let words = [u64::MAX; 4];
    assert_eq!(WalletId::extract_bits(&words, 208, 52), (1u64 << 48) - 1);
    assert_eq!(WalletId::extract_bits(&words, 60, 8), 0xff);
    assert_eq!(WalletId::extract_bits(&words, 0, 64), u64::MAX);
    assert_eq!(WalletId::extract_bits(&words, 300, 10), 0);
    assert_eq!(WalletId::extract_bits(&words, u32::MAX, 64), 0);
}

#[test]
fn the_first_limb_over_budget_is_named() {
    let mut limbs = [Fp::zero(); 5];
    limbs[2] = Fp::new(1u64 << 52);
    limbs[4] = Fp::new(1u64 << 48);
    assert_eq!(
        WalletId::from_limbs(&limbs),
        Err(Error::MalformedIdentity {
            limb: 2,
            value: 1u64 << 52,
            budget: 52
        })
    );
    limbs[2] = Fp::new((1u64 << 52) - 1);
    assert_eq!(
        WalletId::from_limbs(&limbs),
        Err(Error::MalformedIdentity {
            limb: 4,
            value: 1u64 << 48,
            budget: 48
        })
    );
}

#[test]
fn identities_in_hex() {
    let mut bytes = [0u8; 32];
    for (i, b) in bytes.iter_mut().enumerate() {
        *b = i as u8 * 8;
    }
    let id = WalletId::from_bytes(bytes);
    assert_eq!(id.short(), "000810182028");
    assert_eq!(id.to_hex().len(), 64);
    assert!(id.to_hex().ends_with("e8f0f8"));
    assert_eq!(id.as_bytes(), &bytes);
}
