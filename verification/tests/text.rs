use digital_euro_wallet::natural::Natural;
use digital_euro_wallet::scenarios::{Failure, Got};
use digital_euro_wallet::text::{hex, push_decimal, signed_euros, stands_before};
use digital_euro_wallet::{
    euros, AccountId, DeviceCertificate, DeviceId, Error, Fp, PublicKey, Transfer, WalletId,
};

#[test]
fn numbers_in_base_ten() {
    let mut out = String::from("n = ");
    push_decimal(&mut out, 0);
    push_decimal(&mut out, 1907);
    assert_eq!(out, "n = 01907");
    let mut large = String::new();
    push_decimal(&mut large, u128::MAX);
    assert_eq!(large, u128::MAX.to_string());
}

#[test]
fn amounts_in_euros() {
    assert_eq!(euros(0), "0.00 €");
    assert_eq!(euros(5), "0.05 €");
    assert_eq!(euros(1_234), "12.34 €");
    assert_eq!(euros(100), "1.00 €");
    assert_eq!(euros(u64::MAX), "184467440737095516.15 €");
    assert_eq!(signed_euros(-1_000), "-10.00 €");
    assert_eq!(signed_euros(250), "2.50 €");
    assert_eq!(
        signed_euros(i128::MIN),
        "-1701411834604692317316873037158841057.28 €"
    );
}

#[test]
fn identifiers_in_hex() {
    let mut bytes = [0u8; 16];
    bytes[0] = 0x0a;
    bytes[3] = 0xff;
    assert_eq!(AccountId(bytes).short(), "0a0000ff");
    assert_eq!(DeviceId(bytes).short(), "0a0000ff");
    assert_eq!(
        AccountId(bytes).to_hex(),
        "0a0000ff000000000000000000000000"
    );
    assert_eq!(
        DeviceId(bytes).to_hex(),
        "0a0000ff000000000000000000000000"
    );
    assert!(AccountId(bytes).equals(&AccountId(bytes)));
    assert!(!DeviceId(bytes).equals(&DeviceId([0; 16])));
    assert_eq!(hex(&[]), "");
    assert_eq!(AccountId(bytes).label(), "AccountId(0a0000ff…)");
    assert_eq!(DeviceId(bytes).label(), "DeviceId(0a0000ff…)");
    assert_eq!(
        WalletId::from_bytes([1; 32]).label(),
        "WalletId(010101010101…)"
    );
    assert_eq!(Fp::new(907).to_text(), "907");
    assert_eq!(Fp::new(907).label(), "Fp(907)");
}

#[test]
fn errors_in_words() {
    let cases = [
        (
            Error::InvalidTokenSignature,
            "invalid bank signature on token",
        ),
        (
            Error::ChallengeMismatch,
            "payer answered the wrong challenge",
        ),
        (
            Error::DegenerateChallenge,
            "challenge x = 0 is not allowed",
        ),
        (
            Error::AmountMismatch {
                expected: 5,
                found: 10,
            },
            "amount mismatch: expected 5 cents, token is 10",
        ),
        (
            Error::Expired { expiry: 3, now: 4 },
            "token expired at 3 (now 4)",
        ),
        (
            Error::TokenAlreadySpent,
            "secure element refused: token already spent",
        ),
        (Error::UnknownToken, "unknown token"),
        (
            Error::CommitmentMismatch { index: 2 },
            "candidate 2: commitment does not match opened values",
        ),
        (
            Error::IdentityNotEmbedded { index: 3 },
            "candidate 3: slopes do not encode the account identity",
        ),
        (
            Error::BlindingMismatch { index: 4 },
            "candidate 4: blinded message inconsistent with opening",
        ),
        (
            Error::BadOpening,
            "opening does not match the requested indices",
        ),
        (
            Error::MalformedIdentity {
                limb: 1,
                value: 99,
                budget: 52,
            },
            "recovered limb 1 = 99 exceeds its 52-bit budget",
        ),
        (
            Error::UnknownAccount(WalletId::from_bytes([0xab; 32])),
            "unknown account abababababab",
        ),
        (
            Error::InsufficientFunds {
                requested: 7,
                available: 6,
            },
            "insufficient funds: need 7, have 6",
        ),
        (
            Error::BadParameters("too few"),
            "bad parameters: too few",
        ),
        (
            Error::HoldingLimitExceeded {
                requested: 60,
                headroom: 50,
            },
            "holding limit exceeded: need 60, room for 50",
        ),
        (
            Error::UnregisteredAccount(AccountId([1; 16])),
            "unknown account 01010101",
        ),
        (
            Error::UnknownDevice(DeviceId([2; 16])),
            "unknown device 02020202",
        ),
        (Error::InvalidCertificate, "invalid device certificate"),
        (Error::InvalidSignature, "invalid signature on message"),
        (Error::NotForThisDevice, "message is for another device"),
        (Error::AlreadyCredited, "message was already credited"),
        (Error::UnknownRequest, "no open request for this message"),
        (Error::SelfPayment, "a device cannot pay itself"),
        (Error::ZeroAmount, "amount is zero"),
        (Error::Replay, "message was already acted on"),
        (Error::AmountOverflow, "amount too large"),
        (Error::EntropyExhausted, "no usable randomness"),
    ];
    for (error, text) in cases {
        assert_eq!(error.message(), text);
    }
}

fn transfer() -> Transfer {
    let mut nonce = [0u8; 16];
    nonce[14] = 10;
    nonce[15] = 255;
    let mut n = [0u8; 17];
    n[0] = 1;
    Transfer {
        payer: DeviceCertificate {
            device: DeviceId([10; 16]),
            public_key: PublicKey {
                n: Natural::from_bytes_be(&n),
                e: Natural::from_u32(65_537),
            },
            holding_limit_cents: 50_000,
            signature: Natural::from_u32(256),
        },
        payee: DeviceId([11; 16]),
        amount_cents: 600,
        nonce,
        counter: 3,
        signature: Natural::zero(),
    }
}

#[test]
fn a_transfer_is_shown_whole() {
    let transfer = transfer();
    assert_eq!(
        transfer.payer.public_key.debug(),
        "PublicKey { n: 340282366920938463463374607431768211456, e: 65537 }"
    );
    assert_eq!(
        transfer.payer.debug(),
        "DeviceCertificate { device: DeviceId(0a0a0a0a…), \
         public_key: PublicKey { n: 340282366920938463463374607431768211456, e: 65537 }, \
         holding_limit_cents: 50000, signature: 256 }"
    );
    assert_eq!(
        transfer.debug(),
        "Transfer { payer: DeviceCertificate { device: DeviceId(0a0a0a0a…), \
         public_key: PublicKey { n: 340282366920938463463374607431768211456, e: 65537 }, \
         holding_limit_cents: 50000, signature: 256 }, \
         payee: DeviceId(0b0b0b0b…), amount_cents: 600, \
         nonce: [0, 0, 0, 0, 0, 0, 0, 0, 0, 0, 0, 0, 0, 0, 10, 255], \
         counter: 3, signature: 0 }"
    );
}

#[test]
fn texts_are_ordered_by_their_bytes() {
    let texts = ["", "a", "a: b", "ab", "b", "z", "é", "€", "\u{ffff}", "\u{10000}"];
    for (i, a) in texts.iter().enumerate() {
        for (j, b) in texts.iter().enumerate() {
            assert_eq!(stands_before(a, b), i < j, "{a:?} {b:?}");
            assert_eq!(stands_before(a, b), a < b, "{a:?} {b:?}");
        }
    }
}

#[test]
fn failures_in_words() {
    let error = Error::ZeroAmount;
    assert_eq!(
        Failure::Setup { error }.message(),
        "could not set up: amount is zero"
    );
    assert_eq!(
        Failure::Refused {
            what: "payment failed: ",
            error
        }
        .message(),
        "payment failed: amount is zero"
    );
    let unexpected = |got| Failure::Unexpected {
        expected: "Replay",
        got,
    };
    assert_eq!(
        unexpected(Got::Credited(600)).message(),
        "expected Replay, got Ok(600)"
    );
    assert_eq!(
        unexpected(Got::Paid(transfer())).message(),
        "expected Replay, got Ok(Transfer { \
         payer: DeviceCertificate { device: DeviceId(0a0a0a0a…), \
         public_key: PublicKey { n: 340282366920938463463374607431768211456, e: 65537 }, \
         holding_limit_cents: 50000, signature: 256 }, \
         payee: DeviceId(0b0b0b0b…), amount_cents: 600, \
         nonce: [0, 0, 0, 0, 0, 0, 0, 0, 0, 0, 0, 0, 0, 0, 10, 255], \
         counter: 3, signature: 0 })"
    );
    assert_eq!(
        unexpected(Got::Refused(Error::InsufficientFunds {
            requested: 6,
            available: 5
        }))
        .message(),
        "expected Replay, got Err(InsufficientFunds { requested: 6, available: 5 })"
    );
    let what = "is ";
    assert_eq!(
        Failure::WrongNumber { what, number: -1_000 }.message(),
        "is -1000"
    );
    assert_eq!(
        Failure::WrongNumber {
            what,
            number: i128::MIN
        }
        .message(),
        format!("is {}", i128::MIN)
    );
    assert_eq!(
        Failure::WrongAccount {
            what,
            holds: Some(8_100)
        }
        .message(),
        "is Some(8100)"
    );
    assert_eq!(
        Failure::WrongAccount { what, holds: None }.message(),
        "is None"
    );
    assert_eq!(
        Failure::NotConserved { value: 1_234 }.message(),
        "value not conserved: 12.34 € on devices"
    );
    assert_eq!(Failure::Wrong { what: "no" }.message(), "no");
    assert_eq!(
        Failure::WrongAmount {
            what: "has ",
            cents: 250
        }
        .message(),
        "has 2.50 €"
    );
}

#[test]
fn naturals_are_canonical() {
    let one = Natural::from_bytes_be(&[0, 0, 1]);
    assert_eq!(one, Natural::from_u32(1));
    assert_eq!(one.to_bytes_be(), vec![1]);
    assert_eq!(Natural::from_bytes_be(&[]), Natural::zero());
    assert_eq!(Natural::zero().to_bytes_be(), vec![0]);
    assert!(Natural::zero().is_zero() && one.is_one() && !one.is_even());
    assert!(Natural::from_u32(256).is_even());
    assert!(Natural::from_u32(255).less_than(&Natural::from_u32(256)));
    assert!(Natural::from_u32(0x0201).less_than(&Natural::from_u32(0x0300)));
    assert!(!one.less_than(&one) && one.equals(&one.clone()));
    assert_eq!(Natural::from_u32(65536).byte_len(), 3);
    assert_eq!(Natural::zero().byte_len(), 0);
}

#[test]
fn errors_for_debugging() {
    let cases = [
        Error::ZeroAmount,
        Error::Replay,
        Error::BadOpening,
        Error::EntropyExhausted,
        Error::HoldingLimitExceeded {
            requested: 60,
            headroom: 50,
        },
        Error::AmountMismatch {
            expected: 5,
            found: 10,
        },
        Error::Expired { expiry: 3, now: 4 },
        Error::CommitmentMismatch { index: 2 },
        Error::IdentityNotEmbedded { index: 3 },
        Error::BlindingMismatch { index: 4 },
        Error::MalformedIdentity {
            limb: 1,
            value: 99,
            budget: 52,
        },
        Error::BadParameters("too few"),
    ];
    for error in cases {
        assert_eq!(error.debug(), format!("{error:?}"));
        assert!(error.debug().starts_with(error.name()));
    }
    assert_eq!(
        Error::UnregisteredAccount(AccountId([1; 16])).debug(),
        "UnregisteredAccount(AccountId(01010101…))"
    );
    assert_eq!(
        Error::UnknownDevice(DeviceId([2; 16])).debug(),
        "UnknownDevice(DeviceId(02020202…))"
    );
    assert_eq!(
        Error::UnknownAccount(WalletId::from_bytes([3; 32])).debug(),
        "UnknownAccount(WalletId(030303030303…))"
    );
}
