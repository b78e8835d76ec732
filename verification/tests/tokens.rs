//! Tokens: withdrawal, payment, settlement, and what spending twice gives away.

use digital_euro_wallet::ecash::blind_sig::{IssuerKeypair, IssuerPublicKey};
use digital_euro_wallet::ecash::field::Fp;
use digital_euro_wallet::ecash::issuer::{judge_revealed, Issuer, Settlement};
use digital_euro_wallet::ecash::merchant::{judge_payment, Merchant};
use digital_euro_wallet::ecash::token::{
    challenge_from_digest, derive_challenge, recover_identity, SecretLines, SpendProof, Token,
    TokenPayload,
};
use digital_euro_wallet::ecash::wallet::{make_candidate, CandidateSecrets, TokenWallet};
use digital_euro_wallet::ecash::withdrawal::CutChallenge;
use digital_euro_wallet::hash::tagged;
use digital_euro_wallet::text::hex;
use digital_euro_wallet::{withdraw, Error, Keypair, Natural, WalletId};
use rand::{rngs::StdRng, SeedableRng};

fn payload() -> TokenPayload {
    TokenPayload {
        serial: [4; 16],
        amount_cents: 500,
        expiry_epoch: 77,
        commitment: [6; 32],
    }
}

fn lines() -> SecretLines {
    SecretLines {
        coefficients: [
            (Fp::new(1), Fp::new(6)),
            (Fp::new(2), Fp::new(7)),
            (Fp::new(3), Fp::new(8)),
            (Fp::new(4), Fp::new(9)),
            (Fp::new(5), Fp::new(10)),
        ],
        nonce: [11; 32],
    }
}

fn identity() -> WalletId {
    let mut bytes = [0u8; 32];
    for (i, b) in bytes.iter_mut().enumerate() {
        *b = 250 - i as u8;
    }
    WalletId::from_bytes(bytes)
}

struct Bank {
    issuer: Issuer,
    wallet: TokenWallet,
    merchant: Merchant,
    other: Merchant,
    rng: StdRng,
}

fn bank(seed: u64) -> Bank {
    let mut rng = StdRng::seed_from_u64(seed);
    let key = Keypair::generate(512, &mut rng).unwrap();
    let mut issuer = Issuer::new(IssuerKeypair::new(key));
    issuer.open_account(identity(), 10_000);
    let public = issuer.public_key();
    Bank {
        wallet: TokenWallet::new(identity(), public.clone(), StdRng::seed_from_u64(seed + 1)),
        merchant: Merchant::new(*b"bookshop", public.clone(), StdRng::seed_from_u64(seed + 2)),
        other: Merchant::new(*b"ice-rink", public, StdRng::seed_from_u64(seed + 3)),
        issuer,
        rng,
    }
}

fn take(b: &mut Bank, amount: u64) -> Token {
    withdraw(&mut b.wallet, &mut b.issuer, amount, 100, 4, &mut b.rng).unwrap()
}

#[test]
fn payload_encoding_is_known() {
    assert_eq!(
        hex(&payload().encode()),
        "010404040404040404040404040404040400000000000001f4000000000000004d\
         0606060606060606060606060606060606060606060606060606060606060606"
            .replace(' ', "")
    );
    assert_eq!(
        hex(&payload().digest()),
        "d4c1930e627e65442aac11aae53fa8129d0d110a87cc5ccd6d5080b9bc328c32"
    );
}

#[test]
fn lines_commit_and_respond() {
    assert_eq!(
        hex(&lines().commitment()),
        "7319f5cc8cd4abf4283c78d8333d8ccee1e427409a6a16ba858059601c82c024"
    );
    let y = lines().respond(Fp::new(10));
    assert_eq!(
        y.map(|v| v.value()),
        [16, 27, 38, 49, 60] // slope * 10 + intercept
    );
    let id = lines().embedded_identity().unwrap();
    assert_eq!(id.to_limbs().map(|v| v.value()), [1, 2, 3, 4, 5]);
}

#[test]
fn challenges_come_from_the_transaction() {
    let x = derive_challenge(b"merchant", 1000, 500, &[5; 16]).unwrap();
    assert_eq!(x.value(), 2015692427688528252);
    // 2^61 - 1 in the leading half reduces to the degenerate challenge.
    let mut digest = [0xffu8; 32];
    digest[..8].copy_from_slice(&[0; 8]);
    digest[8] = 0x1f;
    assert_eq!(
        challenge_from_digest(&digest),
        Err(Error::DegenerateChallenge)
    );
    digest[15] = 0xfe;
    assert_eq!(challenge_from_digest(&digest).unwrap().value(), (1 << 61) - 2);
}

#[test]
fn two_answers_reveal_the_identity_and_one_does_not() {
    let l = lines();
    let answer = |x: u64| SpendProof {
        challenge: Fp::new(x),
        response: l.respond(Fp::new(x)),
    };
    let found = recover_identity(&answer(3), &answer(1_000_003)).unwrap();
    assert_eq!(found, Ok(l.embedded_identity().unwrap()));
    assert!(recover_identity(&answer(3), &answer(3)).is_none());
    // Any slope goes through the one point that was seen.
    let (x, y) = (Fp::new(3), answer(3).response[0]);
    for slope in [0u64, 1, 12_345, (1 << 61) - 2] {
        let intercept = y.sub(Fp::new(slope).mul(x));
        assert_eq!(Fp::new(slope).mul(x).add(intercept), y);
    }
}

#[test]
fn garbage_answers_name_nobody() {
    let first = SpendProof {
        challenge: Fp::new(2),
        response: [Fp::new((1 << 61) - 2); 5],
    };
    let second = SpendProof {
        challenge: Fp::new(1),
        response: [Fp::zero(); 5],
    };
    assert_eq!(
        recover_identity(&first, &second),
        Some(Err(Error::MalformedIdentity {
            limb: 0,
            value: (1 << 61) - 2,
            budget: 52
        }))
    );
}

#[test]
fn blinding_is_known_and_unblinds() {
    let mut p = vec![0xffu8; 12];
    p[0] = 0x01;
    let mut q = vec![0xffu8; 14];
    q[0] = 0x07;
    let key = Keypair::from_factors(
        &Natural::from_bytes_be(&p),
        &Natural::from_bytes_be(&q),
        196,
    )
    .unwrap();
    let digest = tagged("test", &[b"transfer"]);
    let plain = key.sign(&digest);
    let signer = IssuerKeypair::new(key);
    let public = signer.public();
    let factor = Natural::from_u32(123_456_789);
    let blinded = public.blind(&digest, &factor);
    assert_eq!(
        hex(&blinded.to_bytes_be()),
        "081f73fb5c06479159175e3e26a7b09896291ee8fe5a7939c6"
    );
    let unblinded = public
        .unblind(&signer.sign_blinded(&blinded), &factor)
        .unwrap();
    assert_eq!(unblinded, plain);
    assert!(public.verify(&digest, &unblinded));
    assert!(public
        .unblind(&plain, &Natural::from_bytes_be(&p))
        .is_none());
}

#[test]
fn a_withdrawal_debits_the_account_and_yields_a_signed_token() {
    let mut b = bank(1);
    let token = take(&mut b, 700);
    assert_eq!(token.payload.amount_cents, 700);
    assert_eq!(token.payload.expiry_epoch, 100);
    let public: IssuerPublicKey = b.issuer.public_key();
    assert!(public.verify(&token.payload.digest(), &token.signature));
    assert_eq!(b.issuer.balance_of(&identity()), Some(9_300));
    assert_eq!(b.issuer.outstanding_cents(), 700);
    assert_eq!(b.wallet.identity(), identity());
}

#[test]
fn withdrawals_are_refused_for_good_reasons() {
    let mut b = bank(2);
    let mut rng = StdRng::seed_from_u64(9);
    assert_eq!(
        withdraw(&mut b.wallet, &mut b.issuer, 1, 1, 1, &mut rng),
        Err(Error::BadParameters(
            "cut-and-choose needs at least 2 candidates"
        ))
    );
    assert_eq!(
        withdraw(&mut b.wallet, &mut b.issuer, 10_001, 1, 2, &mut rng),
        Err(Error::InsufficientFunds {
            requested: 10_001,
            available: 10_000
        })
    );
    let stranger = WalletId::from_bytes([0; 32]);
    let mut other = TokenWallet::new(stranger, b.issuer.public_key(), StdRng::seed_from_u64(3));
    assert_eq!(
        withdraw(&mut other, &mut b.issuer, 1, 1, 2, &mut rng),
        Err(Error::UnknownAccount(stranger))
    );
    assert_eq!(b.issuer.balance_of(&identity()), Some(10_000));
    assert_eq!(b.issuer.balance_of(&stranger), None);
}

#[test]
fn every_opening_is_checked() {
    let mut b = bank(3);
    let (request, session) = b.wallet.begin_withdrawal(500, 100, 3).unwrap();
    let cut = CutChallenge { keep: 1 };
    let opening = || b.wallet.answer_cut(&session, &cut).unwrap();

    let mut short = opening();
    short.openings.pop();
    assert_eq!(
        b.issuer.issue(&request, &cut, &short),
        Err(Error::BadOpening)
    );
    let mut twice = opening();
    twice.openings[1] = twice.openings[0].clone();
    assert_eq!(
        b.issuer.issue(&request, &cut, &twice),
        Err(Error::BadOpening)
    );
    let mut kept = opening();
    kept.openings[0].0 = 1;
    assert_eq!(b.issuer.issue(&request, &cut, &kept), Err(Error::BadOpening));
    assert_eq!(
        b.issuer
            .issue(&request, &CutChallenge { keep: 3 }, &opening()),
        Err(Error::BadOpening)
    );

    let mut nonce = opening();
    nonce.openings[0].1.lines.nonce[0] ^= 1;
    assert_eq!(
        b.issuer.issue(&request, &cut, &nonce),
        Err(Error::CommitmentMismatch { index: 0 })
    );
    let mut amount = opening();
    amount.openings[1].1.payload.amount_cents = 50_000;
    assert_eq!(
        b.issuer.issue(&request, &cut, &amount),
        Err(Error::CommitmentMismatch { index: 2 })
    );
    let mut factor = opening();
    factor.openings[1].1.blinding_factor = Natural::from_u32(2);
    assert_eq!(
        b.issuer.issue(&request, &cut, &factor),
        Err(Error::BlindingMismatch { index: 2 })
    );
    assert!(b.wallet.answer_cut(&session, &CutChallenge { keep: 3 }).is_err());

    let signature = b.issuer.issue(&request, &cut, &opening()).unwrap();
    let token = b
        .wallet
        .finish_withdrawal(session, &cut, &signature)
        .unwrap();
    assert_eq!(token.payload.amount_cents, 500);
}

#[test]
fn a_forged_identity_is_found_when_it_is_opened() {
    let mut b = bank(4);
    let (mut request, mut session) = b.wallet.begin_withdrawal(500, 100, 2).unwrap();
    let forged = make_candidate(
        &WalletId::from_bytes([9; 32]),
        500,
        100,
        CandidateSecrets {
            serial: [1; 16],
            intercepts: [Fp::new(5); 5],
            nonce: [2; 32],
            blinding_factor: Natural::from_u32(3),
        },
    );
    let public = b.issuer.public_key();
    request.candidates[0].commitment = forged.payload.commitment;
    request.candidates[0].blinded_message =
        public.blind(&forged.payload.digest(), &forged.blinding_factor);
    session.candidates[0] = forged;

    let open_it = CutChallenge { keep: 1 };
    let opening = b.wallet.answer_cut(&session, &open_it).unwrap();
    assert_eq!(
        b.issuer.issue(&request, &open_it, &opening),
        Err(Error::IdentityNotEmbedded { index: 0 })
    );
    // Kept back, it gets through: that is the one chance in two.
    let keep_it = CutChallenge { keep: 0 };
    let opening = b.wallet.answer_cut(&session, &keep_it).unwrap();
    assert!(b.issuer.issue(&request, &keep_it, &opening).is_ok());
}

#[test]
fn a_wrong_signature_yields_no_token() {
    let mut b = bank(5);
    let (_, session) = b.wallet.begin_withdrawal(500, 100, 2).unwrap();
    assert_eq!(
        b.wallet
            .finish_withdrawal(session, &CutChallenge { keep: 0 }, &Natural::from_u32(7)),
        Err(Error::InvalidTokenSignature)
    );
}

#[test]
fn an_honest_payment_is_accepted_and_paid_once() {
    let mut b = bank(6);
    let token = take(&mut b, 700);
    let sale = b.merchant.request_payment(700, 42).unwrap();
    assert_eq!(
        sale.challenge,
        derive_challenge(b"bookshop", 42, 700, &sale.nonce).unwrap()
    );
    let (token, proof) = b.wallet.spend(&token.payload.serial, sale.challenge).unwrap();
    let receipt = b.merchant.accept(&sale, token, proof, 100).unwrap();
    assert_eq!(receipt.merchant_id, b.merchant.id());
    assert_eq!(b.merchant.pending(), &[receipt.clone()]);
    assert_eq!(b.merchant.drain_deposits(), vec![receipt.clone()]);
    assert!(b.merchant.pending().is_empty());

    assert_eq!(
        b.issuer.judge_receipt(&receipt, false),
        Settlement::Rejected(Error::InvalidTokenSignature)
    );
    assert_eq!(
        b.issuer.judge_receipt(&receipt, true),
        Settlement::Credited { amount_cents: 700 }
    );
    assert_eq!(b.issuer.outstanding_cents(), 700);
    assert_eq!(
        b.issuer.redeem(&receipt),
        Settlement::Credited { amount_cents: 700 }
    );
    assert_eq!(b.issuer.outstanding_cents(), 0);
    assert_eq!(b.issuer.redeem(&receipt), Settlement::DuplicateDeposit);
    assert!(!b.issuer.is_suspended(&identity()));

    let mut forged = receipt.clone();
    forged.proof.response[0] = Fp::new(1);
    assert_eq!(
        b.issuer.redeem(&forged),
        Settlement::Rejected(Error::ChallengeMismatch)
    );
    forged.proof.challenge = Fp::zero();
    assert_eq!(
        b.issuer.redeem(&forged),
        Settlement::Rejected(Error::DegenerateChallenge)
    );
    forged.token.payload.amount_cents = 70_000;
    assert_eq!(
        b.issuer.redeem(&forged),
        Settlement::Rejected(Error::InvalidTokenSignature)
    );
}

#[test]
fn terminals_refuse_what_they_can_check() {
    let mut b = bank(7);
    let token = take(&mut b, 700);
    let sale = b.merchant.request_payment(700, 42).unwrap();
    let (token, proof) = b.wallet.spend(&token.payload.serial, sale.challenge).unwrap();

    let mut unsigned = token.clone();
    unsigned.signature = Natural::from_u32(1);
    assert_eq!(
        b.merchant.accept(&sale, unsigned, proof.clone(), 1),
        Err(Error::InvalidTokenSignature)
    );
    let dearer = b.merchant.request_payment(701, 42).unwrap();
    assert_eq!(
        b.merchant.accept(&dearer, token.clone(), proof.clone(), 1),
        Err(Error::AmountMismatch {
            expected: 701,
            found: 700
        })
    );
    assert_eq!(
        b.merchant.accept(&sale, token.clone(), proof.clone(), 101),
        Err(Error::Expired {
            expiry: 100,
            now: 101
        })
    );
    let again = b.merchant.request_payment(700, 43).unwrap();
    assert_eq!(
        b.merchant.accept(&again, token.clone(), proof.clone(), 1),
        Err(Error::ChallengeMismatch)
    );
    assert_eq!(
        b.other.accept(&sale, token, proof, 1),
        Err(Error::ChallengeMismatch)
    );
    assert!(b.merchant.pending().is_empty());
    let fixed = b.merchant.challenge_for(700, 42, sale.nonce).unwrap();
    assert_eq!(fixed, sale);
}

#[test]
fn a_sealed_element_spends_once() {
    let mut b = bank(8);
    let token = take(&mut b, 700);
    let serial = token.payload.serial;
    assert_eq!(
        b.wallet.spend(&[0; 16], Fp::one()),
        Err(Error::UnknownToken)
    );
    assert_eq!(
        b.wallet.spend(&serial, Fp::zero()),
        Err(Error::DegenerateChallenge)
    );
    assert!(b.wallet.spend(&serial, Fp::one()).is_ok());
    assert_eq!(
        b.wallet.spend(&serial, Fp::new(2)),
        Err(Error::TokenAlreadySpent)
    );
}

#[test]
fn a_double_spend_unmasks_the_payer() {
    let mut b = bank(9);
    let token = take(&mut b, 700);
    let serial = token.payload.serial;
    b.wallet.crack_secure_element();

    let first_sale = b.merchant.request_payment(700, 42).unwrap();
    let (t, proof) = b.wallet.spend(&serial, first_sale.challenge).unwrap();
    let first = b.merchant.accept(&first_sale, t, proof, 1).unwrap();
    let second_sale = b.other.request_payment(700, 43).unwrap();
    let (t, proof) = b.wallet.spend(&serial, second_sale.challenge).unwrap();
    let second = b.other.accept(&second_sale, t, proof, 1).unwrap();

    assert_eq!(
        b.issuer.redeem(&first),
        Settlement::Credited { amount_cents: 700 }
    );
    match b.issuer.redeem(&second) {
        Settlement::DoubleSpend(report) => {
            assert_eq!(report.culprit, Ok(identity()));
            assert!(report.account_known);
            assert_eq!(report.serial, serial);
            assert_eq!(report.amount_cents, 700);
            assert_eq!(&report.first_merchant, b"bookshop");
            assert_eq!(&report.second_merchant, b"ice-rink");
        }
        other => panic!("{other:?}"),
    }
    assert!(b.issuer.is_suspended(&identity()));
    assert_eq!(b.issuer.balance_of(&identity()), Some(10_000 - 700 - 700));
    assert!(!b.issuer.is_suspended(&WalletId::from_bytes([0; 32])));
    // A suspended account withdraws nothing.
    assert_eq!(
        withdraw(&mut b.wallet, &mut b.issuer, 1, 1, 2, &mut b.rng),
        Err(Error::UnknownAccount(identity()))
    );
}

#[test]
fn verdicts_on_sales_and_candidates() {
    let mut b = bank(10);
    let sale = b.merchant.request_payment(500, 42).unwrap();
    let verdict = |signed, expected| {
        judge_payment(&sale, &payload(), sale.challenge, 77, signed, expected)
    };
    assert_eq!(verdict(true, sale.challenge), None);
    assert_eq!(
        verdict(false, sale.challenge),
        Some(Error::InvalidTokenSignature)
    );
    assert_eq!(
        verdict(true, Fp::zero()),
        Some(Error::DegenerateChallenge)
    );
    assert_eq!(
        verdict(true, sale.challenge.add(Fp::one())),
        Some(Error::ChallengeMismatch)
    );

    let (request, session) = b.wallet.begin_withdrawal(500, 100, 2).unwrap();
    let revealed = &session.candidates[0];
    let commitment = revealed.payload.commitment;
    let blinded = &request.candidates[0].blinded_message;
    assert_eq!(
        judge_revealed(&request, 0, revealed, &commitment, blinded),
        None
    );
    assert_eq!(
        judge_revealed(&request, 0, revealed, &[0; 32], blinded),
        Some(Error::CommitmentMismatch { index: 0 })
    );
    assert_eq!(
        judge_revealed(&request, 0, revealed, &commitment, &Natural::zero()),
        Some(Error::BlindingMismatch { index: 0 })
    );
    assert_eq!(b.issuer.check_request(&request), Ok(()));
}
