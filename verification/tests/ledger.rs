//! Books, refusals and replays of wallets and the issuer.

use digital_euro_wallet::protocol::{complete_funding, complete_payment};
use digital_euro_wallet::{
    defund, enrol, fund, pay, AccountId, DeviceId, ElementState, Error, Issuer, Keypair, Wallet,
};
use rand::{rngs::StdRng, SeedableRng};

const LIMIT: u64 = 50_000;

fn setup(seed: u64) -> (Issuer, Wallet, Wallet) {
    let mut rng = StdRng::seed_from_u64(seed);
    let mut issuer = Issuer::new(Keypair::generate(512, &mut rng).unwrap());
    issuer.open_account(AccountId([1; 16]), 10_000);
    issuer.open_account(AccountId([2; 16]), 0);
    let a = enrol(
        &mut issuer,
        AccountId([1; 16]),
        LIMIT,
        512,
        StdRng::seed_from_u64(seed + 1),
        &mut rng,
    )
    .unwrap();
    let b = enrol(
        &mut issuer,
        AccountId([2; 16]),
        LIMIT,
        512,
        StdRng::seed_from_u64(seed + 2),
        &mut rng,
    )
    .unwrap();
    (issuer, a, b)
}

#[test]
fn a_fresh_device_is_empty_and_sealed() {
    let (issuer, a, b) = setup(100);
    assert_eq!(a.balance(), 0);
    assert_eq!(a.holding_limit(), LIMIT);
    assert_eq!(a.headroom(), LIMIT);
    assert_eq!(a.reserved(), 0);
    assert_eq!(a.state(), ElementState::Sealed);
    assert!(a.can_debit());
    assert!(a.certificate().verify(&issuer.public_key()));
    assert_ne!(a.device(), b.device());
    assert_eq!(issuer.account_of(&b.device()), Some(AccountId([2; 16])));
    assert_eq!(issuer.account_of(&DeviceId([0; 16])), None);
    assert_eq!(issuer.balance_of(&AccountId([3; 16])), None);
}

#[test]
fn unknown_accounts_are_not_enrolled() {
    let (mut issuer, _, _) = setup(110);
    let account = AccountId([9; 16]);
    let refused = enrol(
        &mut issuer,
        account,
        LIMIT,
        512,
        StdRng::seed_from_u64(1),
        &mut StdRng::seed_from_u64(2),
    );
    assert!(matches!(refused, Err(Error::UnregisteredAccount(id)) if id == account));
}

#[test]
fn a_key_other_than_the_certified_one_is_not_installed() {
    let (issuer, a, _) = setup(120);
    let other = Keypair::generate(512, &mut StdRng::seed_from_u64(5)).unwrap();
    assert!(matches!(
        Wallet::new(
            a.certificate().clone(),
            other,
            issuer.public_key(),
            StdRng::seed_from_u64(0)
        ),
        Err(Error::InvalidCertificate)
    ));
}

#[test]
fn zero_amounts_are_refused_everywhere() {
    let (mut issuer, mut a, mut b) = setup(130);
    fund(&mut a, &mut issuer, 100).unwrap();
    assert_eq!(a.request_payment(0), Err(Error::ZeroAmount));
    assert_eq!(a.request_funding(0), Err(Error::ZeroAmount));
    assert_eq!(a.defund(0), Err(Error::ZeroAmount));
    assert_eq!(pay(&mut a, &mut b, 0), Err(Error::ZeroAmount));
    assert_eq!(fund(&mut a, &mut issuer, 0), Err(Error::ZeroAmount));
    let mut request = b.open_request(5, [7; 16]);
    request.amount_cents = 0;
    assert_eq!(a.pay(&request), Err(Error::ZeroAmount));
    assert_eq!(a.balance(), 100);
}

#[test]
fn requests_under_a_given_nonce() {
    let (mut issuer, mut a, mut b) = setup(140);
    fund(&mut a, &mut issuer, 1_000).unwrap();
    let request = b.open_request(600, [9; 16]);
    assert_eq!(request.nonce, [9; 16]);
    assert_eq!(b.reserved(), 600);
    assert_eq!(b.headroom(), LIMIT - 600);
    assert_eq!(complete_payment(&mut a, &mut b, &request), Ok(600));
    assert_eq!((a.balance(), b.balance(), b.reserved()), (400, 600, 0));
    // Asked to pay it again, the payer has too little left.
    assert_eq!(
        complete_payment(&mut a, &mut b, &request),
        Err(Error::InsufficientFunds {
            requested: 600,
            available: 400
        })
    );
    assert!(!b.cancel_request(&[9; 16]));
}

#[test]
fn a_transfer_of_another_amount_does_not_settle_a_request() {
    let (mut issuer, mut a, mut b) = setup(150);
    fund(&mut a, &mut issuer, 1_000).unwrap();
    let mut request = b.open_request(600, [1; 16]);
    request.amount_cents = 500;
    let transfer = a.pay(&request).unwrap();
    assert_eq!(transfer.counter, 1);
    assert_eq!(
        b.receive(&transfer),
        Err(Error::AmountMismatch {
            expected: 600,
            found: 500
        })
    );
    assert_eq!(b.balance(), 0);
    assert_eq!(b.reserved(), 600);
}

#[test]
fn a_transfer_with_a_foreign_certificate_is_refused() {
    let (mut issuer, mut a, mut b) = setup(160);
    let (_, c, _) = setup(165);
    fund(&mut a, &mut issuer, 1_000).unwrap();
    let request = b.open_request(600, [1; 16]);
    let mut transfer = a.pay(&request).unwrap();
    transfer.payer = c.certificate().clone();
    assert_eq!(b.receive(&transfer), Err(Error::InvalidCertificate));
}

#[test]
fn funding_messages_are_credited_once_and_only_as_requested() {
    let (mut issuer, mut a, mut b) = setup(170);
    let request = a.open_funding(300, [4; 16]);
    assert_eq!(a.reserved(), 300);
    let funding = issuer.fund(&request).unwrap();
    assert_eq!(issuer.fund(&request), Err(Error::Replay));
    assert_eq!(b.apply_funding(&funding), Err(Error::NotForThisDevice));
    let mut forged = funding.clone();
    forged.amount_cents = 3_000;
    assert_eq!(a.apply_funding(&forged), Err(Error::InvalidSignature));
    assert_eq!(a.apply_funding(&funding), Ok(300));
    assert_eq!(a.apply_funding(&funding), Err(Error::AlreadyCredited));
    assert_eq!((a.balance(), a.reserved()), (300, 0));
    assert_eq!(issuer.balance_of(&AccountId([1; 16])), Some(9_700));
    assert_eq!(issuer.offline_float(), 300);
}

#[test]
fn abandoned_funding_is_not_credited() {
    let (mut issuer, mut a, _) = setup(180);
    let request = a.open_funding(300, [4; 16]);
    assert!(a.cancel_funding(&[4; 16]));
    assert!(!a.cancel_funding(&[4; 16]));
    assert_eq!(
        complete_funding(&mut a, &mut issuer, &request),
        Err(Error::UnknownRequest)
    );
    assert_eq!(a.balance(), 0);
    // A request with another amount under the same nonce.
    let smaller = a.open_funding(200, [5; 16]);
    a.cancel_funding(&[5; 16]);
    a.open_funding(250, [5; 16]);
    assert_eq!(
        complete_funding(&mut a, &mut issuer, &smaller),
        Err(Error::AmountMismatch {
            expected: 250,
            found: 200
        })
    );
}

#[test]
fn the_issuer_refuses_strangers_and_forgeries() {
    let (mut issuer, mut a, _) = setup(190);
    let (_, mut stranger, _) = setup(195);
    let request = stranger.open_funding(10, [1; 16]);
    assert_eq!(
        issuer.fund(&request),
        Err(Error::UnknownDevice(stranger.device()))
    );
    let mut forged = a.open_funding(10, [1; 16]);
    forged.amount_cents = 20;
    assert_eq!(issuer.fund(&forged), Err(Error::InvalidSignature));

    a.cancel_funding(&[1; 16]);
    fund(&mut a, &mut issuer, 100).unwrap();
    let mut order = a.defund(40).unwrap();
    order.amount_cents = 400;
    assert_eq!(issuer.defund(&order), Err(Error::InvalidSignature));
    order.device = stranger.device();
    assert_eq!(
        issuer.defund(&order),
        Err(Error::UnknownDevice(stranger.device()))
    );
    assert_eq!(issuer.offline_float(), 100);
}

#[test]
fn orders_must_come_in_the_order_of_their_counters() {
    let (mut issuer, mut a, _) = setup(200);
    fund(&mut a, &mut issuer, 100).unwrap();
    let first = a.defund(10).unwrap();
    let second = a.defund(20).unwrap();
    assert_eq!((first.counter, second.counter), (1, 2));
    assert_eq!(issuer.defund(&second), Ok(20));
    assert_eq!(issuer.defund(&first), Err(Error::Replay));
    assert_eq!(issuer.offline_float(), 80);
    assert_eq!(a.balance(), 70);
}

#[test]
fn an_account_that_cannot_hold_the_money_is_not_credited() {
    let (mut issuer, mut a, _) = setup(210);
    fund(&mut a, &mut issuer, 100).unwrap();
    issuer.open_account(AccountId([1; 16]), u64::MAX);
    let order = a.defund(1).unwrap();
    assert_eq!(issuer.defund(&order), Err(Error::AmountOverflow));
    issuer.open_account(AccountId([1; 16]), 0);
    assert_eq!(issuer.defund(&order), Ok(1));
}

#[test]
fn value_is_conserved_by_every_operation() {
    let (mut issuer, mut a, mut b) = setup(220);
    let money = |issuer: &Issuer| {
        issuer.balance_of(&AccountId([1; 16])).unwrap() as i128
            + issuer.balance_of(&AccountId([2; 16])).unwrap() as i128
            + issuer.offline_float()
    };
    let start = money(&issuer);
    assert_eq!(fund(&mut a, &mut issuer, 700), Ok(700));
    assert_eq!(pay(&mut a, &mut b, 250), Ok(250));
    assert_eq!(pay(&mut b, &mut a, 50), Ok(50));
    assert_eq!(defund(&mut b, &mut issuer, 120), Ok(120));
    assert_eq!(money(&issuer), start);
    assert_eq!(
        (a.balance() + b.balance()) as i128,
        issuer.offline_float()
    );
    assert_eq!((a.balance(), b.balance()), (500, 80));
}

#[test]
fn a_cracked_element_signs_what_a_sealed_one_would() {
    let (mut issuer, mut a, mut b) = setup(230);
    fund(&mut a, &mut issuer, 100).unwrap();
    a.crack_secure_element();
    let request = b.open_request(100, [1; 16]);
    let transfer = a.pay(&request).unwrap();
    assert_eq!(b.receive(&transfer), Ok(100));
    assert_eq!((a.balance(), b.balance()), (100, 100));
    assert_eq!(
        pay(&mut a, &mut b, 101),
        Err(Error::InsufficientFunds {
            requested: 101,
            available: 100
        })
    );
}

#[test]
fn certificates_by_the_issuer_verify() {
    let (mut issuer, _, _) = setup(240);
    let key = Keypair::generate(512, &mut StdRng::seed_from_u64(8)).unwrap();
    let certificate = issuer.certify_as(
        DeviceId([7; 16]),
        AccountId([2; 16]),
        key.public_key(),
        123,
    );
    assert!(certificate.verify(&issuer.public_key()));
    assert_eq!(certificate.device, DeviceId([7; 16]));
    assert_eq!(certificate.holding_limit_cents, 123);
    assert_eq!(
        issuer.account_of(&DeviceId([7; 16])),
        Some(AccountId([2; 16]))
    );
}

#[test]
fn verdicts_given_what_was_verified() {
    let (mut issuer, mut a, mut b) = setup(250);
    fund(&mut a, &mut issuer, 1_000).unwrap();
    let request = b.open_request(600, [9; 16]);
    assert_eq!(
        a.judge_request(&request, false),
        Some(Error::InvalidCertificate)
    );
    assert_eq!(a.judge_request(&request, true), None);
    assert_eq!(b.judge_request(&request, true), Some(Error::SelfPayment));
    let transfer = a.pay(&request).unwrap();
    assert_eq!(
        a.judge_transfer(&transfer, true, true),
        Some(Error::NotForThisDevice)
    );
    assert_eq!(
        b.judge_transfer(&transfer, false, true),
        Some(Error::InvalidCertificate)
    );
    assert_eq!(
        b.judge_transfer(&transfer, true, false),
        Some(Error::InvalidSignature)
    );
    assert_eq!(b.judge_transfer(&transfer, true, true), None);

    let asked = b.open_funding(50, [8; 16]);
    assert_eq!(
        issuer.judge_request(&asked, false),
        Some(Error::InvalidSignature)
    );
    assert_eq!(
        issuer.judge_request(&asked, true),
        Some(Error::InsufficientFunds {
            requested: 50,
            available: 0
        })
    );
    issuer.open_account(AccountId([2; 16]), 50);
    assert_eq!(issuer.judge_request(&asked, true), None);
    let funding = issuer.fund(&asked).unwrap();
    assert_eq!(
        b.judge_funding(&funding, false),
        Some(Error::InvalidSignature)
    );
    assert_eq!(b.judge_funding(&funding, true), None);
    let order = a.defund(10).unwrap();
    assert_eq!(
        issuer.judge_order(&order, false),
        Some(Error::InvalidSignature)
    );
    assert_eq!(issuer.judge_order(&order, true), None);
}

#[test]
fn a_wide_modulus_needs_no_reduction() {
    let key = Keypair::generate(512, &mut StdRng::seed_from_u64(77)).unwrap();
    let expanded = vec![0xffu8; 64];
    let mut cleared = expanded.clone();
    cleared[0] = 0x3f;
    assert_eq!(key.public.reduce(expanded).to_bytes_be(), cleared);
}
