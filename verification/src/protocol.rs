//! Whole operations between a device and the issuer, or between two devices.
//!
//! A payment, a funding or a defunding takes several messages. The functions
//! here pass them on and, where the other side refuses, release what was
//! reserved, so that a refused operation costs nobody anything.

use crate::error::Error;
use crate::id::AccountId;
use crate::issuer::{Issuer, IssuerView};
use crate::message::{
    FundingRequest, FundingRequestView, PaymentRequest, PaymentRequestView,
};
use crate::signature::Keypair;
use crate::wallet::{ElementState, Wallet, WalletView};
use rand::rngs::StdRng;
use vstd::prelude::*;

verus! {

// ---------------------------------------------------------------------------
// Enrolment
// ---------------------------------------------------------------------------

/// A fresh element with this certificate and key.
pub open spec fn fresh_wallet(wallet: WalletView) -> bool {
    &&& wallet.balance == 0
    &&& wallet.incoming == Map::<u128, u64>::empty()
    &&& wallet.pending_funding == Map::<u128, u64>::empty()
    &&& wallet.credited == Set::<u128>::empty()
    &&& wallet.counter == 0
    &&& wallet.state == ElementState::Sealed
}

/// Generates a device key, has it certified for an account, and installs it on
/// a fresh element.
pub fn enrol(
    issuer: &mut Issuer,
    account: AccountId,
    holding_limit_cents: u64,
    key_bits: u64,
    device_rng: StdRng,
    rng: &mut StdRng,
) -> (r: Result<Wallet, Error>)
    requires
        old(issuer)@.well_formed(),
        key_bits >= 512,
        key_bits % 2 == 0,
        key_bits / 16 + 8 <= isize::MAX,
    ensures
        final(issuer)@.well_formed(),
        match r {
            Ok(wallet) => {
                let device = wallet@.certificate.device;
                &&& old(issuer)@.accounts.contains_key(crate::bytes::block_key(account.0))
                &&& !old(issuer)@.devices.contains_key(crate::bytes::block_key(device.0))
                &&& wallet@.well_formed()
                &&& fresh_wallet(wallet@)
                &&& wallet@.issuer == old(issuer)@.key
                &&& wallet@.certificate == old(issuer)@.certificate_for(
                    device,
                    wallet@.key,
                    holding_limit_cents,
                )
                &&& crate::signature::generated_key(
                    wallet@.key,
                    wallet@.private_exponent,
                    key_bits as nat,
                )
                &&& final(issuer)@ == old(issuer)@.with_device(device, account, wallet@.key)
            },
            Err(error) => {
                ||| error == Error::EntropyExhausted && final(issuer)@ == old(issuer)@
                ||| error == Error::UnregisteredAccount(account) && final(issuer)@ == old(issuer)@
                    && !old(issuer)@.accounts.contains_key(crate::bytes::block_key(account.0))
                ||| error == Error::InvalidCertificate && !crate::signature::sound_key(
                    old(issuer)@.key,
                    old(issuer)@.private_exponent,
                )
            },
        },
{
    let mut device_rng: StdRng = device_rng;
    let keypair: Keypair = match Keypair::generate(key_bits, &mut device_rng) {
        Ok(keypair) => keypair,
        Err(error) => {
            return Err(error);
        },
    };
    let certificate = match issuer.certify_device(
        account,
        keypair.public_key(),
        holding_limit_cents,
        rng,
    ) {
        Ok(certificate) => certificate,
        Err(error) => {
            return Err(error);
        },
    };
    proof {
        if crate::signature::sound_key(old(issuer)@.key, old(issuer)@.private_exponent) {
            crate::signature::lemma_signature_verifies(
                old(issuer)@.key,
                old(issuer)@.private_exponent,
                crate::certificate::certificate_digest(
                    certificate@.device,
                    certificate@.public_key,
                    certificate@.holding_limit_cents,
                ),
            );
        }
    }
    Wallet::new(certificate, keypair, issuer.public_key(), device_rng)
}

// ---------------------------------------------------------------------------
// Payment
// ---------------------------------------------------------------------------

/// The outcome of a payment that was requested.
pub open spec fn payment_outcome(
    payer: WalletView,
    payee: WalletView,
    request: PaymentRequestView,
    r: Result<u64, Error>,
    payer_after: WalletView,
    payee_after: WalletView,
) -> bool {
    match payer.pay_error(request) {
        Some(error) => {
            &&& r == Err::<u64, Error>(error)
            &&& payer_after == payer
            &&& payee_after == payee.without_request(request.nonce)
        },
        None => {
            let transfer = payer.transfer_for(request);
            &&& payer_after == payer.debited(request.amount_cents)
            &&& match payee.receive_error(transfer) {
                Some(error) => r == Err::<u64, Error>(error) && payee_after == payee,
                None => r == Ok::<u64, Error>(request.amount_cents) && payee_after
                    == payee.received(transfer),
            }
        },
    }
}

/// Pays a request and hands the transfer to the payee. If the payer refuses, the
/// payee abandons the request.
pub fn complete_payment(payer: &mut Wallet, payee: &mut Wallet, request: &PaymentRequest) -> (r:
    Result<u64, Error>)
    requires
        old(payer)@.well_formed(),
        old(payee)@.well_formed(),
        old(payer)@.pay_error(request@) is None ==> old(payer)@.can_debit(),
    ensures
        payment_outcome(
            old(payer)@,
            old(payee)@,
            request@,
            r,
            final(payer)@,
            final(payee)@,
        ),
        final(payer)@.well_formed(),
        final(payee)@.well_formed(),
{
    match payer.pay(request) {
        Ok(transfer) => payee.receive(&transfer),
        Err(error) => {
            payee.cancel_request(&request.nonce);
            Err(error)
        },
    }
}

/// The outcome of a whole payment, under whatever nonce the payee has drawn.
pub open spec fn pay_outcome(
    payer: WalletView,
    payee: WalletView,
    amount: u64,
    r: Result<u64, Error>,
    payer_after: WalletView,
    payee_after: WalletView,
) -> bool {
    match payee.reservation_error(amount) {
        Some(error) => {
            &&& r == Err::<u64, Error>(error)
            &&& payer_after == payer
            &&& payee_after == payee
        },
        None => exists|nonce: [u8; 16]|
            payment_outcome(
                payer,
                #[trigger] payee.with_request(nonce, amount),
                payee.request_for(nonce, amount),
                r,
                payer_after,
                payee_after,
            ),
    }
}

/// Runs a whole payment: the payee asks, the payer pays, the payee credits.
/// Returns the amount credited.
pub fn pay(payer: &mut Wallet, payee: &mut Wallet, amount_cents: u64) -> (r: Result<u64, Error>)
    requires
        old(payer)@.well_formed(),
        old(payee)@.well_formed(),
        old(payer)@.pays(old(payee)@, amount_cents) ==> old(payer)@.can_debit(),
    ensures
        pay_outcome(
            old(payer)@,
            old(payee)@,
            amount_cents,
            r,
            final(payer)@,
            final(payee)@,
        ),
        final(payer)@.well_formed(),
        final(payee)@.well_formed(),
{
    match payee.request_payment(amount_cents) {
        Ok(request) => complete_payment(payer, payee, &request),
        Err(error) => Err(error),
    }
}

// ---------------------------------------------------------------------------
// Funding
// ---------------------------------------------------------------------------

/// The outcome of a funding that was requested.
pub open spec fn funding_outcome(
    wallet: WalletView,
    issuer: IssuerView,
    request: FundingRequestView,
    r: Result<u64, Error>,
    wallet_after: WalletView,
    issuer_after: IssuerView,
) -> bool {
    match issuer.fund_error(request) {
        Some(error) => {
            &&& r == Err::<u64, Error>(error)
            &&& issuer_after == issuer
            &&& wallet_after == wallet.without_funding(request.nonce)
        },
        None => {
            let funding = issuer.funding_for(request);
            &&& issuer_after == issuer.after_funding(request)
            &&& match wallet.funding_error(funding) {
                Some(error) => r == Err::<u64, Error>(error) && wallet_after == wallet,
                None => r == Ok::<u64, Error>(request.amount_cents) && wallet_after
                    == wallet.funded(funding),
            }
        },
    }
}

/// Hands a funding request to the issuer and credits the answer. If the issuer
/// refuses, the element abandons the request.
pub fn complete_funding(wallet: &mut Wallet, issuer: &mut Issuer, request: &FundingRequest) -> (r:
    Result<u64, Error>)
    requires
        old(wallet)@.well_formed(),
        old(issuer)@.well_formed(),
    ensures
        funding_outcome(
            old(wallet)@,
            old(issuer)@,
            request@,
            r,
            final(wallet)@,
            final(issuer)@,
        ),
        final(wallet)@.well_formed(),
        final(issuer)@.well_formed(),
{
    match issuer.fund(request) {
        Ok(funding) => wallet.apply_funding(&funding),
        Err(error) => {
            wallet.cancel_funding(&request.nonce);
            Err(error)
        },
    }
}

/// The outcome of a whole funding, under whatever nonce the element has drawn.
pub open spec fn fund_outcome(
    wallet: WalletView,
    issuer: IssuerView,
    amount: u64,
    r: Result<u64, Error>,
    wallet_after: WalletView,
    issuer_after: IssuerView,
) -> bool {
    match wallet.reservation_error(amount) {
        Some(error) => {
            &&& r == Err::<u64, Error>(error)
            &&& wallet_after == wallet
            &&& issuer_after == issuer
        },
        None => exists|nonce: [u8; 16]|
            funding_outcome(
                #[trigger] wallet.with_funding(nonce, amount),
                issuer,
                wallet.funding_for(nonce, amount),
                r,
                wallet_after,
                issuer_after,
            ),
    }
}

/// Moves value from the online account onto the element. Returns the amount
/// credited.
pub fn fund(wallet: &mut Wallet, issuer: &mut Issuer, amount_cents: u64) -> (r: Result<u64, Error>)
    requires
        old(wallet)@.well_formed(),
        old(issuer)@.well_formed(),
        old(wallet)@.reservation_error(amount_cents) is None ==> old(wallet)@.key.n > 0,
    ensures
        fund_outcome(
            old(wallet)@,
            old(issuer)@,
            amount_cents,
            r,
            final(wallet)@,
            final(issuer)@,
        ),
        final(wallet)@.well_formed(),
        final(issuer)@.well_formed(),
{
    match wallet.request_funding(amount_cents) {
        Ok(request) => complete_funding(wallet, issuer, &request),
        Err(error) => Err(error),
    }
}

// ---------------------------------------------------------------------------
// Defunding
// ---------------------------------------------------------------------------

/// The outcome of a whole defunding.
pub open spec fn defund_outcome(
    wallet: WalletView,
    issuer: IssuerView,
    amount: u64,
    r: Result<u64, Error>,
    wallet_after: WalletView,
    issuer_after: IssuerView,
) -> bool {
    match wallet.debit_error(amount) {
        Some(error) => {
            &&& r == Err::<u64, Error>(error)
            &&& wallet_after == wallet
            &&& issuer_after == issuer
        },
        None => {
            let order = wallet.order_for(amount);
            &&& wallet_after == wallet.debited(amount)
            &&& match issuer.defund_error(order) {
                Some(error) => r == Err::<u64, Error>(error) && issuer_after == issuer,
                None => r == Ok::<u64, Error>(amount) && issuer_after == issuer.after_defunding(
                    order,
                ),
            }
        },
    }
}

/// Moves value from the element back to the online account. Returns the amount
/// credited.
pub fn defund(wallet: &mut Wallet, issuer: &mut Issuer, amount_cents: u64) -> (r: Result<
    u64,
    Error,
>)
    requires
        old(wallet)@.well_formed(),
        old(issuer)@.well_formed(),
        old(wallet)@.debit_error(amount_cents) is None ==> old(wallet)@.can_debit(),
    ensures
        defund_outcome(
            old(wallet)@,
            old(issuer)@,
            amount_cents,
            r,
            final(wallet)@,
            final(issuer)@,
        ),
        final(wallet)@.well_formed(),
        final(issuer)@.well_formed(),
{
    match wallet.defund(amount_cents) {
        Ok(order) => issuer.defund(&order),
        Err(error) => Err(error),
    }
}

// ---------------------------------------------------------------------------
// A refused operation changes nothing, and value is conserved
// ---------------------------------------------------------------------------

/// A nonce that an element has not used.
pub open spec fn unused(wallet: WalletView, nonce: [u8; 16]) -> bool {
    let key = crate::bytes::block_key(nonce);
    &&& !wallet.incoming.contains_key(key)
    &&& !wallet.pending_funding.contains_key(key)
    &&& !wallet.credited.contains(key)
}

/// A payment under an unused nonce, between elements of the same issuer and by a
/// payer with a sound key, succeeds exactly if the payer does not refuse. If it
/// is refused, neither element has changed. If it succeeds, the payee has the
/// amount more, and a sealed payer the amount less.
pub proof fn lemma_payment_is_all_or_nothing(
    payer: WalletView,
    payee: WalletView,
    nonce: [u8; 16],
    amount: u64,
    r: Result<u64, Error>,
    payer_after: WalletView,
    payee_after: WalletView,
)
    requires
        payer.well_formed(),
        payee.well_formed(),
        payer.issuer == payee.issuer,
        crate::signature::sound_key(payer.key, payer.private_exponent),
        unused(payee, nonce),
        payee.reservation_error(amount) is None,
        payment_outcome(
            payer,
            payee.with_request(nonce, amount),
            payee.request_for(nonce, amount),
            r,
            payer_after,
            payee_after,
        ),
    ensures
        r is Ok <==> payer.pay_error(payee.request_for(nonce, amount)) is None,
        r is Err ==> payer_after == payer && payee_after == payee,
        r is Ok ==> payee_after.balance == payee.balance + amount && payee_after.reserved()
            == payee.reserved() && payee_after.incoming == payee.incoming,
        r is Ok && payer.state == ElementState::Sealed ==> payer_after.balance == payer.balance
            - amount && payer_after.balance + payee_after.balance == payer.balance + payee.balance,
        r is Ok && payer.state == ElementState::Cracked ==> payer_after.balance == payer.balance,
{
    let key = crate::bytes::block_key(nonce);
    let request = payee.request_for(nonce, amount);
    let opened = payee.with_request(nonce, amount);
    crate::totals::lemma_total_insert(payee.incoming, key, amount);
    assert(opened.well_formed());
    crate::wallet::lemma_cancelled_request_leaves_no_trace(payee, nonce, amount);
    if payer.pay_error(request) is None {
        crate::wallet::lemma_paid_transfer_is_credited(payer, opened, request);
        assert(opened.received(payer.transfer_for(request)).incoming =~= payee.incoming);
    }
}

/// A funding under an unused nonce, of an element that the issuer certified with
/// a sound key, succeeds exactly if the issuer does not refuse. If it is refused,
/// nothing has changed. If it succeeds, the element has the amount more, the
/// account the amount less, and the float the amount more.
pub proof fn lemma_funding_is_all_or_nothing(
    wallet: WalletView,
    issuer: IssuerView,
    nonce: [u8; 16],
    amount: u64,
    r: Result<u64, Error>,
    wallet_after: WalletView,
    issuer_after: IssuerView,
)
    requires
        wallet.well_formed(),
        issuer.well_formed(),
        crate::issuer::linked(wallet, issuer),
        crate::signature::sound_key(issuer.key, issuer.private_exponent),
        unused(wallet, nonce),
        wallet.reservation_error(amount) is None,
        funding_outcome(
            wallet.with_funding(nonce, amount),
            issuer,
            wallet.funding_for(nonce, amount),
            r,
            wallet_after,
            issuer_after,
        ),
    ensures
        r is Ok <==> issuer.fund_error(wallet.funding_for(nonce, amount)) is None,
        r is Err ==> wallet_after == wallet && issuer_after == issuer,
        r is Ok ==> {
            let account = issuer.account_key(wallet.certificate.device);
            &&& wallet_after.balance == wallet.balance + amount
            &&& wallet_after.reserved() == wallet.reserved()
            &&& issuer_after.accounts[account] == issuer.accounts[account] - amount
            &&& issuer_after.float == issuer.float + amount
            &&& issuer_after.online() + issuer_after.float == issuer.online() + issuer.float
            &&& crate::issuer::linked(wallet_after, issuer_after)
        },
{
    let key = crate::bytes::block_key(nonce);
    let request = wallet.funding_for(nonce, amount);
    let opened = wallet.with_funding(nonce, amount);
    crate::totals::lemma_total_insert(wallet.pending_funding, key, amount);
    crate::wallet::lemma_cancelled_request_leaves_no_trace(wallet, nonce, amount);
    crate::issuer::lemma_honoured_funding_is_credited(wallet, issuer, nonce, amount);
    if issuer.fund_error(request) is None {
        crate::issuer::lemma_funding_conserves_money(issuer, request);
        assert(opened.funded(issuer.funding_for(request)).pending_funding
            =~= wallet.pending_funding);
    }
}

/// A funding request signed with a sound key is refused only for its nonce, for
/// want of money on the account, or because the float cannot grow any more.
pub proof fn lemma_genuine_request_is_honoured(
    wallet: WalletView,
    issuer: IssuerView,
    nonce: [u8; 16],
    amount: u64,
)
    requires
        crate::issuer::linked(wallet, issuer),
        crate::signature::sound_key(wallet.key, wallet.private_exponent),
    ensures
        issuer.fund_error(wallet.funding_for(nonce, amount)) is None <==> {
            &&& !issuer.honoured.contains(crate::bytes::block_key(nonce))
            &&& amount <= issuer.accounts[issuer.account_key(wallet.certificate.device)]
            &&& issuer.float + amount <= i128::MAX
        },
{
    crate::signature::lemma_signature_verifies(
        wallet.key,
        wallet.private_exponent,
        crate::message::funding_request_digest(wallet.certificate.device, amount, nonce@),
    );
}

/// A defunding by a sealed element that the issuer certified, with a sound key,
/// moves the amount from the element to the account.
pub proof fn lemma_defunding_moves_value(wallet: WalletView, issuer: IssuerView, amount: u64)
    requires
        wallet.well_formed(),
        issuer.well_formed(),
        crate::issuer::linked(wallet, issuer),
        crate::signature::sound_key(wallet.key, wallet.private_exponent),
        wallet.can_debit(),
        wallet.debit_error(amount) is None,
        wallet.state == ElementState::Sealed,
        issuer.accounts[issuer.account_key(wallet.certificate.device)] + amount <= u64::MAX,
        issuer.float - amount >= i128::MIN,
    ensures
        ({
            let order = wallet.order_for(amount);
            let account = issuer.account_key(wallet.certificate.device);
            let after = issuer.after_defunding(order);
            &&& issuer.defund_error(order) is None
            &&& wallet.debited(amount).balance == wallet.balance - amount
            &&& after.accounts[account] == issuer.accounts[account] + amount
            &&& after.float == issuer.float - amount
            &&& after.online() + after.float == issuer.online() + issuer.float
        }),
{
    crate::issuer::lemma_order_is_cashed(wallet, issuer, amount);
    crate::issuer::lemma_defunding_conserves_money(issuer, wallet.order_for(amount));
}

/// A device that was just enrolled and its issuer agree on each other.
pub proof fn lemma_enrolled_device_is_linked(
    wallet: WalletView,
    issuer: IssuerView,
    account: AccountId,
)
    requires
        issuer.well_formed(),
        wallet.issuer == issuer.key,
        !issuer.devices.contains_key(crate::bytes::block_key(wallet.certificate.device.0)),
    ensures
        crate::issuer::linked(
            wallet,
            issuer.with_device(wallet.certificate.device, account, wallet.key),
        ),
{
    assert(!issuer.counters.contains_key(
        crate::bytes::block_key(wallet.certificate.device.0),
    ));
}

// ---------------------------------------------------------------------------
// What a whole operation comes to
// ---------------------------------------------------------------------------

/// A whole payment. If the payee has no room, or the payer cannot pay, the reason is given and
/// no balance moves. If it succeeds, exactly the amount was credited to the payee, and taken
/// from a sealed payer; neither the limit nor the device of anyone changes.
pub proof fn lemma_payment_moves_the_amount(
    payer: WalletView,
    payee: WalletView,
    amount: u64,
    r: Result<u64, Error>,
    payer_after: WalletView,
    payee_after: WalletView,
)
    requires
        payer.well_formed(),
        payee.well_formed(),
        payer.counter < u64::MAX,
        pay_outcome(payer, payee, amount, r, payer_after, payee_after),
    ensures
        ({
            let room = payee.certificate.holding_limit_cents - payee.balance - payee.reserved();
            let certified = crate::certificate::certificate_valid(
                payee.certificate,
                payer.issuer,
            );
            let own = payee.certificate.device == payer.certificate.device;
            &&& amount == 0 ==> r == Err::<u64, Error>(Error::ZeroAmount)
            &&& amount > 0 && amount > room ==> r == Err::<u64, Error>(
                Error::HoldingLimitExceeded { requested: amount, headroom: room as u64 },
            )
            &&& 0 < amount <= room && !certified ==> r == Err::<u64, Error>(
                Error::InvalidCertificate,
            )
            &&& 0 < amount <= room && certified && own ==> r == Err::<u64, Error>(
                Error::SelfPayment,
            )
            &&& 0 < amount <= room && certified && !own && amount > payer.balance ==> r == Err::<
                u64,
                Error,
            >(Error::InsufficientFunds { requested: amount, available: payer.balance })
            &&& !(0 < amount <= room && certified && !own && amount <= payer.balance)
                ==> payer_after == payer && payee_after.balance == payee.balance
        }),
        r matches Ok(credited) ==> {
            &&& credited == amount
            &&& payee_after.balance == payee.balance + amount
            &&& payer.state == ElementState::Sealed ==> payer_after.balance == payer.balance
                - amount
            &&& payer.state == ElementState::Cracked ==> payer_after.balance == payer.balance
            &&& payer_after.counter == payer.counter + 1
            &&& payee_after.counter == payee.counter
        },
        payer_after.certificate == payer.certificate,
        payee_after.certificate == payee.certificate,
        payer_after.state == payer.state,
        payee_after.state == payee.state,
        payer_after.incoming == payer.incoming,
        payer_after.pending_funding == payer.pending_funding,
        payee_after.pending_funding == payee.pending_funding,
        payer_after.credited == payer.credited,
        payee.credited.subset_of(payee_after.credited),
{
    if payee.reservation_error(amount) is None {
        let nonce = choose|nonce: [u8; 16]|
            payment_outcome(
                payer,
                #[trigger] payee.with_request(nonce, amount),
                payee.request_for(nonce, amount),
                r,
                payer_after,
                payee_after,
            );
        let opened = payee.with_request(nonce, amount);
        assert(opened.balance == payee.balance);
        crate::totals::lemma_total_insert(
            payee.incoming,
            crate::bytes::block_key(nonce),
            amount,
        );
    }
}

/// A whole funding. If the element has no room the reason is given and nothing changes; if the
/// issuer refuses, no money moves. If it succeeds, exactly the amount was credited to the
/// element, taken from the account behind it, and added to the float.
pub proof fn lemma_funding_moves_the_amount(
    wallet: WalletView,
    issuer: IssuerView,
    amount: u64,
    r: Result<u64, Error>,
    wallet_after: WalletView,
    issuer_after: IssuerView,
)
    requires
        wallet.well_formed(),
        issuer.well_formed(),
        fund_outcome(wallet, issuer, amount, r, wallet_after, issuer_after),
    ensures
        ({
            let room = wallet.certificate.holding_limit_cents - wallet.balance - wallet.reserved();
            let device = crate::bytes::block_key(wallet.certificate.device.0);
            let account = crate::bytes::block_key(issuer.devices[device].account.0);
            &&& amount == 0 ==> r == Err::<u64, Error>(Error::ZeroAmount)
            &&& amount > 0 && amount > room ==> r == Err::<u64, Error>(
                Error::HoldingLimitExceeded { requested: amount, headroom: room as u64 },
            )
            &&& !(0 < amount <= room) ==> wallet_after == wallet && issuer_after == issuer
            &&& 0 < amount <= room && !issuer.devices.contains_key(device) ==> r == Err::<
                u64,
                Error,
            >(Error::UnknownDevice(wallet.certificate.device))
            &&& amount > issuer.accounts[account] ==> r is Err && issuer_after == issuer
                && wallet_after.balance == wallet.balance
            &&& r matches Ok(credited) ==> {
                &&& credited == amount
                &&& wallet_after.balance == wallet.balance + amount
                &&& issuer_after.accounts[account] == issuer.accounts[account] - amount
                &&& issuer_after.float == issuer.float + amount
            }
            &&& forall|other: u128|
                other != account ==> #[trigger] issuer_after.accounts[other]
                    == issuer.accounts[other]
        }),
        r is Err ==> wallet_after.balance == wallet.balance,
        issuer_after == issuer || issuer_after.float == issuer.float + amount,
        wallet_after.certificate == wallet.certificate,
        wallet_after.counter == wallet.counter,
        wallet_after.state == wallet.state,
        wallet_after.incoming == wallet.incoming,
        issuer_after.devices == issuer.devices,
        issuer_after.counters == issuer.counters,
{
    if wallet.reservation_error(amount) is None {
        let nonce = choose|nonce: [u8; 16]|
            funding_outcome(
                #[trigger] wallet.with_funding(nonce, amount),
                issuer,
                wallet.funding_for(nonce, amount),
                r,
                wallet_after,
                issuer_after,
            );
        let opened = wallet.with_funding(nonce, amount);
        assert(opened.balance == wallet.balance);
        crate::totals::lemma_total_insert(
            wallet.pending_funding,
            crate::bytes::block_key(nonce),
            amount,
        );
    }
}

/// A whole defunding. If the element does not hold the amount the reason is given and nothing
/// changes. If it succeeds, exactly the amount was taken from a sealed element, credited to the
/// account behind it, and taken from the float.
pub proof fn lemma_defunding_moves_the_amount(
    wallet: WalletView,
    issuer: IssuerView,
    amount: u64,
    r: Result<u64, Error>,
    wallet_after: WalletView,
    issuer_after: IssuerView,
)
    requires
        wallet.well_formed(),
        issuer.well_formed(),
        wallet.counter < u64::MAX,
        defund_outcome(wallet, issuer, amount, r, wallet_after, issuer_after),
    ensures
        ({
            let device = crate::bytes::block_key(wallet.certificate.device.0);
            let account = crate::bytes::block_key(issuer.devices[device].account.0);
            &&& amount == 0 ==> r == Err::<u64, Error>(Error::ZeroAmount)
            &&& amount > wallet.balance ==> r == Err::<u64, Error>(
                Error::InsufficientFunds { requested: amount, available: wallet.balance },
            )
            &&& !(0 < amount <= wallet.balance) ==> wallet_after == wallet && issuer_after
                == issuer
            &&& 0 < amount <= wallet.balance ==> wallet_after.counter == wallet.counter + 1
            &&& 0 < amount <= wallet.balance && wallet.state == ElementState::Sealed
                ==> wallet_after.balance == wallet.balance - amount
            &&& wallet.state == ElementState::Cracked ==> wallet_after.balance == wallet.balance
            &&& r matches Ok(credited) ==> {
                &&& credited == amount
                &&& issuer_after.accounts[account] == issuer.accounts[account] + amount
                &&& issuer_after.float == issuer.float - amount
                &&& issuer_after.counters[device] == wallet.counter + 1
            }
            &&& forall|other: u128|
                other != account ==> #[trigger] issuer_after.accounts[other]
                    == issuer.accounts[other]
        }),
        r is Err ==> issuer_after == issuer,
        wallet_after.certificate == wallet.certificate,
        wallet_after.state == wallet.state,
        wallet_after.incoming == wallet.incoming,
        wallet_after.pending_funding == wallet.pending_funding,
        wallet_after.credited == wallet.credited,
        issuer_after.devices == issuer.devices,
        issuer_after.honoured == issuer.honoured,
{
}

/// A fresh element holds nothing, has promised nothing, has credited nothing, and is sealed.
pub proof fn lemma_fresh_element_is_empty(wallet: WalletView)
    ensures
        fresh_wallet(wallet) ==> {
            &&& wallet.balance == 0
            &&& wallet.reserved() == 0
            &&& wallet.headroom() == wallet.certificate.holding_limit_cents
            &&& wallet.counter == 0
            &&& wallet.state == ElementState::Sealed
            &&& forall|nonce: u128| !(#[trigger] wallet.credited.contains(nonce))
            &&& forall|nonce: u128| !(#[trigger] wallet.incoming.contains_key(nonce))
            &&& forall|nonce: u128| !(#[trigger] wallet.pending_funding.contains_key(nonce))
        },
{
}

/// A payment that is refused for want of money or of room is refused for that reason: the
/// amount exceeds what the payer has, or the room that the payee has left.
pub proof fn lemma_refusal_names_its_reason(
    payer: WalletView,
    payee: WalletView,
    amount: u64,
    r: Result<u64, Error>,
    payer_after: WalletView,
    payee_after: WalletView,
)
    requires
        payer.well_formed(),
        payee.well_formed(),
        payer.counter < u64::MAX,
        pay_outcome(payer, payee, amount, r, payer_after, payee_after),
    ensures
        r matches Err(Error::InsufficientFunds { requested, available }) ==> {
            &&& requested == amount
            &&& available == payer.balance
            &&& amount > payer.balance
            &&& payee_after.balance == payee.balance
            &&& payer_after == payer
        },
        r matches Err(Error::HoldingLimitExceeded { requested, headroom }) ==> {
            &&& requested == amount
            &&& headroom == payee.certificate.holding_limit_cents - payee.balance
                - payee.reserved()
            &&& amount > headroom
            &&& payee_after.balance == payee.balance
            &&& payer_after == payer
        },
{
    lemma_payment_moves_the_amount(payer, payee, amount, r, payer_after, payee_after);
}

} // verus!
