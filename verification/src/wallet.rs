//! The offline applet on a secure element: a balance it debits and credits,
//! a device key, and the Eurosystem's certificate for that key.
//!
//! Every device is both payer and payee. Value received is spendable at once,
//! offline, and in any amount up to the balance, so paying 6 EUR out of 10 EUR
//! simply leaves 4 EUR on the element.
//!
//! Two rules keep value from being stranded between devices:
//!
//! * The payer's element runs every check that could make it refuse *before*
//!   it debits itself. A payment it will not complete costs nothing.
//! * The payee's element reserves room under its holding limit when it issues
//!   the request, not when the transfer arrives. By the time the payer has
//!   debited, the credit cannot fail.

use crate::certificate::{CertificateView, DeviceCertificate};
use crate::error::Error;
use crate::id::DeviceId;
use crate::message::{
    Defunding, DefundingView, Funding, FundingRequest, FundingRequestView, FundingView,
    PaymentRequest, PaymentRequestView, Transfer, TransferView,
};
use crate::natural::Natural;
use crate::signature::{Keypair, PublicKey, PublicKeyView};
use rand::rngs::StdRng;
use std::collections::{HashMap, HashSet};
use vstd::prelude::*;

verus! {

/// Whether the element still enforces its own rules.
///
/// The ECB design rests double-spending protection on tamper-resistant
/// hardware. `Cracked` models that protection failing: the attacker rolls the
/// balance back after every debit, so the element keeps paying out value it
/// no longer has. Counterparties cannot tell: the signatures are genuine.
#[derive(Clone, Copy, Debug, PartialEq, Eq, Structural)]
pub enum ElementState {
    Sealed,
    Cracked,
}

/// The state of an element as plain values.
pub struct WalletView {
    pub certificate: CertificateView,
    pub key: PublicKeyView,
    pub private_exponent: nat,
    pub issuer: PublicKeyView,
    pub balance: u64,
    /// Room reserved for payment requests not yet paid, by nonce.
    pub incoming: Map<u128, u64>,
    /// Room reserved for funding requests not yet answered, by nonce.
    pub pending_funding: Map<u128, u64>,
    /// Nonces already credited.
    pub credited: Set<u128>,
    pub counter: u64,
    pub state: ElementState,
}

impl WalletView {
    /// Value promised to the element but not yet credited.
    pub open spec fn reserved(self) -> nat {
        crate::totals::table_total(self.incoming) + crate::totals::table_total(self.pending_funding)
    }

    /// How much more the element could accept.
    pub open spec fn headroom(self) -> int {
        self.certificate.holding_limit_cents - self.balance - self.reserved()
    }

    /// What holds of every element at all times: the issuer has certified its
    /// key, and what it holds and has promised to accept stays within the
    /// holding limit.
    pub open spec fn well_formed(self) -> bool {
        &&& crate::certificate::certificate_valid(self.certificate, self.issuer)
        &&& self.certificate.public_key == self.key
        &&& self.incoming.dom().finite()
        &&& self.pending_funding.dom().finite()
        &&& self.balance + self.reserved() <= self.certificate.holding_limit_cents
    }

    /// The element has a modulus to sign with, and can count one more debit.
    pub open spec fn can_debit(self) -> bool {
        self.key.n > 0 && self.counter < u64::MAX
    }

    /// Why room for an amount is refused.
    pub open spec fn reservation_error(self, amount: u64) -> Option<Error> {
        if amount == 0 {
            Some(Error::ZeroAmount)
        } else if amount > self.headroom() {
            Some(
                Error::HoldingLimitExceeded {
                    requested: amount,
                    headroom: self.headroom() as u64,
                },
            )
        } else {
            None
        }
    }

    /// Why a debit is refused.
    pub open spec fn debit_error(self, amount: u64) -> Option<Error> {
        if amount == 0 {
            Some(Error::ZeroAmount)
        } else if amount > self.balance {
            Some(Error::InsufficientFunds { requested: amount, available: self.balance })
        } else {
            None
        }
    }

    /// The element after a debit. A cracked one keeps the value.
    pub open spec fn debited(self, amount: u64) -> WalletView {
        WalletView {
            balance: if self.state == ElementState::Sealed {
                (self.balance - amount) as u64
            } else {
                self.balance
            },
            counter: (self.counter + 1) as u64,
            ..self
        }
    }

    /// The element after a payment request is opened.
    pub open spec fn with_request(self, nonce: [u8; 16], amount: u64) -> WalletView {
        let incoming = self.incoming.insert(crate::bytes::block_key(nonce), amount);
        WalletView { incoming, ..self }
    }

    /// The element after a payment request is abandoned.
    pub open spec fn without_request(self, nonce: [u8; 16]) -> WalletView {
        WalletView { incoming: self.incoming.remove(crate::bytes::block_key(nonce)), ..self }
    }

    /// The element after a funding request is opened.
    pub open spec fn with_funding(self, nonce: [u8; 16], amount: u64) -> WalletView {
        let pending_funding = self.pending_funding.insert(crate::bytes::block_key(nonce), amount);
        WalletView { pending_funding, ..self }
    }

    /// The element after a funding request is abandoned.
    pub open spec fn without_funding(self, nonce: [u8; 16]) -> WalletView {
        let pending_funding = self.pending_funding.remove(crate::bytes::block_key(nonce));
        WalletView { pending_funding, ..self }
    }

    /// The request that asks for an amount under a nonce.
    pub open spec fn request_for(self, nonce: [u8; 16], amount: u64) -> PaymentRequestView {
        PaymentRequestView { payee: self.certificate, amount_cents: amount, nonce }
    }

    /// Why a payment is refused.
    pub open spec fn pay_error(self, request: PaymentRequestView) -> Option<Error> {
        self.pay_verdict(
            request,
            crate::certificate::certificate_valid(request.payee, self.issuer),
        )
    }

    /// Why a payment is refused, given whether the payee is certified.
    pub open spec fn pay_verdict(self, request: PaymentRequestView, certified: bool) -> Option<
        Error,
    > {
        if !certified {
            Some(Error::InvalidCertificate)
        } else if request.payee.device == self.certificate.device {
            Some(Error::SelfPayment)
        } else {
            self.debit_error(request.amount_cents)
        }
    }

    /// A payment of this amount to this element would go through, and debit this
    /// one.
    pub open spec fn pays(self, payee: WalletView, amount: u64) -> bool {
        &&& payee.reservation_error(amount) is None
        &&& crate::certificate::certificate_valid(payee.certificate, self.issuer)
        &&& payee.certificate.device != self.certificate.device
        &&& self.debit_error(amount) is None
    }

    /// The transfer that answers a request.
    pub open spec fn transfer_for(self, request: PaymentRequestView) -> TransferView {
        let counter = (self.counter + 1) as u64;
        TransferView {
            payer: self.certificate,
            payee: request.payee.device,
            amount_cents: request.amount_cents,
            nonce: request.nonce,
            counter,
            signature: crate::signature::signature_value(
                self.key.n,
                self.private_exponent,
                crate::message::transfer_digest(
                    self.certificate.device,
                    request.payee.device,
                    request.amount_cents,
                    request.nonce@,
                    counter,
                ),
            ),
        }
    }

    /// Why a transfer is not credited.
    pub open spec fn receive_error(self, transfer: TransferView) -> Option<Error> {
        self.receive_verdict(
            transfer,
            crate::certificate::certificate_valid(transfer.payer, self.issuer),
            crate::signature::signature_valid(
                transfer.payer.public_key,
                crate::message::transfer_digest(
                    transfer.payer.device,
                    transfer.payee,
                    transfer.amount_cents,
                    transfer.nonce@,
                    transfer.counter,
                ),
                transfer.signature,
            ),
        )
    }

    /// Why a transfer is not credited, given whether the payer is certified and
    /// has signed it.
    pub open spec fn receive_verdict(
        self,
        transfer: TransferView,
        certified: bool,
        signed: bool,
    ) -> Option<Error> {
        let key = crate::bytes::block_key(transfer.nonce);
        if transfer.payee != self.certificate.device {
            Some(Error::NotForThisDevice)
        } else if !certified {
            Some(Error::InvalidCertificate)
        } else if !signed {
            Some(Error::InvalidSignature)
        } else if self.credited.contains(key) {
            Some(Error::AlreadyCredited)
        } else if !self.incoming.contains_key(key) {
            Some(Error::UnknownRequest)
        } else if transfer.amount_cents != self.incoming[key] {
            Some(
                Error::AmountMismatch {
                    expected: self.incoming[key],
                    found: transfer.amount_cents,
                },
            )
        } else {
            None
        }
    }

    /// The element after a transfer is credited.
    pub open spec fn received(self, transfer: TransferView) -> WalletView {
        let key = crate::bytes::block_key(transfer.nonce);
        WalletView {
            balance: (self.balance + transfer.amount_cents) as u64,
            incoming: self.incoming.remove(key),
            credited: self.credited.insert(key),
            ..self
        }
    }

    /// The funding request for an amount under a nonce.
    pub open spec fn funding_for(self, nonce: [u8; 16], amount: u64) -> FundingRequestView {
        FundingRequestView {
            device: self.certificate.device,
            amount_cents: amount,
            nonce,
            signature: crate::signature::signature_value(
                self.key.n,
                self.private_exponent,
                crate::message::funding_request_digest(self.certificate.device, amount, nonce@),
            ),
        }
    }

    /// Why a funding message is not credited.
    pub open spec fn funding_error(self, funding: FundingView) -> Option<Error> {
        self.funding_verdict(
            funding,
            crate::signature::signature_valid(
                self.issuer,
                crate::message::funding_digest(
                    funding.device,
                    funding.amount_cents,
                    funding.nonce@,
                ),
                funding.signature,
            ),
        )
    }

    /// Why a funding message is not credited, given whether the issuer has signed
    /// it.
    pub open spec fn funding_verdict(self, funding: FundingView, signed: bool) -> Option<Error> {
        let key = crate::bytes::block_key(funding.nonce);
        if funding.device != self.certificate.device {
            Some(Error::NotForThisDevice)
        } else if !signed {
            Some(Error::InvalidSignature)
        } else if self.credited.contains(key) {
            Some(Error::AlreadyCredited)
        } else if !self.pending_funding.contains_key(key) {
            Some(Error::UnknownRequest)
        } else if funding.amount_cents != self.pending_funding[key] {
            Some(
                Error::AmountMismatch {
                    expected: self.pending_funding[key],
                    found: funding.amount_cents,
                },
            )
        } else {
            None
        }
    }

    /// The element after a funding message is credited.
    pub open spec fn funded(self, funding: FundingView) -> WalletView {
        let key = crate::bytes::block_key(funding.nonce);
        WalletView {
            balance: (self.balance + funding.amount_cents) as u64,
            pending_funding: self.pending_funding.remove(key),
            credited: self.credited.insert(key),
            ..self
        }
    }

    /// The order to credit the online account with an amount.
    pub open spec fn order_for(self, amount: u64) -> DefundingView {
        let counter = (self.counter + 1) as u64;
        DefundingView {
            device: self.certificate.device,
            amount_cents: amount,
            counter,
            signature: crate::signature::signature_value(
                self.key.n,
                self.private_exponent,
                crate::message::defunding_digest(self.certificate.device, amount, counter),
            ),
        }
    }
}

pub struct Wallet {
    certificate: DeviceCertificate,
    keypair: Keypair,
    issuer: PublicKey,
    balance_cents: u64,
    incoming: HashMap<u128, u64>,
    pending_funding: HashMap<u128, u64>,
    credited: HashSet<u128>,
    counter: u64,
    state: ElementState,
    rng: StdRng,
}

impl View for Wallet {
    type V = WalletView;

    closed spec fn view(&self) -> WalletView {
        WalletView {
            certificate: self.certificate@,
            key: self.keypair.verification_key(),
            private_exponent: self.keypair.private_exponent(),
            issuer: self.issuer@,
            balance: self.balance_cents,
            incoming: self.incoming@,
            pending_funding: self.pending_funding@,
            credited: self.credited@,
            counter: self.counter,
            state: self.state,
        }
    }
}

impl Wallet {
    /// Installs a certified key on a fresh element.
    pub fn new(
        certificate: DeviceCertificate,
        keypair: Keypair,
        issuer: PublicKey,
        rng: StdRng,
    ) -> (r: Result<Self, Error>)
        ensures
            r is Ok <==> crate::certificate::certificate_valid(certificate@, issuer@)
                && certificate@.public_key == keypair.verification_key(),
            r matches Ok(wallet) ==> wallet@ == (WalletView {
                certificate: certificate@,
                key: keypair.verification_key(),
                private_exponent: keypair.private_exponent(),
                issuer: issuer@,
                balance: 0,
                incoming: Map::empty(),
                pending_funding: Map::empty(),
                credited: Set::empty(),
                counter: 0,
                state: ElementState::Sealed,
            }),
            r matches Ok(wallet) ==> wallet@.well_formed(),
            r matches Err(error) ==> error == Error::InvalidCertificate,
    {
        if !certificate.verify(&issuer) || !certificate.public_key.equals(keypair.public_key()) {
            return Err(Error::InvalidCertificate);
        }
        Ok(
            Wallet {
                certificate,
                keypair,
                issuer,
                balance_cents: 0,
                incoming: HashMap::new(),
                pending_funding: HashMap::new(),
                credited: HashSet::new(),
                counter: 0,
                state: ElementState::Sealed,
                rng,
            },
        )
    }

    pub fn device(&self) -> (r: DeviceId)
        ensures
            r == self@.certificate.device,
    {
        self.certificate.device
    }

    pub fn certificate(&self) -> (r: &DeviceCertificate)
        ensures
            r@ == self@.certificate,
    {
        &self.certificate
    }

    pub fn balance(&self) -> (r: u64)
        ensures
            r == self@.balance,
    {
        self.balance_cents
    }

    pub fn holding_limit(&self) -> (r: u64)
        ensures
            r == self@.certificate.holding_limit_cents,
    {
        self.certificate.holding_limit_cents
    }

    /// Value promised to the element but not yet credited.
    pub fn reserved(&self) -> (r: u64)
        requires
            self@.reserved() <= u64::MAX,
        ensures
            r == self@.reserved(),
    {
        crate::totals::total(&self.incoming) + crate::totals::total(&self.pending_funding)
    }

    /// How much more the element could accept right now.
    pub fn headroom(&self) -> (r: u64)
        requires
            self@.well_formed(),
        ensures
            r == self@.headroom(),
    {
        self.holding_limit().saturating_sub(self.balance_cents).saturating_sub(self.reserved())
    }

    pub fn state(&self) -> (r: ElementState)
        ensures
            r == self@.state,
    {
        self.state
    }

    /// Whether the element has a key to sign with and can count another debit.
    pub fn can_debit(&self) -> (r: bool)
        ensures
            r == self@.can_debit(),
    {
        !self.keypair.public_key().n.is_zero() && self.counter < u64::MAX
    }

    /// Whether a payment of this amount to another element would debit this one.
    pub fn would_pay(&self, payee: &Wallet, amount_cents: u64) -> (r: bool)
        requires
            payee@.well_formed(),
        ensures
            r == self@.pays(payee@, amount_cents),
    {
        let room: u64 = payee.headroom();
        amount_cents != 0 && amount_cents <= room && amount_cents <= self.balance_cents
            && !payee.device().equals(&self.device()) && payee.certificate.verify(&self.issuer)
    }

    /// Simulates a hardware attack that defeats the element's balance
    /// bookkeeping.
    pub fn crack_secure_element(&mut self)
        requires
            old(self)@.well_formed(),
        ensures
            final(self)@ == (WalletView { state: ElementState::Cracked, ..old(self)@ }),
            final(self)@.well_formed(),
    {
        self.state = ElementState::Cracked;
    }
}

impl Wallet {
    /// Checks that there is room for an amount, and draws a nonce for it.
    fn reserve(&mut self, amount_cents: u64) -> (r: Result<[u8; 16], Error>)
        requires
            old(self)@.well_formed(),
        ensures
            final(self)@ == old(self)@,
            final(self)@.well_formed(),
            r is Ok <==> old(self)@.reservation_error(amount_cents) is None,
            r matches Err(error) ==> old(self)@.reservation_error(amount_cents) == Some(error),
    {
        if amount_cents == 0 {
            return Err(Error::ZeroAmount);
        }
        let headroom: u64 = self.headroom();
        if amount_cents > headroom {
            return Err(Error::HoldingLimitExceeded { requested: amount_cents, headroom });
        }
        Ok(crate::random::draw_nonce(&mut self.rng))
    }

    /// Debits the element. A cracked element signs as if it had, and keeps
    /// the value.
    fn debit(&mut self, amount_cents: u64) -> (r: Result<u64, Error>)
        requires
            old(self)@.well_formed(),
            old(self)@.debit_error(amount_cents) is None ==> old(self)@.counter < u64::MAX,
        ensures
            match r {
                Ok(counter) => {
                    &&& old(self)@.debit_error(amount_cents) is None
                    &&& final(self)@ == old(self)@.debited(amount_cents)
                    &&& counter == old(self)@.counter + 1
                },
                Err(error) => {
                    &&& old(self)@.debit_error(amount_cents) == Some(error)
                    &&& final(self)@ == old(self)@
                },
            },
            final(self)@.well_formed(),
    {
        if let Some(error) = self.judge_debit(amount_cents) {
            return Err(error);
        }
        if self.state == ElementState::Sealed {
            self.balance_cents = self.balance_cents - amount_cents;
        }
        self.counter = self.counter + 1;
        Ok(self.counter)
    }

    // As payee.

    /// Opens a payment request under a nonce, reserving room for the amount.
    pub fn open_request(&mut self, amount_cents: u64, nonce: [u8; 16]) -> (r: PaymentRequest)
        requires
            old(self)@.well_formed(),
            old(self)@.reservation_error(amount_cents) is None,
        ensures
            r@ == old(self)@.request_for(nonce, amount_cents),
            final(self)@ == old(self)@.with_request(nonce, amount_cents),
            final(self)@.well_formed(),
    {
        proof {
            crate::totals::lemma_total_insert(
                self.incoming@,
                crate::bytes::block_key(nonce),
                amount_cents,
            );
        }
        self.incoming.insert(crate::bytes::u128_from_be_bytes(&nonce), amount_cents);
        PaymentRequest { payee: self.certificate.clone(), amount_cents, nonce }
    }

    /// Opens a payment request, reserving room for the amount.
    pub fn request_payment(&mut self, amount_cents: u64) -> (r: Result<PaymentRequest, Error>)
        requires
            old(self)@.well_formed(),
        ensures
            match r {
                Ok(request) => {
                    &&& old(self)@.reservation_error(amount_cents) is None
                    &&& request@ == old(self)@.request_for(request@.nonce, amount_cents)
                    &&& final(self)@ == old(self)@.with_request(request@.nonce, amount_cents)
                },
                Err(error) => {
                    &&& old(self)@.reservation_error(amount_cents) == Some(error)
                    &&& final(self)@ == old(self)@
                },
            },
            final(self)@.well_formed(),
    {
        match self.reserve(amount_cents) {
            Ok(nonce) => Ok(self.open_request(amount_cents, nonce)),
            Err(error) => Err(error),
        }
    }

    /// Abandons an unpaid request and releases its reservation.
    pub fn cancel_request(&mut self, nonce: &[u8; 16]) -> (r: bool)
        requires
            old(self)@.well_formed(),
        ensures
            r == old(self)@.incoming.contains_key(crate::bytes::block_key(*nonce)),
            final(self)@ == old(self)@.without_request(*nonce),
            final(self)@.well_formed(),
    {
        proof {
            if self.incoming@.contains_key(crate::bytes::block_key(*nonce)) {
                crate::totals::lemma_total_remove(self.incoming@, crate::bytes::block_key(*nonce));
            } else {
                assert(self.incoming@.remove(crate::bytes::block_key(*nonce)) =~= self.incoming@);
            }
        }
        self.incoming.remove(&crate::bytes::u128_from_be_bytes(nonce)).is_some()
    }

    /// Decides on a transfer, given whether the payer is certified and has signed
    /// it.
    pub fn judge_transfer(&self, transfer: &Transfer, certified: bool, signed: bool) -> (r: Option<
        Error,
    >)
        ensures
            r == self@.receive_verdict(transfer@, certified, signed),
    {
        if !transfer.payee.equals(&self.device()) {
            return Some(Error::NotForThisDevice);
        }
        if !certified {
            return Some(Error::InvalidCertificate);
        }
        if !signed {
            return Some(Error::InvalidSignature);
        }
        let key: u128 = crate::bytes::u128_from_be_bytes(&transfer.nonce);
        if self.credited.contains(&key) {
            return Some(Error::AlreadyCredited);
        }
        match self.incoming.get(&key) {
            Some(expected) => {
                if transfer.amount_cents != *expected {
                    Some(
                        Error::AmountMismatch {
                            expected: *expected,
                            found: transfer.amount_cents,
                        },
                    )
                } else {
                    None
                }
            },
            None => Some(Error::UnknownRequest),
        }
    }

    /// Verifies and credits a transfer. Returns the amount credited.
    pub fn receive(&mut self, transfer: &Transfer) -> (r: Result<u64, Error>)
        requires
            old(self)@.well_formed(),
        ensures
            match r {
                Ok(amount) => {
                    &&& old(self)@.receive_error(transfer@) is None
                    &&& final(self)@ == old(self)@.received(transfer@)
                    &&& amount == transfer.amount_cents
                },
                Err(error) => {
                    &&& old(self)@.receive_error(transfer@) == Some(error)
                    &&& final(self)@ == old(self)@
                },
            },
            final(self)@.well_formed(),
    {
        let certified: bool = transfer.payer.verify(&self.issuer);
        let signed: bool = transfer.payer.public_key.verify(
            &transfer.digest(),
            &transfer.signature,
        );
        if let Some(error) = self.judge_transfer(transfer, certified, signed) {
            return Err(error);
        }
        let key: u128 = crate::bytes::u128_from_be_bytes(&transfer.nonce);
        proof {
            crate::totals::lemma_total_remove(self.incoming@, key);
        }
        self.incoming.remove(&key);
        self.credited.insert(key);
        // Room was reserved when the request was issued, so this stays
        // within the holding limit.
        self.balance_cents = self.balance_cents + transfer.amount_cents;
        Ok(transfer.amount_cents)
    }

    // As payer.

    /// Decides on a debit.
    pub fn judge_debit(&self, amount_cents: u64) -> (r: Option<Error>)
        ensures
            r == self@.debit_error(amount_cents),
    {
        if amount_cents == 0 {
            return Some(Error::ZeroAmount);
        }
        if amount_cents > self.balance_cents {
            return Some(
                Error::InsufficientFunds {
                    requested: amount_cents,
                    available: self.balance_cents,
                },
            );
        }
        None
    }

    /// Decides on a payment request, given whether the payee is certified.
    pub fn judge_request(&self, request: &PaymentRequest, certified: bool) -> (r: Option<Error>)
        ensures
            r == self@.pay_verdict(request@, certified),
    {
        if !certified {
            return Some(Error::InvalidCertificate);
        }
        if request.payee.device.equals(&self.device()) {
            return Some(Error::SelfPayment);
        }
        self.judge_debit(request.amount_cents)
    }

    /// Pays a request out of the balance.
    ///
    /// Everything that could make the payment fail is checked first; only
    /// then is the element debited and the transfer signed.
    pub fn pay(&mut self, request: &PaymentRequest) -> (r: Result<Transfer, Error>)
        requires
            old(self)@.well_formed(),
            old(self)@.pay_error(request@) is None ==> old(self)@.can_debit(),
        ensures
            match r {
                Ok(transfer) => {
                    &&& old(self)@.pay_error(request@) is None
                    &&& transfer@ == old(self)@.transfer_for(request@)
                    &&& final(self)@ == old(self)@.debited(request.amount_cents)
                },
                Err(error) => {
                    &&& old(self)@.pay_error(request@) == Some(error)
                    &&& final(self)@ == old(self)@
                },
            },
            final(self)@.well_formed(),
    {
        let certified: bool = request.payee.verify(&self.issuer);
        if let Some(error) = self.judge_request(request, certified) {
            return Err(error);
        }
        let counter: u64 = match self.debit(request.amount_cents) {
            Ok(counter) => counter,
            Err(error) => {
                return Err(error);
            },
        };
        let mut transfer = Transfer {
            payer: self.certificate.clone(),
            payee: request.payee.device,
            amount_cents: request.amount_cents,
            nonce: request.nonce,
            counter,
            signature: Natural::zero(),
        };
        transfer.signature = self.keypair.sign(&transfer.digest());
        Ok(transfer)
    }

    // Funding and defunding.

    /// Opens a funding request under a nonce, reserving room for the amount.
    pub fn open_funding(&mut self, amount_cents: u64, nonce: [u8; 16]) -> (r: FundingRequest)
        requires
            old(self)@.well_formed(),
            old(self)@.reservation_error(amount_cents) is None,
            old(self)@.key.n > 0,
        ensures
            r@ == old(self)@.funding_for(nonce, amount_cents),
            final(self)@ == old(self)@.with_funding(nonce, amount_cents),
            final(self)@.well_formed(),
    {
        proof {
            crate::totals::lemma_total_insert(
                self.pending_funding@,
                crate::bytes::block_key(nonce),
                amount_cents,
            );
        }
        self.pending_funding.insert(crate::bytes::u128_from_be_bytes(&nonce), amount_cents);
        let mut request = FundingRequest {
            device: self.device(),
            amount_cents,
            nonce,
            signature: Natural::zero(),
        };
        request.signature = self.keypair.sign(&request.digest());
        request
    }

    /// Asks the issuer to move value from the online account onto the
    /// element, reserving room for it first.
    pub fn request_funding(&mut self, amount_cents: u64) -> (r: Result<FundingRequest, Error>)
        requires
            old(self)@.well_formed(),
            old(self)@.reservation_error(amount_cents) is None ==> old(self)@.key.n > 0,
        ensures
            match r {
                Ok(request) => {
                    &&& old(self)@.reservation_error(amount_cents) is None
                    &&& request@ == old(self)@.funding_for(request@.nonce, amount_cents)
                    &&& final(self)@ == old(self)@.with_funding(request@.nonce, amount_cents)
                },
                Err(error) => {
                    &&& old(self)@.reservation_error(amount_cents) == Some(error)
                    &&& final(self)@ == old(self)@
                },
            },
            final(self)@.well_formed(),
    {
        match self.reserve(amount_cents) {
            Ok(nonce) => Ok(self.open_funding(amount_cents, nonce)),
            Err(error) => Err(error),
        }
    }

    /// Abandons a funding request the issuer refused.
    pub fn cancel_funding(&mut self, nonce: &[u8; 16]) -> (r: bool)
        requires
            old(self)@.well_formed(),
        ensures
            r == old(self)@.pending_funding.contains_key(crate::bytes::block_key(*nonce)),
            final(self)@ == old(self)@.without_funding(*nonce),
            final(self)@.well_formed(),
    {
        proof {
            if self.pending_funding@.contains_key(crate::bytes::block_key(*nonce)) {
                crate::totals::lemma_total_remove(
                    self.pending_funding@,
                    crate::bytes::block_key(*nonce),
                );
            } else {
                assert(
                    self.pending_funding@.remove(
                        crate::bytes::block_key(*nonce),
                    ) =~= self.pending_funding@
                );
            }
        }
        self.pending_funding.remove(&crate::bytes::u128_from_be_bytes(nonce)).is_some()
    }

    /// Decides on a funding message, given whether the issuer has signed it.
    pub fn judge_funding(&self, funding: &Funding, signed: bool) -> (r: Option<Error>)
        ensures
            r == self@.funding_verdict(funding@, signed),
    {
        if !funding.device.equals(&self.device()) {
            return Some(Error::NotForThisDevice);
        }
        if !signed {
            return Some(Error::InvalidSignature);
        }
        let key: u128 = crate::bytes::u128_from_be_bytes(&funding.nonce);
        if self.credited.contains(&key) {
            return Some(Error::AlreadyCredited);
        }
        match self.pending_funding.get(&key) {
            Some(expected) => {
                if funding.amount_cents != *expected {
                    Some(
                        Error::AmountMismatch {
                            expected: *expected,
                            found: funding.amount_cents,
                        },
                    )
                } else {
                    None
                }
            },
            None => Some(Error::UnknownRequest),
        }
    }

    /// Credits the element with value the issuer has debited from the account.
    pub fn apply_funding(&mut self, funding: &Funding) -> (r: Result<u64, Error>)
        requires
            old(self)@.well_formed(),
        ensures
            match r {
                Ok(amount) => {
                    &&& old(self)@.funding_error(funding@) is None
                    &&& final(self)@ == old(self)@.funded(funding@)
                    &&& amount == funding.amount_cents
                },
                Err(error) => {
                    &&& old(self)@.funding_error(funding@) == Some(error)
                    &&& final(self)@ == old(self)@
                },
            },
            final(self)@.well_formed(),
    {
        let signed: bool = self.issuer.verify(&funding.digest(), &funding.signature);
        if let Some(error) = self.judge_funding(funding, signed) {
            return Err(error);
        }
        let key: u128 = crate::bytes::u128_from_be_bytes(&funding.nonce);
        proof {
            crate::totals::lemma_total_remove(self.pending_funding@, key);
        }
        self.pending_funding.remove(&key);
        self.credited.insert(key);
        self.balance_cents = self.balance_cents + funding.amount_cents;
        Ok(funding.amount_cents)
    }

    /// Debits the element and signs an order to credit the online account.
    pub fn defund(&mut self, amount_cents: u64) -> (r: Result<Defunding, Error>)
        requires
            old(self)@.well_formed(),
            old(self)@.debit_error(amount_cents) is None ==> old(self)@.can_debit(),
        ensures
            match r {
                Ok(order) => {
                    &&& old(self)@.debit_error(amount_cents) is None
                    &&& order@ == old(self)@.order_for(amount_cents)
                    &&& final(self)@ == old(self)@.debited(amount_cents)
                },
                Err(error) => {
                    &&& old(self)@.debit_error(amount_cents) == Some(error)
                    &&& final(self)@ == old(self)@
                },
            },
            final(self)@.well_formed(),
    {
        let counter: u64 = match self.debit(amount_cents) {
            Ok(counter) => counter,
            Err(error) => {
                return Err(error);
            },
        };
        let mut defunding = Defunding {
            device: self.device(),
            amount_cents,
            counter,
            signature: Natural::zero(),
        };
        defunding.signature = self.keypair.sign(&defunding.digest());
        Ok(defunding)
    }
}

// ---------------------------------------------------------------------------
// What holds across calls
// ---------------------------------------------------------------------------

/// By the time the payer has debited, the credit cannot fail: a transfer that
/// answers an open request of a payee of the same issuer is credited, whatever else
/// the payee has done in between. The amount moves from what was reserved to the
/// balance, within the holding limit, and the headroom stays as it was.
pub proof fn lemma_paid_transfer_is_credited(
    payer: WalletView,
    payee: WalletView,
    request: PaymentRequestView,
)
    requires
        payer.well_formed(),
        payee.well_formed(),
        payer.issuer == payee.issuer,
        crate::signature::sound_key(payer.key, payer.private_exponent),
        payer.pay_error(request) is None,
        request.payee.device == payee.certificate.device,
        payee.incoming.contains_key(crate::bytes::block_key(request.nonce)),
        payee.incoming[crate::bytes::block_key(request.nonce)] == request.amount_cents,
        !payee.credited.contains(crate::bytes::block_key(request.nonce)),
    ensures
        payee.receive_error(payer.transfer_for(request)) is None,
        ({
            let after = payee.received(payer.transfer_for(request));
            &&& after.balance == payee.balance + request.amount_cents
            &&& after.balance <= payee.certificate.holding_limit_cents
            &&& after.reserved() == payee.reserved() - request.amount_cents
            &&& after.headroom() == payee.headroom()
        }),
{
    lemma_transfer_is_signed(payer, request);
    crate::totals::lemma_total_remove(
        payee.incoming,
        crate::bytes::block_key(request.nonce),
    );
}

/// A transfer answers its request, counts one debit more than the element had, and
/// verifies under the key in its certificate. The element is debited by the amount
/// if it is sealed, and what it has promised to accept stays as it was.
pub proof fn lemma_transfer_is_signed(wallet: WalletView, request: PaymentRequestView)
    requires
        wallet.well_formed(),
        crate::signature::sound_key(wallet.key, wallet.private_exponent),
        wallet.pay_error(request) is None,
    ensures
        ({
            let transfer = wallet.transfer_for(request);
            let after = wallet.debited(request.amount_cents);
            &&& transfer.payer == wallet.certificate
            &&& transfer.payee == request.payee.device
            &&& transfer.amount_cents == request.amount_cents
            &&& transfer.nonce == request.nonce
            &&& transfer.counter == after.counter
            &&& crate::signature::signature_valid(
                wallet.certificate.public_key,
                crate::message::transfer_digest(
                    transfer.payer.device,
                    transfer.payee,
                    transfer.amount_cents,
                    transfer.nonce@,
                    transfer.counter,
                ),
                transfer.signature,
            )
            &&& after.balance == if wallet.state == ElementState::Sealed {
                wallet.balance - request.amount_cents
            } else {
                wallet.balance as int
            }
            &&& after.reserved() == wallet.reserved()
            &&& wallet.can_debit() ==> after.counter == wallet.counter + 1
        }),
{
    let transfer = wallet.transfer_for(request);
    crate::signature::lemma_signature_verifies(
        wallet.key,
        wallet.private_exponent,
        crate::message::transfer_digest(
            transfer.payer.device,
            transfer.payee,
            transfer.amount_cents,
            transfer.nonce@,
            transfer.counter,
        ),
    );
}

/// A defunding order is given exactly for a positive amount within the balance,
/// counts one debit more than the element had, so more than every message that it
/// signed before, and verifies under the element's key.
pub proof fn lemma_order_is_signed(wallet: WalletView, amount: u64)
    requires
        crate::signature::sound_key(wallet.key, wallet.private_exponent),
    ensures
        wallet.debit_error(amount) is None <==> 0 < amount <= wallet.balance,
        ({
            let order = wallet.order_for(amount);
            let after = wallet.debited(amount);
            &&& order.device == wallet.certificate.device
            &&& order.amount_cents == amount
            &&& order.counter == after.counter
            &&& crate::signature::signature_valid(
                wallet.key,
                crate::message::defunding_digest(order.device, order.amount_cents, order.counter),
                order.signature,
            )
            &&& wallet.debit_error(amount) is None ==> after.balance == if wallet.state
                == ElementState::Sealed {
                wallet.balance - amount
            } else {
                wallet.balance as int
            }
            &&& wallet.can_debit() ==> after.counter == wallet.counter + 1
        }),
{
    let order = wallet.order_for(amount);
    crate::signature::lemma_signature_verifies(
        wallet.key,
        wallet.private_exponent,
        crate::message::defunding_digest(order.device, order.amount_cents, order.counter),
    );
}

/// A payment moves value and makes none: what a sealed payer loses is what the
/// payee gains.
pub proof fn lemma_payment_conserves_value(
    payer: WalletView,
    payee: WalletView,
    request: PaymentRequestView,
)
    requires
        payer.well_formed(),
        payee.well_formed(),
        payer.state == ElementState::Sealed,
        payer.pay_error(request) is None,
        payee.receive_error(payer.transfer_for(request)) is None,
    ensures
        payer.debited(request.amount_cents).balance + payee.received(
            payer.transfer_for(request),
        ).balance == payer.balance + payee.balance,
{
    crate::totals::lemma_total_remove(payee.incoming, crate::bytes::block_key(request.nonce));
}

/// A cracked payer keeps its balance, so the payee's gain is made from nothing.
pub proof fn lemma_cracked_payment_creates_value(
    payer: WalletView,
    payee: WalletView,
    request: PaymentRequestView,
)
    requires
        payer.well_formed(),
        payee.well_formed(),
        payer.state == ElementState::Cracked,
        payer.pay_error(request) is None,
        payee.receive_error(payer.transfer_for(request)) is None,
    ensures
        payer.debited(request.amount_cents).balance + payee.received(
            payer.transfer_for(request),
        ).balance == payer.balance + payee.balance + request.amount_cents,
{
    crate::totals::lemma_total_remove(payee.incoming, crate::bytes::block_key(request.nonce));
}

/// Nobody offline can tell a cracked element from a sealed one: its transfers
/// are the same.
pub proof fn lemma_cracked_transfers_are_genuine(wallet: WalletView, request: PaymentRequestView)
    ensures
        ({
            let cracked = WalletView { state: ElementState::Cracked, ..wallet };
            &&& cracked.pay_error(request) == wallet.pay_error(request)
            &&& cracked.transfer_for(request) == wallet.transfer_for(request)
        }),
{
}

/// A transfer is credited once: whatever the element does after crediting it,
/// as long as it forgets no nonce, the same transfer is refused.
pub proof fn lemma_replayed_transfer_is_refused(
    before: WalletView,
    after: WalletView,
    transfer: TransferView,
)
    requires
        before.receive_error(transfer) is None,
        before.received(transfer).credited.subset_of(after.credited),
        after.certificate == before.certificate,
        after.issuer == before.issuer,
    ensures
        after.receive_error(transfer) == Some(Error::AlreadyCredited),
{
    assert(before.received(transfer).credited.contains(crate::bytes::block_key(transfer.nonce)));
}

/// A funding message is credited once, in the same way.
pub proof fn lemma_replayed_funding_is_refused(
    before: WalletView,
    after: WalletView,
    funding: FundingView,
)
    requires
        before.funding_error(funding) is None,
        before.funded(funding).credited.subset_of(after.credited),
        after.certificate == before.certificate,
        after.issuer == before.issuer,
    ensures
        after.funding_error(funding) == Some(Error::AlreadyCredited),
{
    assert(before.funded(funding).credited.contains(crate::bytes::block_key(funding.nonce)));
}

/// Abandoning a request that was opened under an unused nonce leaves the element
/// as it was.
pub proof fn lemma_cancelled_request_leaves_no_trace(
    wallet: WalletView,
    nonce: [u8; 16],
    amount: u64,
)
    ensures
        !wallet.incoming.contains_key(crate::bytes::block_key(nonce)) ==> wallet.with_request(
            nonce,
            amount,
        ).without_request(nonce) == wallet,
        !wallet.pending_funding.contains_key(
            crate::bytes::block_key(nonce),
        ) ==> wallet.with_funding(
            nonce,
            amount,
        ).without_funding(nonce) == wallet,
{
    if !wallet.incoming.contains_key(crate::bytes::block_key(nonce)) {
        assert(wallet.with_request(nonce, amount).without_request(nonce).incoming
            =~= wallet.incoming);
    }
    if !wallet.pending_funding.contains_key(crate::bytes::block_key(nonce)) {
        assert(wallet.with_funding(nonce, amount).without_funding(nonce).pending_funding
            =~= wallet.pending_funding);
    }
}

/// A payment for a request that the payee has abandoned is not credited, and the
/// payer's debit is not undone.
pub proof fn lemma_abandoned_request_is_not_credited(
    payer: WalletView,
    payee: WalletView,
    request: PaymentRequestView,
)
    requires
        payer.well_formed(),
        payer.issuer == payee.issuer,
        crate::signature::sound_key(payer.key, payer.private_exponent),
        payer.pay_error(request) is None,
        request.payee.device == payee.certificate.device,
        !payee.credited.contains(crate::bytes::block_key(request.nonce)),
    ensures
        payee.without_request(request.nonce).receive_error(payer.transfer_for(request)) == Some(
            Error::UnknownRequest,
        ),
        payer.state == ElementState::Sealed ==> payer.debited(request.amount_cents).balance
            == payer.balance - request.amount_cents,
{
    lemma_transfer_is_signed(payer, request);
}

/// A transfer that answers a request is for the device that asked, and for no
/// other.
pub proof fn lemma_transfer_is_for_one_device(
    payer: WalletView,
    other: WalletView,
    request: PaymentRequestView,
)
    requires
        other.certificate.device != request.payee.device,
    ensures
        other.receive_error(payer.transfer_for(request)) == Some(Error::NotForThisDevice),
{
}

/// An open request takes up exactly its amount of the headroom.
pub proof fn lemma_open_request_takes_room(wallet: WalletView, nonce: [u8; 16], amount: u64)
    requires
        wallet.well_formed(),
        !wallet.incoming.contains_key(crate::bytes::block_key(nonce)),
    ensures
        wallet.with_request(nonce, amount).headroom() == wallet.headroom() - amount,
{
    crate::totals::lemma_total_insert(wallet.incoming, crate::bytes::block_key(nonce), amount);
}

// ---------------------------------------------------------------------------
// When an element refuses, and what it does when it does not
// ---------------------------------------------------------------------------

/// An element holds, and has promised to accept, no more than its certificate allows; what
/// is left of the limit is its headroom. An element without open requests has promised
/// nothing.
pub proof fn lemma_element_stays_within_its_limit(wallet: WalletView)
    ensures
        wallet.headroom() + wallet.balance + wallet.reserved()
            == wallet.certificate.holding_limit_cents,
        wallet.reserved() == crate::totals::table_total(wallet.incoming)
            + crate::totals::table_total(wallet.pending_funding),
        wallet.well_formed() ==> {
            &&& wallet.balance + wallet.reserved() <= wallet.certificate.holding_limit_cents
            &&& wallet.balance <= wallet.certificate.holding_limit_cents
            &&& 0 <= wallet.headroom() <= wallet.certificate.holding_limit_cents
            &&& crate::certificate::certificate_valid(wallet.certificate, wallet.issuer)
            &&& wallet.certificate.public_key == wallet.key
        },
        wallet.incoming == Map::<u128, u64>::empty() && wallet.pending_funding == Map::<
            u128,
            u64,
        >::empty() ==> wallet.reserved() == 0,
{
}

/// Room for an amount is refused exactly if the amount is zero, or does not fit under the
/// holding limit beside what the element holds and has promised to accept.
pub proof fn lemma_room_is_refused_only_over_the_limit(wallet: WalletView, amount: u64)
    requires
        wallet.well_formed(),
    ensures
        ({
            let limit = wallet.certificate.holding_limit_cents;
            let taken = wallet.balance + wallet.reserved();
            let error = wallet.reservation_error(amount);
            &&& error is None <==> 0 < amount && taken + amount <= limit
            &&& error == Some(Error::ZeroAmount) <==> amount == 0
            &&& error == Some(
                Error::HoldingLimitExceeded {
                    requested: amount,
                    headroom: (limit - taken) as u64,
                },
            ) <==> amount > 0 && taken + amount > limit
        }),
{
}

/// A debit is refused exactly if the amount is zero, or more than the balance: all of it can
/// be paid out.
pub proof fn lemma_debit_is_refused_only_beyond_the_balance(wallet: WalletView, amount: u64)
    ensures
        wallet.debit_error(amount) is None <==> 0 < amount <= wallet.balance,
        wallet.debit_error(amount) == Some(Error::ZeroAmount) <==> amount == 0,
        wallet.debit_error(amount) == Some(
            Error::InsufficientFunds { requested: amount, available: wallet.balance },
        ) <==> amount > wallet.balance,
{
}

/// A debit takes exactly the amount from a sealed element and nothing from a cracked one,
/// counts one more, and leaves everything else alone.
pub proof fn lemma_debit_takes_the_amount(wallet: WalletView, amount: u64)
    requires
        wallet.debit_error(amount) is None,
        wallet.counter < u64::MAX,
    ensures
        ({
            let after = wallet.debited(amount);
            &&& wallet.state == ElementState::Sealed ==> after.balance == wallet.balance - amount
            &&& wallet.state == ElementState::Cracked ==> after.balance == wallet.balance
            &&& after.counter == wallet.counter + 1
            &&& after.certificate == wallet.certificate
            &&& after.key == wallet.key
            &&& after.private_exponent == wallet.private_exponent
            &&& after.issuer == wallet.issuer
            &&& after.incoming == wallet.incoming
            &&& after.pending_funding == wallet.pending_funding
            &&& after.credited == wallet.credited
            &&& after.state == wallet.state
        }),
{
}

/// A payment is refused exactly if the payee is not certified, is the payer itself, or asks
/// for nothing or for more than the payer holds; these are looked at in that order.
pub proof fn lemma_payment_is_refused_before_any_debit(
    wallet: WalletView,
    request: PaymentRequestView,
    certified: bool,
)
    ensures
        ({
            let error = wallet.pay_verdict(request, certified);
            let own = request.payee.device == wallet.certificate.device;
            let amount = request.amount_cents;
            &&& error is None <==> certified && !own && 0 < amount <= wallet.balance
            &&& error == Some(Error::InvalidCertificate) <==> !certified
            &&& error == Some(Error::SelfPayment) <==> certified && own
            &&& error == Some(Error::ZeroAmount) <==> certified && !own && amount == 0
            &&& error == Some(
                Error::InsufficientFunds { requested: amount, available: wallet.balance },
            ) <==> certified && !own && amount > wallet.balance
        }),
        wallet.pay_error(request) == wallet.pay_verdict(
            request,
            crate::certificate::certificate_valid(request.payee, wallet.issuer),
        ),
{
}

/// What an element signs when it pays: its own certificate, the device and the nonce of the
/// request, the amount that was asked for, and a counter one above its own.
pub proof fn lemma_transfer_answers_its_request(wallet: WalletView, request: PaymentRequestView)
    requires
        wallet.counter < u64::MAX,
    ensures
        ({
            let transfer = wallet.transfer_for(request);
            &&& transfer.payer == wallet.certificate
            &&& transfer.payee == request.payee.device
            &&& transfer.amount_cents == request.amount_cents
            &&& transfer.nonce == request.nonce
            &&& transfer.counter == wallet.counter + 1
            &&& transfer.signature == crate::signature::signature_value(
                wallet.key.n,
                wallet.private_exponent,
                crate::message::transfer_digest(
                    wallet.certificate.device,
                    request.payee.device,
                    request.amount_cents,
                    request.nonce@,
                    (wallet.counter + 1) as u64,
                ),
            )
        }),
{
}

/// A transfer is credited exactly if it is for this device, comes from a certified payer who
/// has signed it, was not credited before, and pays an open request in full, no more and no
/// less. What is wrong is looked for in that order.
pub proof fn lemma_transfer_is_credited_only_in_full(
    wallet: WalletView,
    transfer: TransferView,
    certified: bool,
    signed: bool,
)
    ensures
        ({
            let key = crate::bytes::block_key(transfer.nonce);
            let error = wallet.receive_verdict(transfer, certified, signed);
            let mine = transfer.payee == wallet.certificate.device;
            let proper = mine && certified && signed;
            let spent = wallet.credited.contains(key);
            let open = wallet.incoming.contains_key(key);
            &&& error is None <==> proper && !spent && open && transfer.amount_cents
                == wallet.incoming[key]
            &&& error == Some(Error::NotForThisDevice) <==> !mine
            &&& error == Some(Error::InvalidCertificate) <==> mine && !certified
            &&& error == Some(Error::InvalidSignature) <==> mine && certified && !signed
            &&& error == Some(Error::AlreadyCredited) <==> proper && spent
            &&& error == Some(Error::UnknownRequest) <==> proper && !spent && !open
            &&& error == Some(
                Error::AmountMismatch {
                    expected: wallet.incoming[key],
                    found: transfer.amount_cents,
                },
            ) <==> proper && !spent && open && transfer.amount_cents != wallet.incoming[key]
        }),
        wallet.receive_error(transfer) == wallet.receive_verdict(
            transfer,
            crate::certificate::certificate_valid(transfer.payer, wallet.issuer),
            crate::signature::signature_valid(
                transfer.payer.public_key,
                crate::message::transfer_digest(
                    transfer.payer.device,
                    transfer.payee,
                    transfer.amount_cents,
                    transfer.nonce@,
                    transfer.counter,
                ),
                transfer.signature,
            ),
        ),
{
}

/// A credited transfer adds its amount to the balance, closes its request and no other, and
/// is remembered.
pub proof fn lemma_credit_adds_the_amount(wallet: WalletView, transfer: TransferView)
    requires
        wallet.well_formed(),
        wallet.receive_error(transfer) is None,
    ensures
        ({
            let key = crate::bytes::block_key(transfer.nonce);
            let after = wallet.received(transfer);
            &&& after.balance == wallet.balance + transfer.amount_cents
            &&& after.reserved() == wallet.reserved() - transfer.amount_cents
            &&& after.headroom() == wallet.headroom()
            &&& after.incoming.dom() == wallet.incoming.dom().remove(key)
            &&& forall|other: u128|
                other != key ==> #[trigger] after.incoming[other] == wallet.incoming[other]
            &&& after.credited == wallet.credited.insert(key)
            &&& after.pending_funding == wallet.pending_funding
            &&& after.certificate == wallet.certificate
            &&& after.key == wallet.key
            &&& after.private_exponent == wallet.private_exponent
            &&& after.issuer == wallet.issuer
            &&& after.counter == wallet.counter
            &&& after.state == wallet.state
        }),
{
    let key = crate::bytes::block_key(transfer.nonce);
    crate::totals::lemma_total_remove(wallet.incoming, key);
    assert(wallet.received(transfer).incoming.dom() =~= wallet.incoming.dom().remove(key));
}

/// Opening a request sets its nonce aside with the amount, and abandoning one takes it away;
/// nothing else changes. A request asks for the amount in the name of the element.
pub proof fn lemma_request_sets_room_aside(wallet: WalletView, nonce: [u8; 16], amount: u64)
    ensures
        ({
            let key = crate::bytes::block_key(nonce);
            let opened = wallet.with_request(nonce, amount);
            let closed = wallet.without_request(nonce);
            &&& opened.incoming.dom() == wallet.incoming.dom().insert(key)
            &&& opened.incoming[key] == amount
            &&& forall|other: u128|
                other != key ==> #[trigger] opened.incoming[other] == wallet.incoming[other]
            &&& closed.incoming.dom() == wallet.incoming.dom().remove(key)
            &&& forall|other: u128|
                other != key ==> #[trigger] closed.incoming[other] == wallet.incoming[other]
            &&& opened == (WalletView { incoming: opened.incoming, ..wallet })
            &&& closed == (WalletView { incoming: closed.incoming, ..wallet })
            &&& wallet.request_for(nonce, amount).payee == wallet.certificate
            &&& wallet.request_for(nonce, amount).amount_cents == amount
            &&& wallet.request_for(nonce, amount).nonce == nonce
        }),
{
    let key = crate::bytes::block_key(nonce);
    assert(wallet.with_request(nonce, amount).incoming.dom() =~= wallet.incoming.dom().insert(key));
    assert(wallet.without_request(nonce).incoming.dom() =~= wallet.incoming.dom().remove(key));
}

/// Opening a funding request sets its nonce aside with the amount, and abandoning one takes
/// it away; nothing else changes.
pub proof fn lemma_funding_request_sets_room_aside(
    wallet: WalletView,
    nonce: [u8; 16],
    amount: u64,
)
    ensures
        ({
            let key = crate::bytes::block_key(nonce);
            let opened = wallet.with_funding(nonce, amount);
            let closed = wallet.without_funding(nonce);
            &&& opened.pending_funding.dom() == wallet.pending_funding.dom().insert(key)
            &&& opened.pending_funding[key] == amount
            &&& forall|other: u128|
                other != key ==> #[trigger] opened.pending_funding[other]
                    == wallet.pending_funding[other]
            &&& closed.pending_funding.dom() == wallet.pending_funding.dom().remove(key)
            &&& forall|other: u128|
                other != key ==> #[trigger] closed.pending_funding[other]
                    == wallet.pending_funding[other]
            &&& opened == (WalletView { pending_funding: opened.pending_funding, ..wallet })
            &&& closed == (WalletView { pending_funding: closed.pending_funding, ..wallet })
        }),
{
    let key = crate::bytes::block_key(nonce);
    assert(wallet.with_funding(nonce, amount).pending_funding.dom()
        =~= wallet.pending_funding.dom().insert(key));
    assert(wallet.without_funding(nonce).pending_funding.dom()
        =~= wallet.pending_funding.dom().remove(key));
}

/// What an element signs to be funded or to be defunded: its own device, the amount, and the
/// nonce, or a counter one above its own.
pub proof fn lemma_element_signs_for_itself(wallet: WalletView, nonce: [u8; 16], amount: u64)
    requires
        wallet.counter < u64::MAX,
    ensures
        ({
            let request = wallet.funding_for(nonce, amount);
            let order = wallet.order_for(amount);
            let device = wallet.certificate.device;
            &&& request.device == device
            &&& request.amount_cents == amount
            &&& request.nonce == nonce
            &&& request.signature == crate::signature::signature_value(
                wallet.key.n,
                wallet.private_exponent,
                crate::message::funding_request_digest(device, amount, nonce@),
            )
            &&& order.device == device
            &&& order.amount_cents == amount
            &&& order.counter == wallet.counter + 1
            &&& order.signature == crate::signature::signature_value(
                wallet.key.n,
                wallet.private_exponent,
                crate::message::defunding_digest(device, amount, (wallet.counter + 1) as u64),
            )
        }),
{
}

/// A funding message is credited exactly if it is for this device, the issuer has signed it,
/// it was not credited before, and it answers an open request in full. What is wrong is looked
/// for in that order.
pub proof fn lemma_funding_is_credited_only_in_full(
    wallet: WalletView,
    funding: FundingView,
    signed: bool,
)
    ensures
        ({
            let key = crate::bytes::block_key(funding.nonce);
            let error = wallet.funding_verdict(funding, signed);
            let mine = funding.device == wallet.certificate.device;
            let proper = mine && signed;
            let spent = wallet.credited.contains(key);
            let open = wallet.pending_funding.contains_key(key);
            &&& error is None <==> proper && !spent && open && funding.amount_cents
                == wallet.pending_funding[key]
            &&& error == Some(Error::NotForThisDevice) <==> !mine
            &&& error == Some(Error::InvalidSignature) <==> mine && !signed
            &&& error == Some(Error::AlreadyCredited) <==> proper && spent
            &&& error == Some(Error::UnknownRequest) <==> proper && !spent && !open
            &&& error == Some(
                Error::AmountMismatch {
                    expected: wallet.pending_funding[key],
                    found: funding.amount_cents,
                },
            ) <==> proper && !spent && open && funding.amount_cents != wallet.pending_funding[key]
        }),
        wallet.funding_error(funding) == wallet.funding_verdict(
            funding,
            crate::signature::signature_valid(
                wallet.issuer,
                crate::message::funding_digest(
                    funding.device,
                    funding.amount_cents,
                    funding.nonce@,
                ),
                funding.signature,
            ),
        ),
{
}

/// A credited funding adds its amount to the balance, closes its request and no other, and is
/// remembered.
pub proof fn lemma_funding_adds_the_amount(wallet: WalletView, funding: FundingView)
    requires
        wallet.well_formed(),
        wallet.funding_error(funding) is None,
    ensures
        ({
            let key = crate::bytes::block_key(funding.nonce);
            let after = wallet.funded(funding);
            &&& after.balance == wallet.balance + funding.amount_cents
            &&& after.reserved() == wallet.reserved() - funding.amount_cents
            &&& after.headroom() == wallet.headroom()
            &&& after.pending_funding.dom() == wallet.pending_funding.dom().remove(key)
            &&& forall|other: u128|
                other != key ==> #[trigger] after.pending_funding[other]
                    == wallet.pending_funding[other]
            &&& after.credited == wallet.credited.insert(key)
            &&& after.incoming == wallet.incoming
            &&& after.certificate == wallet.certificate
            &&& after.key == wallet.key
            &&& after.private_exponent == wallet.private_exponent
            &&& after.issuer == wallet.issuer
            &&& after.counter == wallet.counter
            &&& after.state == wallet.state
        }),
{
    let key = crate::bytes::block_key(funding.nonce);
    crate::totals::lemma_total_remove(wallet.pending_funding, key);
    assert(wallet.funded(funding).pending_funding.dom() =~= wallet.pending_funding.dom().remove(
        key,
    ));
}

/// A payment would go through exactly if the amount is not zero, the payer holds it, the payee
/// has room for it, and the payee is another device that the payer's issuer has certified.
pub proof fn lemma_payment_goes_through(payer: WalletView, payee: WalletView, amount: u64)
    requires
        payee.well_formed(),
    ensures
        payer.pays(payee, amount) <==> {
            &&& 0 < amount <= payer.balance
            &&& payee.balance + payee.reserved() + amount <= payee.certificate.holding_limit_cents
            &&& payee.certificate.device != payer.certificate.device
            &&& crate::certificate::certificate_valid(payee.certificate, payer.issuer)
        },
        payer.can_debit() <==> payer.key.n > 0 && payer.counter < u64::MAX,
{
}

} // verus!
