//! The Eurosystem's backend: online accounts, the devices it has certified, and
//! the value that has moved between the two.
//!
//! The issuer never sees an offline payment. All it knows of offline money is
//! the float: what was funded less what was defunded.

use crate::certificate::{CertificateView, DeviceCertificate};
use crate::error::Error;
use crate::id::{AccountId, DeviceId};
use crate::message::{
    Defunding, DefundingView, Funding, FundingRequest, FundingRequestView, FundingView,
};
use crate::natural::Natural;
use crate::signature::{Keypair, PublicKey, PublicKeyView};
use crate::wallet::{ElementState, WalletView};
use rand::rngs::StdRng;
use std::collections::{HashMap, HashSet};
use vstd::prelude::*;

verus! {

/// What the issuer knows of a device, as plain values.
pub struct DeviceView {
    pub account: AccountId,
    pub key: PublicKeyView,
}

#[derive(Debug)]
struct DeviceRecord {
    account: AccountId,
    key: PublicKey,
}

impl View for DeviceRecord {
    type V = DeviceView;

    closed spec fn view(&self) -> DeviceView {
        DeviceView { account: self.account, key: self.key@ }
    }
}

/// The state of the issuer as plain values.
pub struct IssuerView {
    pub key: PublicKeyView,
    pub private_exponent: nat,
    /// Online balances, by account.
    pub accounts: Map<u128, u64>,
    /// Certified devices.
    pub devices: Map<u128, DeviceView>,
    /// The highest counter seen from each device in a defunding order.
    pub counters: Map<u128, u64>,
    /// Nonces of the funding requests that were honoured.
    pub honoured: Set<u128>,
    /// Funded less defunded.
    pub float: i128,
}

impl IssuerView {
    /// What holds of the issuer at all times: it has a key to sign with, and
    /// every device belongs to an account that it holds and is known before it
    /// defunds.
    pub open spec fn well_formed(self) -> bool {
        &&& self.key.n > 0
        &&& self.accounts.dom().finite()
        &&& forall|device: u128| #[trigger]
            self.devices.contains_key(device) ==> self.accounts.contains_key(
                crate::bytes::block_key(self.devices[device].account.0),
            )
        &&& forall|device: u128| #[trigger]
            self.counters.contains_key(device) ==> self.devices.contains_key(device)
    }

    /// All money in online accounts.
    pub open spec fn online(self) -> nat {
        crate::totals::table_total(self.accounts)
    }

    /// The highest counter seen from a device; zero if none was.
    pub open spec fn last_counter(self, device: DeviceId) -> u64 {
        let key = crate::bytes::block_key(device.0);
        if self.counters.contains_key(key) {
            self.counters[key]
        } else {
            0
        }
    }

    /// The account key behind a device.
    pub open spec fn account_key(self, device: DeviceId) -> u128 {
        crate::bytes::block_key(self.devices[crate::bytes::block_key(device.0)].account.0)
    }

    /// The certificate for a device.
    pub open spec fn certificate_for(
        self,
        device: DeviceId,
        key: PublicKeyView,
        limit: u64,
    ) -> CertificateView {
        CertificateView {
            device,
            public_key: key,
            holding_limit_cents: limit,
            signature: crate::signature::signature_value(
                self.key.n,
                self.private_exponent,
                crate::certificate::certificate_digest(device, key, limit),
            ),
        }
    }

    /// The issuer after a device is certified.
    pub open spec fn with_device(
        self,
        device: DeviceId,
        account: AccountId,
        key: PublicKeyView,
    ) -> IssuerView {
        IssuerView {
            devices: self.devices.insert(
                crate::bytes::block_key(device.0),
                DeviceView { account, key },
            ),
            ..self
        }
    }

    /// Why a funding request is refused.
    pub open spec fn fund_error(self, request: FundingRequestView) -> Option<Error> {
        self.fund_verdict(
            request,
            crate::signature::signature_valid(
                self.devices[crate::bytes::block_key(request.device.0)].key,
                crate::message::funding_request_digest(
                    request.device,
                    request.amount_cents,
                    request.nonce@,
                ),
                request.signature,
            ),
        )
    }

    /// Why a funding request is refused, given whether the device has signed it.
    pub open spec fn fund_verdict(self, request: FundingRequestView, signed: bool) -> Option<
        Error,
    > {
        let device = crate::bytes::block_key(request.device.0);
        let balance = self.accounts[self.account_key(request.device)];
        if !self.devices.contains_key(device) {
            Some(Error::UnknownDevice(request.device))
        } else if !signed {
            Some(Error::InvalidSignature)
        } else if self.honoured.contains(crate::bytes::block_key(request.nonce)) {
            Some(Error::Replay)
        } else if balance < request.amount_cents {
            Some(
                Error::InsufficientFunds { requested: request.amount_cents, available: balance },
            )
        } else if self.float + request.amount_cents > i128::MAX {
            Some(Error::AmountOverflow)
        } else {
            None
        }
    }

    /// The funding message that honours a request.
    pub open spec fn funding_for(self, request: FundingRequestView) -> FundingView {
        FundingView {
            device: request.device,
            amount_cents: request.amount_cents,
            nonce: request.nonce,
            signature: crate::signature::signature_value(
                self.key.n,
                self.private_exponent,
                crate::message::funding_digest(
                    request.device,
                    request.amount_cents,
                    request.nonce@,
                ),
            ),
        }
    }

    /// The issuer after a funding request is honoured.
    pub open spec fn after_funding(self, request: FundingRequestView) -> IssuerView {
        let account = self.account_key(request.device);
        IssuerView {
            accounts: self.accounts.insert(
                account,
                (self.accounts[account] - request.amount_cents) as u64,
            ),
            honoured: self.honoured.insert(crate::bytes::block_key(request.nonce)),
            float: (self.float + request.amount_cents) as i128,
            ..self
        }
    }

    /// Why a defunding order is refused.
    pub open spec fn defund_error(self, order: DefundingView) -> Option<Error> {
        self.defund_verdict(
            order,
            crate::signature::signature_valid(
                self.devices[crate::bytes::block_key(order.device.0)].key,
                crate::message::defunding_digest(order.device, order.amount_cents, order.counter),
                order.signature,
            ),
        )
    }

    /// Why a defunding order is refused, given whether the device has signed it.
    pub open spec fn defund_verdict(self, order: DefundingView, signed: bool) -> Option<Error> {
        let device = crate::bytes::block_key(order.device.0);
        let balance = self.accounts[self.account_key(order.device)];
        if !self.devices.contains_key(device) {
            Some(Error::UnknownDevice(order.device))
        } else if !signed {
            Some(Error::InvalidSignature)
        } else if order.counter <= self.last_counter(order.device) {
            Some(Error::Replay)
        } else if balance + order.amount_cents > u64::MAX || self.float - order.amount_cents
            < i128::MIN {
            Some(Error::AmountOverflow)
        } else {
            None
        }
    }

    /// The issuer after a defunding order is cashed.
    pub open spec fn after_defunding(self, order: DefundingView) -> IssuerView {
        let account = self.account_key(order.device);
        IssuerView {
            accounts: self.accounts.insert(
                account,
                (self.accounts[account] + order.amount_cents) as u64,
            ),
            counters: self.counters.insert(
                crate::bytes::block_key(order.device.0),
                order.counter,
            ),
            float: (self.float - order.amount_cents) as i128,
            ..self
        }
    }
}

pub struct Issuer {
    keypair: Keypair,
    accounts: HashMap<u128, u64>,
    devices: HashMap<u128, DeviceRecord>,
    counters: HashMap<u128, u64>,
    honoured: HashSet<u128>,
    float: i128,
}

impl View for Issuer {
    type V = IssuerView;

    closed spec fn view(&self) -> IssuerView {
        IssuerView {
            key: self.keypair.verification_key(),
            private_exponent: self.keypair.private_exponent(),
            accounts: self.accounts@,
            devices: self.devices@.map_values(|record: DeviceRecord| record@),
            counters: self.counters@,
            honoured: self.honoured@,
            float: self.float,
        }
    }
}

impl Issuer {
    pub fn new(keypair: Keypair) -> (r: Self)
        requires
            keypair.verification_key().n > 0,
        ensures
            r@ == (IssuerView {
                key: keypair.verification_key(),
                private_exponent: keypair.private_exponent(),
                accounts: Map::empty(),
                devices: Map::empty(),
                counters: Map::empty(),
                honoured: Set::empty(),
                float: 0,
            }),
            r@.well_formed(),
    {
        let r = Issuer {
            keypair,
            accounts: HashMap::new(),
            devices: HashMap::new(),
            counters: HashMap::new(),
            honoured: HashSet::new(),
            float: 0,
        };
        proof {
            assert(r@.devices =~= Map::empty());
        }
        r
    }

    pub fn public_key(&self) -> (r: PublicKey)
        ensures
            r@ == self@.key,
    {
        self.keypair.public_key().clone()
    }

    /// Opens an account with a balance. An account that is open already is set
    /// to that balance.
    pub fn open_account(&mut self, account: AccountId, balance_cents: u64)
        requires
            old(self)@.well_formed(),
        ensures
            final(self)@ == (IssuerView {
                accounts: old(self)@.accounts.insert(
                    crate::bytes::block_key(account.0),
                    balance_cents,
                ),
                ..old(self)@
            }),
            final(self)@.well_formed(),
    {
        self.accounts.insert(crate::bytes::u128_from_be_bytes(&account.0), balance_cents);
    }

    pub fn balance_of(&self, account: &AccountId) -> (r: Option<u64>)
        ensures
            r is Some <==> self@.accounts.contains_key(crate::bytes::block_key(account.0)),
            r matches Some(balance) ==> balance == self@.accounts[crate::bytes::block_key(
                account.0,
            )],
    {
        match self.accounts.get(&crate::bytes::u128_from_be_bytes(&account.0)) {
            Some(balance) => Some(*balance),
            None => None,
        }
    }

    /// The account behind a device. Only the issuer knows it.
    pub fn account_of(&self, device: &DeviceId) -> (r: Option<AccountId>)
        ensures
            r is Some <==> self@.devices.contains_key(crate::bytes::block_key(device.0)),
            r matches Some(account) ==> account == self@.devices[crate::bytes::block_key(
                device.0,
            )].account,
    {
        match self.devices.get(&crate::bytes::u128_from_be_bytes(&device.0)) {
            Some(record) => Some(record.account),
            None => None,
        }
    }

    /// Value on devices as far as the issuer can tell: funded less defunded.
    pub fn offline_float(&self) -> (r: i128)
        ensures
            r == self@.float,
    {
        self.float
    }

    /// Certifies a key as that of a device with this identifier.
    pub fn certify_as(
        &mut self,
        device: DeviceId,
        account: AccountId,
        public_key: &PublicKey,
        holding_limit_cents: u64,
    ) -> (r: DeviceCertificate)
        requires
            old(self)@.well_formed(),
            old(self)@.accounts.contains_key(crate::bytes::block_key(account.0)),
        ensures
            r@ == old(self)@.certificate_for(device, public_key@, holding_limit_cents),
            final(self)@ == old(self)@.with_device(device, account, public_key@),
            final(self)@.well_formed(),
    {
        let mut certificate = DeviceCertificate {
            device,
            public_key: public_key.clone(),
            holding_limit_cents,
            signature: Natural::zero(),
        };
        certificate.signature = self.keypair.sign(&certificate.digest());
        self.devices.insert(
            crate::bytes::u128_from_be_bytes(&device.0),
            DeviceRecord { account, key: public_key.clone() },
        );
        proof {
            assert(self@.devices =~= old(self)@.with_device(device, account, public_key@).devices);
        }
        certificate
    }

    /// Certifies a key under a fresh device identifier, for an account that the
    /// issuer holds. It fails if the identifier that is drawn is in use.
    pub fn certify_device(
        &mut self,
        account: AccountId,
        public_key: &PublicKey,
        holding_limit_cents: u64,
        rng: &mut StdRng,
    ) -> (r: Result<DeviceCertificate, Error>)
        requires
            old(self)@.well_formed(),
        ensures
            match r {
                Ok(certificate) => {
                    let device = certificate@.device;
                    &&& old(self)@.accounts.contains_key(crate::bytes::block_key(account.0))
                    &&& !old(self)@.devices.contains_key(crate::bytes::block_key(device.0))
                    &&& certificate@ == old(self)@.certificate_for(
                        device,
                        public_key@,
                        holding_limit_cents,
                    )
                    &&& final(self)@ == old(self)@.with_device(device, account, public_key@)
                },
                Err(error) => {
                    &&& final(self)@ == old(self)@
                    &&& error == if old(self)@.accounts.contains_key(
                        crate::bytes::block_key(account.0),
                    ) {
                        Error::EntropyExhausted
                    } else {
                        Error::UnregisteredAccount(account)
                    }
                    &&& old(self)@.accounts.contains_key(crate::bytes::block_key(account.0))
                        ==> exists|device: u128| #[trigger]
                        old(self)@.devices.contains_key(device)
                },
            },
            final(self)@.well_formed(),
    {
        if !self.accounts.contains_key(&crate::bytes::u128_from_be_bytes(&account.0)) {
            return Err(Error::UnregisteredAccount(account));
        }
        let device: DeviceId = DeviceId(crate::random::draw_nonce(rng));
        if self.devices.contains_key(&crate::bytes::u128_from_be_bytes(&device.0)) {
            proof {
                assert(self@.devices.contains_key(crate::bytes::block_key(device.0)));
            }
            return Err(Error::EntropyExhausted);
        }
        Ok(self.certify_as(device, account, public_key, holding_limit_cents))
    }

    /// The account behind a device, and what is on it.
    fn account_behind(&self, device: &DeviceId) -> (r: (u128, u64))
        requires
            self@.well_formed(),
            self@.devices.contains_key(crate::bytes::block_key(device.0)),
        ensures
            r.0 == self@.account_key(*device),
            r.1 == self@.accounts[r.0],
            self@.accounts.contains_key(r.0),
    {
        match self.devices.get(&crate::bytes::u128_from_be_bytes(&device.0)) {
            Some(record) => {
                let account: u128 = crate::bytes::u128_from_be_bytes(&record.account.0);
                match self.accounts.get(&account) {
                    Some(balance) => (account, *balance),
                    None => (account, 0),
                }
            },
            None => (0, 0),
        }
    }

    /// Decides on a funding request, given whether the device has signed it.
    pub fn judge_request(&self, request: &FundingRequest, signed: bool) -> (r: Option<Error>)
        requires
            self@.well_formed(),
        ensures
            r == self@.fund_verdict(request@, signed),
    {
        if !self.devices.contains_key(&crate::bytes::u128_from_be_bytes(&request.device.0)) {
            return Some(Error::UnknownDevice(request.device));
        }
        if !signed {
            return Some(Error::InvalidSignature);
        }
        if self.honoured.contains(&crate::bytes::u128_from_be_bytes(&request.nonce)) {
            return Some(Error::Replay);
        }
        let (_, balance) = self.account_behind(&request.device);
        if balance < request.amount_cents {
            return Some(
                Error::InsufficientFunds { requested: request.amount_cents, available: balance },
            );
        }
        if self.float.checked_add(request.amount_cents as i128).is_none() {
            return Some(Error::AmountOverflow);
        }
        None
    }

    /// Honours a funding request: debits the account behind the device and
    /// authorises the element to credit itself.
    pub fn fund(&mut self, request: &FundingRequest) -> (r: Result<Funding, Error>)
        requires
            old(self)@.well_formed(),
        ensures
            match r {
                Ok(funding) => {
                    &&& old(self)@.fund_error(request@) is None
                    &&& funding@ == old(self)@.funding_for(request@)
                    &&& final(self)@ == old(self)@.after_funding(request@)
                },
                Err(error) => {
                    &&& old(self)@.fund_error(request@) == Some(error)
                    &&& final(self)@ == old(self)@
                },
            },
            final(self)@.well_formed(),
    {
        let signed: bool = match self.devices.get(
            &crate::bytes::u128_from_be_bytes(&request.device.0),
        ) {
            Some(record) => record.key.verify(&request.digest(), &request.signature),
            None => false,
        };
        if let Some(error) = self.judge_request(request, signed) {
            return Err(error);
        }
        let (account, balance) = self.account_behind(&request.device);
        let nonce: u128 = crate::bytes::u128_from_be_bytes(&request.nonce);
        let float: i128 = self.float + request.amount_cents as i128;
        self.accounts.insert(account, balance - request.amount_cents);
        self.honoured.insert(nonce);
        self.float = float;
        let mut funding = Funding {
            device: request.device,
            amount_cents: request.amount_cents,
            nonce: request.nonce,
            signature: Natural::zero(),
        };
        funding.signature = self.keypair.sign(&funding.digest());
        proof {
            assert(self@ == old(self)@.after_funding(request@));
        }
        Ok(funding)
    }

    /// Decides on a defunding order, given whether the device has signed it.
    pub fn judge_order(&self, order: &Defunding, signed: bool) -> (r: Option<Error>)
        requires
            self@.well_formed(),
        ensures
            r == self@.defund_verdict(order@, signed),
    {
        let device: u128 = crate::bytes::u128_from_be_bytes(&order.device.0);
        if !self.devices.contains_key(&device) {
            return Some(Error::UnknownDevice(order.device));
        }
        if !signed {
            return Some(Error::InvalidSignature);
        }
        let last: u64 = match self.counters.get(&device) {
            Some(counter) => *counter,
            None => 0,
        };
        if order.counter <= last {
            return Some(Error::Replay);
        }
        let (_, balance) = self.account_behind(&order.device);
        if balance.checked_add(order.amount_cents).is_none() || self.float.checked_sub(
            order.amount_cents as i128,
        ).is_none() {
            return Some(Error::AmountOverflow);
        }
        None
    }

    /// Cashes a defunding order: credits the account behind the device. Returns
    /// the amount.
    pub fn defund(&mut self, order: &Defunding) -> (r: Result<u64, Error>)
        requires
            old(self)@.well_formed(),
        ensures
            match r {
                Ok(amount) => {
                    &&& old(self)@.defund_error(order@) is None
                    &&& final(self)@ == old(self)@.after_defunding(order@)
                    &&& amount == order.amount_cents
                },
                Err(error) => {
                    &&& old(self)@.defund_error(order@) == Some(error)
                    &&& final(self)@ == old(self)@
                },
            },
            final(self)@.well_formed(),
    {
        let device: u128 = crate::bytes::u128_from_be_bytes(&order.device.0);
        let signed: bool = match self.devices.get(&device) {
            Some(record) => record.key.verify(&order.digest(), &order.signature),
            None => false,
        };
        if let Some(error) = self.judge_order(order, signed) {
            return Err(error);
        }
        let (account, balance) = self.account_behind(&order.device);
        let credited: u64 = balance + order.amount_cents;
        let float: i128 = self.float - order.amount_cents as i128;
        self.accounts.insert(account, credited);
        self.counters.insert(device, order.counter);
        self.float = float;
        proof {
            assert(self@ == old(self)@.after_defunding(order@));
        }
        Ok(order.amount_cents)
    }
}

// ---------------------------------------------------------------------------
// What holds across calls
// ---------------------------------------------------------------------------

/// Funding moves money and makes none: online balances and the float add up to
/// what they did before.
pub proof fn lemma_funding_conserves_money(issuer: IssuerView, request: FundingRequestView)
    requires
        issuer.well_formed(),
        issuer.fund_error(request) is None,
    ensures
        issuer.after_funding(request).online() + issuer.after_funding(request).float
            == issuer.online() + issuer.float,
{
    let account = issuer.account_key(request.device);
    crate::totals::lemma_total_remove(issuer.accounts, account);
    crate::totals::lemma_total_insert(
        issuer.accounts,
        account,
        (issuer.accounts[account] - request.amount_cents) as u64,
    );
}

/// Defunding moves money and makes none.
pub proof fn lemma_defunding_conserves_money(issuer: IssuerView, order: DefundingView)
    requires
        issuer.well_formed(),
        issuer.defund_error(order) is None,
    ensures
        issuer.after_defunding(order).online() + issuer.after_defunding(order).float
            == issuer.online() + issuer.float,
{
    let account = issuer.account_key(order.device);
    crate::totals::lemma_total_remove(issuer.accounts, account);
    crate::totals::lemma_total_insert(
        issuer.accounts,
        account,
        (issuer.accounts[account] + order.amount_cents) as u64,
    );
}

/// A defunding order is cashed once: once it has been, it is refused for as long
/// as the counters that the issuer remembers do not go down.
pub proof fn lemma_order_is_cashed_once(
    before: IssuerView,
    after: IssuerView,
    order: DefundingView,
)
    requires
        before.defund_error(order) is None,
        after.devices.contains_key(crate::bytes::block_key(order.device.0)),
        after.devices[crate::bytes::block_key(order.device.0)]
            == before.devices[crate::bytes::block_key(order.device.0)],
        after.last_counter(order.device) >= before.after_defunding(order).last_counter(
            order.device,
        ),
    ensures
        after.defund_error(order) == Some(Error::Replay),
{
}

/// A funding request is honoured once.
pub proof fn lemma_request_is_honoured_once(
    before: IssuerView,
    after: IssuerView,
    request: FundingRequestView,
)
    requires
        before.fund_error(request) is None,
        after.devices.contains_key(crate::bytes::block_key(request.device.0)),
        after.devices[crate::bytes::block_key(request.device.0)]
            == before.devices[crate::bytes::block_key(request.device.0)],
        before.after_funding(request).honoured.subset_of(after.honoured),
    ensures
        after.fund_error(request) == Some(Error::Replay),
{
    assert(before.after_funding(request).honoured.contains(
        crate::bytes::block_key(request.nonce),
    ));
}

/// The counter that the issuer remembers of a device never goes down.
pub proof fn lemma_counters_only_rise(
    issuer: IssuerView,
    order: DefundingView,
    device: DeviceId,
)
    requires
        issuer.defund_error(order) is None,
    ensures
        issuer.after_defunding(order).last_counter(device) >= issuer.last_counter(device),
{
}

/// A certificate that the issuer makes verifies under its key.
pub proof fn lemma_certificate_verifies(
    issuer: IssuerView,
    device: DeviceId,
    key: PublicKeyView,
    limit: u64,
)
    requires
        crate::signature::sound_key(issuer.key, issuer.private_exponent),
    ensures
        crate::certificate::certificate_valid(
            issuer.certificate_for(device, key, limit),
            issuer.key,
        ),
{
    crate::signature::lemma_signature_verifies(
        issuer.key,
        issuer.private_exponent,
        crate::certificate::certificate_digest(device, key, limit),
    );
}

/// An element and the issuer agree on each other: the element trusts the
/// issuer's key, the issuer knows the element's, and has seen no counter that
/// the element has yet to reach.
pub open spec fn linked(wallet: WalletView, issuer: IssuerView) -> bool {
    let device = crate::bytes::block_key(wallet.certificate.device.0);
    &&& wallet.issuer == issuer.key
    &&& issuer.devices.contains_key(device)
    &&& issuer.devices[device].key == wallet.key
    &&& issuer.last_counter(wallet.certificate.device) <= wallet.counter
}

/// Once the issuer has debited the account, the element can credit itself.
pub proof fn lemma_honoured_funding_is_credited(
    wallet: WalletView,
    issuer: IssuerView,
    nonce: [u8; 16],
    amount: u64,
)
    requires
        linked(wallet, issuer),
        crate::signature::sound_key(issuer.key, issuer.private_exponent),
        !wallet.credited.contains(crate::bytes::block_key(nonce)),
    ensures
        wallet.with_funding(nonce, amount).funding_error(
            issuer.funding_for(wallet.funding_for(nonce, amount)),
        ) is None,
{
    crate::signature::lemma_signature_verifies(
        issuer.key,
        issuer.private_exponent,
        crate::message::funding_digest(wallet.certificate.device, amount, nonce@),
    );
}

/// The order of an element that the issuer certified is cashed, unless the money
/// does not fit into the account.
pub proof fn lemma_order_is_cashed(wallet: WalletView, issuer: IssuerView, amount: u64)
    requires
        linked(wallet, issuer),
        crate::signature::sound_key(wallet.key, wallet.private_exponent),
        wallet.can_debit(),
        issuer.accounts[issuer.account_key(wallet.certificate.device)] + amount <= u64::MAX,
        issuer.float - amount >= i128::MIN,
    ensures
        issuer.defund_error(wallet.order_for(amount)) is None,
        linked(wallet.debited(amount), issuer.after_defunding(wallet.order_for(amount))),
{
    crate::signature::lemma_signature_verifies(
        wallet.key,
        wallet.private_exponent,
        crate::message::defunding_digest(
            wallet.certificate.device,
            amount,
            (wallet.counter + 1) as u64,
        ),
    );
}

/// What is funded onto an element is what the float grows by, and what a sealed
/// element defunds is what the float shrinks by.
pub proof fn lemma_float_follows_the_devices(
    wallet: WalletView,
    issuer: IssuerView,
    nonce: [u8; 16],
    amount: u64,
)
    requires
        wallet.well_formed(),
        issuer.well_formed(),
    ensures
        ({
            let request = wallet.funding_for(nonce, amount);
            let opened = wallet.with_funding(nonce, amount);
            let funding = issuer.funding_for(request);
            wallet.reservation_error(amount) is None && issuer.fund_error(request) is None
                && opened.funding_error(funding) is None ==> opened.funded(funding).balance
                - wallet.balance == issuer.after_funding(request).float - issuer.float
        }),
        ({
            let order = wallet.order_for(amount);
            wallet.debit_error(amount) is None && wallet.state == ElementState::Sealed
                && issuer.defund_error(order) is None ==> wallet.debited(amount).balance
                - wallet.balance == issuer.after_defunding(order).float - issuer.float
        }),
{
}

// ---------------------------------------------------------------------------
// When the issuer refuses, and what it does when it does not
// ---------------------------------------------------------------------------

/// A funding request is honoured exactly if the device is certified and has signed it, its
/// nonce was not honoured before, the account behind the device covers the amount, and the
/// float can grow by it: all that is on the account can be moved. What is wrong is looked for
/// in that order.
pub proof fn lemma_funding_is_limited_by_the_account(
    issuer: IssuerView,
    request: FundingRequestView,
    signed: bool,
)
    ensures
        ({
            let device = crate::bytes::block_key(request.device.0);
            let account = crate::bytes::block_key(issuer.devices[device].account.0);
            let balance = issuer.accounts[account];
            let error = issuer.fund_verdict(request, signed);
            let known = issuer.devices.contains_key(device);
            let proper = known && signed;
            let replayed = issuer.honoured.contains(crate::bytes::block_key(request.nonce));
            let covered = request.amount_cents <= balance;
            let fits = issuer.float + request.amount_cents <= i128::MAX;
            &&& error is None <==> proper && !replayed && covered && fits
            &&& error == Some(Error::UnknownDevice(request.device)) <==> !known
            &&& error == Some(Error::InvalidSignature) <==> known && !signed
            &&& error == Some(Error::Replay) <==> proper && replayed
            &&& error == Some(
                Error::InsufficientFunds { requested: request.amount_cents, available: balance },
            ) <==> proper && !replayed && !covered
            &&& error == Some(Error::AmountOverflow) <==> proper && !replayed && covered && !fits
        }),
        issuer.fund_error(request) == issuer.fund_verdict(
            request,
            crate::signature::signature_valid(
                issuer.devices[crate::bytes::block_key(request.device.0)].key,
                crate::message::funding_request_digest(
                    request.device,
                    request.amount_cents,
                    request.nonce@,
                ),
                request.signature,
            ),
        ),
{
}

/// An honoured request takes its amount from the account behind the device and adds it to the
/// float; no other account changes, and the nonce is remembered. The answer repeats device,
/// amount and nonce under the issuer's signature.
pub proof fn lemma_honoured_request_moves_the_amount(
    issuer: IssuerView,
    request: FundingRequestView,
)
    requires
        issuer.well_formed(),
        issuer.fund_error(request) is None,
    ensures
        ({
            let device = crate::bytes::block_key(request.device.0);
            let account = crate::bytes::block_key(issuer.devices[device].account.0);
            let after = issuer.after_funding(request);
            let funding = issuer.funding_for(request);
            &&& after.accounts[account] == issuer.accounts[account] - request.amount_cents
            &&& after.accounts.dom() == issuer.accounts.dom()
            &&& forall|other: u128|
                other != account ==> #[trigger] after.accounts[other] == issuer.accounts[other]
            &&& after.float == issuer.float + request.amount_cents
            &&& after.honoured == issuer.honoured.insert(crate::bytes::block_key(request.nonce))
            &&& after.devices == issuer.devices
            &&& after.counters == issuer.counters
            &&& after.key == issuer.key
            &&& after.private_exponent == issuer.private_exponent
            &&& funding.device == request.device
            &&& funding.amount_cents == request.amount_cents
            &&& funding.nonce == request.nonce
            &&& funding.signature == crate::signature::signature_value(
                issuer.key.n,
                issuer.private_exponent,
                crate::message::funding_digest(
                    request.device,
                    request.amount_cents,
                    request.nonce@,
                ),
            )
        }),
{
    assert(issuer.after_funding(request).accounts.dom() =~= issuer.accounts.dom());
}

/// A defunding order is cashed exactly if the device is certified and has signed it, its
/// counter is above every counter that was cashed for the device, and the money fits into the
/// account and the books. What is wrong is looked for in that order.
pub proof fn lemma_order_has_to_be_new(issuer: IssuerView, order: DefundingView, signed: bool)
    ensures
        ({
            let device = crate::bytes::block_key(order.device.0);
            let account = crate::bytes::block_key(issuer.devices[device].account.0);
            let error = issuer.defund_verdict(order, signed);
            let known = issuer.devices.contains_key(device);
            let proper = known && signed;
            let newer = order.counter > 0 && (issuer.counters.contains_key(device)
                ==> order.counter > issuer.counters[device]);
            let fits = issuer.accounts[account] + order.amount_cents <= u64::MAX && issuer.float
                - order.amount_cents >= i128::MIN;
            &&& error is None <==> proper && newer && fits
            &&& error == Some(Error::UnknownDevice(order.device)) <==> !known
            &&& error == Some(Error::InvalidSignature) <==> known && !signed
            &&& error == Some(Error::Replay) <==> proper && !newer
            &&& error == Some(Error::AmountOverflow) <==> proper && newer && !fits
        }),
        issuer.defund_error(order) == issuer.defund_verdict(
            order,
            crate::signature::signature_valid(
                issuer.devices[crate::bytes::block_key(order.device.0)].key,
                crate::message::defunding_digest(order.device, order.amount_cents, order.counter),
                order.signature,
            ),
        ),
{
}

/// A cashed order adds its amount to the account behind the device and takes it from the
/// float; no other account changes, and the counter is remembered for the device.
pub proof fn lemma_cashed_order_moves_the_amount(issuer: IssuerView, order: DefundingView)
    requires
        issuer.well_formed(),
        issuer.defund_error(order) is None,
    ensures
        ({
            let device = crate::bytes::block_key(order.device.0);
            let account = crate::bytes::block_key(issuer.devices[device].account.0);
            let after = issuer.after_defunding(order);
            &&& after.accounts[account] == issuer.accounts[account] + order.amount_cents
            &&& after.accounts.dom() == issuer.accounts.dom()
            &&& forall|other: u128|
                other != account ==> #[trigger] after.accounts[other] == issuer.accounts[other]
            &&& after.float == issuer.float - order.amount_cents
            &&& after.counters.dom() == issuer.counters.dom().insert(device)
            &&& after.counters[device] == order.counter
            &&& forall|other: u128|
                other != device ==> #[trigger] after.counters[other] == issuer.counters[other]
            &&& after.honoured == issuer.honoured
            &&& after.devices == issuer.devices
            &&& after.key == issuer.key
            &&& after.private_exponent == issuer.private_exponent
        }),
{
    let device = crate::bytes::block_key(order.device.0);
    assert(issuer.after_defunding(order).accounts.dom() =~= issuer.accounts.dom());
    assert(issuer.after_defunding(order).counters.dom() =~= issuer.counters.dom().insert(device));
}

/// A certificate states the device, its key and its limit as they were given, under the
/// issuer's signature; the issuer records the account behind the device and its key, and
/// changes nothing else.
pub proof fn lemma_certificate_states_what_was_given(
    issuer: IssuerView,
    device: DeviceId,
    account: AccountId,
    key: PublicKeyView,
    limit: u64,
)
    ensures
        ({
            let certificate = issuer.certificate_for(device, key, limit);
            let after = issuer.with_device(device, account, key);
            let at = crate::bytes::block_key(device.0);
            &&& certificate.device == device
            &&& certificate.public_key == key
            &&& certificate.holding_limit_cents == limit
            &&& certificate.signature == crate::signature::signature_value(
                issuer.key.n,
                issuer.private_exponent,
                crate::certificate::certificate_digest(device, key, limit),
            )
            &&& after.devices.dom() == issuer.devices.dom().insert(at)
            &&& after.devices[at].account == account
            &&& after.devices[at].key == key
            &&& forall|other: u128|
                other != at ==> #[trigger] after.devices[other] == issuer.devices[other]
            &&& after == (IssuerView { devices: after.devices, ..issuer })
        }),
{
    let at = crate::bytes::block_key(device.0);
    assert(issuer.with_device(device, account, key).devices.dom() =~= issuer.devices.dom().insert(
        at,
    ));
}

/// The last counter of a device is the one that is recorded, and zero if none is; the money
/// online is what all accounts add up to.
pub proof fn lemma_books_are_read_as_they_stand(issuer: IssuerView, device: DeviceId)
    ensures
        ({
            let at = crate::bytes::block_key(device.0);
            &&& issuer.counters.contains_key(at) ==> issuer.last_counter(device)
                == issuer.counters[at]
            &&& !issuer.counters.contains_key(at) ==> issuer.last_counter(device) == 0
            &&& issuer.account_key(device) == crate::bytes::block_key(
                issuer.devices[at].account.0,
            )
            &&& issuer.online() == crate::totals::table_total(issuer.accounts)
        }),
{
}

} // verus!
