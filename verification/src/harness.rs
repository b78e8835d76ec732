//! Whole runs across several devices, with properties that only make sense in
//! aggregate.

use crate::error::Error;
use crate::id::AccountId;
use crate::issuer::{Issuer, IssuerView};
use crate::signature::Keypair;
use crate::text::stands_before;
use crate::wallet::{ElementState, Wallet, WalletView};
use rand::rngs::StdRng;
use vstd::prelude::*;

verus! {

/// Two distinct devices, mutably, out of one slice.
pub fn pair(devices: &mut [Wallet], a: usize, b: usize) -> (r: (&mut Wallet, &mut Wallet))
    requires
        a != b,
        a < old(devices)@.len(),
        b < old(devices)@.len(),
    ensures
        *r.0 == old(devices)@[a as int],
        *r.1 == old(devices)@[b as int],
        final(devices)@ == old(devices)@.update(a as int, *final(r.0)).update(
            b as int,
            *final(r.1),
        ),
{
    if a < b {
        let (left, right) = devices.split_at_mut(b);
        (&mut left[a], &mut right[0])
    } else {
        let (left, right) = devices.split_at_mut(a);
        (&mut right[0], &mut left[b])
    }
}

/// What a run is made with.
pub struct Config {
    pub issuer_key: Keypair,
    pub key_bits: u64,
    pub seed: u64,
    pub limit: u64,
    pub devices: usize,
    pub ops: usize,
}

impl Config {
    /// The issuer's key can sign, and the key size is one that can be generated.
    pub open spec fn usable(&self) -> bool {
        &&& self.issuer_key.verification_key().n > 0
        &&& self.key_bits >= 512
        &&& self.key_bits % 2 == 0
        &&& self.key_bits / 16 + 8 <= isize::MAX
    }
}

/// What is wrong with the parameters of a run.
pub open spec fn parameter_error(key_bits: u64, limit: u64, devices: usize) -> Option<Seq<char>> {
    if key_bits < 512 || key_bits % 2 != 0 {
        Some("--key-bits must be even and at least 512"@)
    } else if limit < 2000 {
        Some(
            "--limit must be at least 2000 cents (the scenarios pay up to 20 \u{20ac})"@,
        )
    } else if devices < 2 {
        Some("--devices must be at least 2"@)
    } else {
        None
    }
}

/// Checks the parameters of a run.
pub fn check_parameters(key_bits: u64, limit: u64, devices: usize) -> (r: Result<(), &'static str>)
    ensures
        r is Ok <==> parameter_error(key_bits, limit, devices) is None,
        r matches Err(message) ==> parameter_error(key_bits, limit, devices) == Some(message@),
{
    if key_bits < 512 || key_bits % 2 != 0 {
        return Err("--key-bits must be even and at least 512");
    }
    if limit < 2000 {
        return Err(
            "--limit must be at least 2000 cents (the scenarios pay up to 20 \u{20ac})",
        );
    }
    if devices < 2 {
        return Err("--devices must be at least 2");
    }
    Ok(())
}

/// A backend and one device per account.
pub struct World {
    pub issuer: Issuer,
    pub accounts: Vec<AccountId>,
    pub devices: Vec<Wallet>,
}

/// A backend and its devices as plain values.
pub struct WorldView {
    pub issuer: IssuerView,
    pub accounts: Seq<AccountId>,
    pub devices: Seq<WalletView>,
}

impl View for World {
    type V = WorldView;

    open spec fn view(&self) -> WorldView {
        WorldView {
            issuer: self.issuer@,
            accounts: self.accounts@,
            devices: self.devices@.map_values(|device: Wallet| device@),
        }
    }
}

/// The table key of a device.
pub open spec fn device_key(device: WalletView) -> u128 {
    crate::bytes::block_key(device.certificate.device.0)
}

impl WorldView {
    /// What holds of every world: issuer and devices are in order and agree on
    /// each other, each device belongs to the account at its place, and no two
    /// devices have the same identifier.
    pub open spec fn well_formed(self) -> bool {
        &&& self.issuer.well_formed()
        &&& self.accounts.len() == self.devices.len()
        &&& forall|i: int|
            0 <= i < self.devices.len() ==> {
                &&& (#[trigger] self.devices[i]).well_formed()
                &&& self.devices[i].key.n > 0
                &&& crate::issuer::linked(self.devices[i], self.issuer)
                &&& self.issuer.devices[device_key(self.devices[i])].account == self.accounts[i]
            }
        &&& forall|i: int, j: int|
            0 <= i < self.devices.len() && 0 <= j < self.devices.len() && i != j ==> device_key(
                #[trigger] self.devices[i],
            ) != device_key(#[trigger] self.devices[j])
    }
}

/// What never changes about a device, and what only grows.
pub open spec fn same_device(before: WalletView, after: WalletView) -> bool {
    &&& after.certificate == before.certificate
    &&& after.key == before.key
    &&& after.private_exponent == before.private_exponent
    &&& after.issuer == before.issuer
    &&& after.state == before.state
    &&& after.counter >= before.counter
}

proof fn lemma_pay_keeps_devices(
    payer: WalletView,
    payee: WalletView,
    amount: u64,
    r: Result<u64, Error>,
    payer_after: WalletView,
    payee_after: WalletView,
)
    requires
        crate::protocol::pay_outcome(payer, payee, amount, r, payer_after, payee_after),
        payer.pays(payee, amount) ==> payer.can_debit(),
    ensures
        same_device(payer, payer_after),
        same_device(payee, payee_after),
{
    if payee.reservation_error(amount) is None {
        let nonce = choose|nonce: [u8; 16]|
            crate::protocol::payment_outcome(
                payer,
                #[trigger] payee.with_request(nonce, amount),
                payee.request_for(nonce, amount),
                r,
                payer_after,
                payee_after,
            );
        assert(same_device(payee, payee.with_request(nonce, amount)));
    }
}

proof fn lemma_fund_keeps_devices(
    wallet: WalletView,
    issuer: IssuerView,
    amount: u64,
    r: Result<u64, Error>,
    wallet_after: WalletView,
    issuer_after: IssuerView,
)
    requires
        crate::protocol::fund_outcome(wallet, issuer, amount, r, wallet_after, issuer_after),
    ensures
        same_device(wallet, wallet_after),
        issuer_after.key == issuer.key,
        issuer_after.devices == issuer.devices,
        issuer_after.counters == issuer.counters,
{
    if wallet.reservation_error(amount) is None {
        let nonce = choose|nonce: [u8; 16]|
            crate::protocol::funding_outcome(
                #[trigger] wallet.with_funding(nonce, amount),
                issuer,
                wallet.funding_for(nonce, amount),
                r,
                wallet_after,
                issuer_after,
            );
        assert(same_device(wallet, wallet.with_funding(nonce, amount)));
    }
}

/// A world in which one device and the issuer have changed.
pub open spec fn with_one(before: WorldView, after: WorldView, a: int) -> bool {
    &&& after.accounts == before.accounts
    &&& after.devices == before.devices.update(a, after.devices[a])
}

/// A world in which two devices have changed.
pub open spec fn with_two(before: WorldView, after: WorldView, a: int, b: int) -> bool {
    &&& after.issuer == before.issuer
    &&& after.accounts == before.accounts
    &&& after.devices == before.devices.update(a, after.devices[a]).update(b, after.devices[b])
}

impl World {
    /// Moves value from the account of a device onto it.
    pub fn fund(&mut self, a: usize, amount: u64) -> (r: Result<u64, Error>)
        requires
            old(self)@.well_formed(),
            a < old(self)@.devices.len(),
        ensures
            final(self)@.well_formed(),
            with_one(old(self)@, final(self)@, a as int),
            same_device(old(self)@.devices[a as int], final(self)@.devices[a as int]),
            crate::protocol::fund_outcome(
                old(self)@.devices[a as int],
                old(self)@.issuer,
                amount,
                r,
                final(self)@.devices[a as int],
                final(self)@.issuer,
            ),
    {
        proof {
            assert(self@.devices[a as int] == self.devices@[a as int]@);
        }
        let r: Result<u64, Error> = crate::protocol::fund(
            &mut self.devices[a],
            &mut self.issuer,
            amount,
        );
        proof {
            assert(self@.devices =~= old(self)@.devices.update(a as int, self.devices@[a as int]@));
            lemma_fund_keeps_devices(
                old(self)@.devices[a as int],
                old(self)@.issuer,
                amount,
                r,
                self@.devices[a as int],
                self@.issuer,
            );
        }
        r
    }

    /// Moves value from a device back to its account.
    pub fn defund(&mut self, a: usize, amount: u64) -> (r: Result<u64, Error>)
        requires
            old(self)@.well_formed(),
            a < old(self)@.devices.len(),
            ready(old(self)@, Operation::Defund { device: a, amount }),
        ensures
            final(self)@.well_formed(),
            with_one(old(self)@, final(self)@, a as int),
            same_device(old(self)@.devices[a as int], final(self)@.devices[a as int]),
            crate::protocol::defund_outcome(
                old(self)@.devices[a as int],
                old(self)@.issuer,
                amount,
                r,
                final(self)@.devices[a as int],
                final(self)@.issuer,
            ),
    {
        proof {
            assert(self@.devices[a as int] == self.devices@[a as int]@);
        }
        let r: Result<u64, Error> = crate::protocol::defund(
            &mut self.devices[a],
            &mut self.issuer,
            amount,
        );
        proof {
            assert(self@.devices =~= old(self)@.devices.update(a as int, self.devices@[a as int]@));
        }
        r
    }

    /// Pays from one device to another.
    pub fn pay(&mut self, a: usize, b: usize, amount: u64) -> (r: Result<u64, Error>)
        requires
            old(self)@.well_formed(),
            a != b,
            a < old(self)@.devices.len(),
            b < old(self)@.devices.len(),
            ready(old(self)@, Operation::Pay { payer: a, payee: b, amount }),
        ensures
            final(self)@.well_formed(),
            with_two(old(self)@, final(self)@, a as int, b as int),
            same_device(old(self)@.devices[a as int], final(self)@.devices[a as int]),
            same_device(old(self)@.devices[b as int], final(self)@.devices[b as int]),
            crate::protocol::pay_outcome(
                old(self)@.devices[a as int],
                old(self)@.devices[b as int],
                amount,
                r,
                final(self)@.devices[a as int],
                final(self)@.devices[b as int],
            ),
    {
        proof {
            assert(self@.devices[a as int] == self.devices@[a as int]@);
            assert(self@.devices[b as int] == self.devices@[b as int]@);
        }
        let (payer, payee) = pair(self.devices.as_mut_slice(), a, b);
        let r: Result<u64, Error> = crate::protocol::pay(payer, payee, amount);
        proof {
            assert(self@.devices =~= old(self)@.devices.update(
                a as int,
                self.devices@[a as int]@,
            ).update(b as int, self.devices@[b as int]@));
            lemma_pay_keeps_devices(
                old(self)@.devices[a as int],
                old(self)@.devices[b as int],
                amount,
                r,
                self@.devices[a as int],
                self@.devices[b as int],
            );
        }
        r
    }
}

// ---------------------------------------------------------------------------
// Building a world
// ---------------------------------------------------------------------------

/// A world as it is built: nothing is on the devices, each of them has this
/// holding limit and a key of this width, and an account holds what it was opened
/// with unless a later one has the same identifier.
pub open spec fn opened(world: WorldView, limit: u64, bits: u64, balances: Seq<u64>) -> bool {
    &&& world.accounts.len() == balances.len()
    &&& world.issuer.float == 0
    &&& world.issuer.honoured == Set::<u128>::empty()
    &&& forall|i: int|
        0 <= i < world.devices.len() ==> crate::protocol::fresh_wallet(
            #[trigger] world.devices[i],
        ) && world.devices[i].certificate.holding_limit_cents == limit
            && crate::signature::generated_key(
            world.devices[i].key,
            world.devices[i].private_exponent,
            bits as nat,
        )
    &&& forall|i: int|
        0 <= i < world.accounts.len() ==> world.issuer.accounts.contains_key(
            crate::bytes::block_key((#[trigger] world.accounts[i]).0),
        )
    &&& forall|i: int|
        0 <= i < world.accounts.len() && (forall|j: int|
            i < j < world.accounts.len() ==> world.accounts[j] != world.accounts[i])
            ==> world.issuer.accounts[crate::bytes::block_key((#[trigger] world.accounts[i]).0)]
            == balances[i]
}

/// The seed of the generator of the device at a place.
pub fn device_seed(seed: u64, index: usize) -> (r: u64)
    requires
        index < usize::MAX,
    ensures
        r == seed ^ (((index + 1) as u64) << 32),
{
    seed ^ ((index as u64 + 1) << 32)
}

/// The seed of the world of a random run.
pub fn run_world_seed(seed: u64) -> (r: u64)
    ensures
        r == seed ^ 0xf022,
{
    seed ^ 0xf022
}

/// The seed of the operations of a random run.
pub fn run_operations_seed(seed: u64) -> (r: u64)
    ensures
        r == seed ^ 0x5eed,
{
    seed ^ 0x5eed
}

/// Opens one account with each of the balances, and enrols a device for it. The
/// issuer key is that of the configuration: runs need independent ledgers, not
/// independent Eurosystems.
pub fn world(cfg: &Config, seed: u64, balances: &[u64]) -> (r: Result<World, Error>)
    requires
        cfg.usable(),
    ensures
        r matches Ok(world) ==> {
            &&& world@.well_formed()
            &&& world@.issuer.key == cfg.issuer_key.verification_key()
            &&& world@.issuer.private_exponent == cfg.issuer_key.private_exponent()
            &&& opened(world@, cfg.limit, cfg.key_bits, balances@)
        },
        r matches Err(error) ==> error == Error::EntropyExhausted || (error
            == Error::InvalidCertificate && !crate::signature::sound_key(
            cfg.issuer_key.verification_key(),
            cfg.issuer_key.private_exponent(),
        )),
        balances@.len() == 0 ==> r is Ok,
{
    let mut rng: StdRng = crate::random::seeded(seed);
    let mut w = World {
        issuer: Issuer::new(cfg.issuer_key.clone()),
        accounts: Vec::new(),
        devices: Vec::new(),
    };
    let mut index: usize = 0;
    while index < balances.len()
        invariant
            index <= balances@.len(),
            cfg.usable(),
            w@.well_formed(),
            w@.issuer.key == cfg.issuer_key.verification_key(),
            w@.issuer.private_exponent == cfg.issuer_key.private_exponent(),
            opened(w@, cfg.limit, cfg.key_bits, balances@.take(index as int)),
        decreases balances.len() - index,
    {
        let ghost before = w@;
        let account: AccountId = AccountId(crate::random::draw_nonce(&mut rng));
        w.issuer.open_account(account, balances[index]);
        let ghost paid_in = w.issuer@;
        let device: Wallet = match crate::protocol::enrol(
            &mut w.issuer,
            account,
            cfg.limit,
            cfg.key_bits,
            crate::random::seeded(device_seed(seed, index)),
            &mut rng,
        ) {
            Ok(device) => device,
            Err(error) => {
                return Err(error);
            },
        };
        let ghost enrolled = device@;
        w.accounts.push(account);
        w.devices.push(device);
        proof {
            assert(w@.devices =~= before.devices.push(enrolled));
            lemma_world_grows(before, w@, paid_in, enrolled, account, balances@[index as int]);
            lemma_opened_grows(
                before,
                w@,
                enrolled,
                account,
                cfg.limit,
                cfg.key_bits,
                balances@.take(index as int),
                balances@[index as int],
            );
            assert(balances@.take(index + 1) =~= balances@.take(index as int).push(
                balances@[index as int],
            ));
        }
        index = index + 1;
    }
    proof {
        assert(balances@.take(index as int) =~= balances@);
    }
    Ok(w)
}

proof fn lemma_world_grows(
    before: WorldView,
    after: WorldView,
    paid_in: IssuerView,
    device: WalletView,
    account: AccountId,
    balance: u64,
)
    requires
        before.well_formed(),
        paid_in == (IssuerView {
            accounts: before.issuer.accounts.insert(
                crate::bytes::block_key(account.0),
                balance,
            ),
            ..before.issuer
        }),
        paid_in.well_formed(),
        !paid_in.devices.contains_key(device_key(device)),
        device.well_formed(),
        device.key.n > 0,
        device.issuer == paid_in.key,
        after.issuer == paid_in.with_device(device.certificate.device, account, device.key),
        after.issuer.well_formed(),
        after.devices == before.devices.push(device),
        after.accounts == before.accounts.push(account),
    ensures
        after.well_formed(),
{
    crate::protocol::lemma_enrolled_device_is_linked(device, paid_in, account);
    let n = before.devices.len() as int;
    assert forall|i: int| 0 <= i < n implies device_key(#[trigger] before.devices[i])
        != device_key(device) by {
        assert(crate::issuer::linked(before.devices[i], before.issuer));
    }
    assert forall|i: int| 0 <= i < after.devices.len() implies {
        &&& (#[trigger] after.devices[i]).well_formed()
        &&& after.devices[i].key.n > 0
        &&& crate::issuer::linked(after.devices[i], after.issuer)
        &&& after.issuer.devices[device_key(after.devices[i])].account == after.accounts[i]
    } by {
        if i < n {
            assert(after.devices[i] == before.devices[i]);
            assert(crate::issuer::linked(before.devices[i], before.issuer));
        }
    }
    assert forall|i: int, j: int|
        0 <= i < after.devices.len() && 0 <= j < after.devices.len() && i != j implies device_key(
        #[trigger] after.devices[i],
    ) != device_key(#[trigger] after.devices[j]) by {
        if i < n {
            assert(after.devices[i] == before.devices[i]);
        }
        if j < n {
            assert(after.devices[j] == before.devices[j]);
        }
    }
}

proof fn lemma_opened_grows(
    before: WorldView,
    after: WorldView,
    device: WalletView,
    account: AccountId,
    limit: u64,
    bits: u64,
    balances: Seq<u64>,
    balance: u64,
)
    requires
        opened(before, limit, bits, balances),
        after.devices == before.devices.push(device),
        after.accounts == before.accounts.push(account),
        after.issuer.accounts == before.issuer.accounts.insert(
            crate::bytes::block_key(account.0),
            balance,
        ),
        after.issuer.float == before.issuer.float,
        after.issuer.honoured == before.issuer.honoured,
        crate::protocol::fresh_wallet(device),
        device.certificate.holding_limit_cents == limit,
        crate::signature::generated_key(device.key, device.private_exponent, bits as nat),
    ensures
        opened(after, limit, bits, balances.push(balance)),
{
    let n = before.accounts.len() as int;
    let all = balances.push(balance);
    assert forall|i: int|
        0 <= i < after.accounts.len() && (forall|j: int|
            i < j < after.accounts.len() ==> after.accounts[j]
                != after.accounts[i]) implies after.issuer.accounts[crate::bytes::block_key(
        (#[trigger] after.accounts[i]).0,
    )] == all[i] by {
        if i < n {
            assert(after.accounts[i] == before.accounts[i]);
            assert(after.accounts[n] == account);
            if crate::bytes::block_key(account.0) == crate::bytes::block_key(
                before.accounts[i].0,
            ) {
                crate::bytes::lemma_block_key_injective(account.0, before.accounts[i].0);
            }
            assert forall|j: int| i < j < before.accounts.len() implies before.accounts[j]
                != before.accounts[i] by {
                assert(after.accounts[j] == before.accounts[j]);
            }
        }
    }
    assert forall|i: int|
        0 <= i < after.accounts.len() implies after.issuer.accounts.contains_key(
        crate::bytes::block_key((#[trigger] after.accounts[i]).0),
    ) by {
        if i < n {
            assert(after.accounts[i] == before.accounts[i]);
        }
    }
    assert forall|i: int| 0 <= i < after.devices.len() implies crate::protocol::fresh_wallet(
        #[trigger] after.devices[i],
    ) && after.devices[i].certificate.holding_limit_cents == limit
        && crate::signature::generated_key(
        after.devices[i].key,
        after.devices[i].private_exponent,
        bits as nat,
    ) by {
        if i < before.devices.len() {
            assert(after.devices[i] == before.devices[i]);
        }
    }
}

// ---------------------------------------------------------------------------
// Snapshots and invariants
// ---------------------------------------------------------------------------

/// Balances and reservations of every device, every online account, and the
/// float.
#[derive(Debug, PartialEq, Eq)]
pub struct Snapshot {
    pub devices: Vec<(u64, u64)>,
    pub accounts: Vec<Option<u64>>,
    pub float: i128,
}

/// What is on an account, if the issuer holds it.
pub open spec fn account_balance(issuer: IssuerView, account: AccountId) -> Option<u64> {
    let key = crate::bytes::block_key(account.0);
    if issuer.accounts.contains_key(key) {
        Some(issuer.accounts[key])
    } else {
        None
    }
}

/// What a snapshot of a world shows: balance and reservations of every device,
/// every online account, and the float.
pub open spec fn picture(world: WorldView) -> (Seq<(u64, u64)>, Seq<Option<u64>>, i128) {
    (
        world.devices.map_values(
            |device: WalletView| (device.balance, device.reserved() as u64),
        ),
        world.accounts.map_values(
            |account: AccountId| account_balance(world.issuer, account),
        ),
        world.issuer.float,
    )
}

impl View for Snapshot {
    type V = (Seq<(u64, u64)>, Seq<Option<u64>>, i128);

    open spec fn view(&self) -> (Seq<(u64, u64)>, Seq<Option<u64>>, i128) {
        (self.devices@, self.accounts@, self.float)
    }
}

/// The reservations of every device can be added up.
pub open spec fn countable(world: WorldView) -> bool {
    forall|i: int|
        0 <= i < world.devices.len() ==> (#[trigger] world.devices[i]).reserved() <= u64::MAX
}

/// Balances and reservations of every device, and every online account.
pub fn snapshot(w: &World) -> (r: Snapshot)
    requires
        countable(w@),
    ensures
        r@ == picture(w@),
{
    let mut devices: Vec<(u64, u64)> = Vec::new();
    let mut i: usize = 0;
    while i < w.devices.len()
        invariant
            i <= w.devices@.len(),
            countable(w@),
            devices@.len() == i,
            forall|j: int|
                0 <= j < i ==> #[trigger] devices@[j] == (
                    w@.devices[j].balance,
                    w@.devices[j].reserved() as u64,
                ),
        decreases w.devices.len() - i,
    {
        proof {
            assert(w@.devices[i as int] == w.devices@[i as int]@);
        }
        devices.push((w.devices[i].balance(), w.devices[i].reserved()));
        i = i + 1;
    }
    let mut accounts: Vec<Option<u64>> = Vec::new();
    let mut k: usize = 0;
    while k < w.accounts.len()
        invariant
            k <= w.accounts@.len(),
            accounts@.len() == k,
            forall|j: int|
                0 <= j < k ==> #[trigger] accounts@[j] == account_balance(
                    w@.issuer,
                    w@.accounts[j],
                ),
        decreases w.accounts.len() - k,
    {
        accounts.push(w.issuer.balance_of(&w.accounts[k]));
        k = k + 1;
    }
    let r = Snapshot { devices, accounts, float: w.issuer.offline_float() };
    proof {
        assert(r.devices@ =~= w@.devices.map_values(
            |device: WalletView| (device.balance, device.reserved() as u64),
        ));
        assert(r.accounts@ =~= w@.accounts.map_values(
            |account: AccountId| account_balance(w@.issuer, account),
        ));
    }
    r
}

impl Snapshot {
    /// Whether two snapshots show the same.
    pub fn same(&self, other: &Snapshot) -> (r: bool)
        ensures
            r == (self@ == other@),
    {
        if self.float != other.float || self.devices.len() != other.devices.len()
            || self.accounts.len() != other.accounts.len() {
            return false;
        }
        let mut i: usize = 0;
        while i < self.devices.len()
            invariant
                i <= self.devices@.len(),
                self.devices@.len() == other.devices@.len(),
                forall|j: int| 0 <= j < i ==> self.devices@[j] == other.devices@[j],
            decreases self.devices.len() - i,
        {
            let (balance, reserved) = self.devices[i];
            let (other_balance, other_reserved) = other.devices[i];
            if balance != other_balance || reserved != other_reserved {
                return false;
            }
            i = i + 1;
        }
        let mut k: usize = 0;
        while k < self.accounts.len()
            invariant
                k <= self.accounts@.len(),
                self.accounts@.len() == other.accounts@.len(),
                forall|j: int| 0 <= j < k ==> self.accounts@[j] == other.accounts@[j],
            decreases self.accounts.len() - k,
        {
            let same: bool = match (self.accounts[k], other.accounts[k]) {
                (Some(a), Some(b)) => a == b,
                (None, None) => true,
                _ => false,
            };
            if !same {
                return false;
            }
            k = k + 1;
        }
        proof {
            assert(self.devices@ =~= other.devices@);
            assert(self.accounts@ =~= other.accounts@);
        }
        true
    }
}

/// The value on all devices.
pub open spec fn value_on(devices: Seq<WalletView>) -> nat
    decreases devices.len(),
{
    if devices.len() == 0 {
        0
    } else {
        value_on(devices.drop_last()) + devices.last().balance as nat
    }
}

/// The money on these accounts; one that the issuer does not hold counts for
/// nothing.
pub open spec fn money_on(issuer: IssuerView, accounts: Seq<AccountId>) -> nat
    decreases accounts.len(),
{
    if accounts.len() == 0 {
        0
    } else {
        money_on(issuer, accounts.drop_last()) + match account_balance(issuer, accounts.last()) {
            Some(balance) => balance as nat,
            None => 0,
        }
    }
}

/// What is wrong with a world.
#[derive(Clone, Copy, Debug, PartialEq, Eq)]
pub enum Violation {
    /// A device holds more than its limit.
    OverLimit { device: usize, balance: u64 },
    /// A device has kept a reservation.
    Dangling { device: usize },
    /// The value on devices is not what the float says.
    FloatOff { on_devices: u128, float: i128 },
    /// There is more, or less, money than there was.
    SupplyMoved { online: u128, on_devices: u128 },
}

/// What is wrong with the first device, from a place on, with which anything is.
pub open spec fn device_violation(devices: Seq<WalletView>, limit: u64, place: int) -> Option<
    Violation,
>
    decreases devices.len() - place,
{
    if place < 0 || place >= devices.len() {
        None
    } else if devices[place].balance > limit {
        Some(Violation::OverLimit { device: place as usize, balance: devices[place].balance })
    } else if devices[place].reserved() != 0 {
        Some(Violation::Dangling { device: place as usize })
    } else {
        device_violation(devices, limit, place + 1)
    }
}

/// What is wrong with a world that should hold so much money.
pub open spec fn violation(world: WorldView, limit: u64, money: u128) -> Option<Violation> {
    let on_devices = value_on(world.devices);
    let online = money_on(world.issuer, world.accounts);
    match device_violation(world.devices, limit, 0) {
        Some(found) => Some(found),
        None => {
            if on_devices != world.issuer.float {
                Some(
                    Violation::FloatOff {
                        on_devices: on_devices as u128,
                        float: world.issuer.float,
                    },
                )
            } else if online + on_devices != money {
                Some(
                    Violation::SupplyMoved {
                        online: online as u128,
                        on_devices: on_devices as u128,
                    },
                )
            } else {
                None
            }
        },
    }
}

pub fn value_on_devices(w: &World) -> (r: u128)
    ensures
        r == value_on(w@.devices),
{
    let mut sum: u128 = 0;
    let mut i: usize = 0;
    while i < w.devices.len()
        invariant
            i <= w.devices@.len(),
            w@.devices.len() == w.devices@.len(),
            sum == value_on(w@.devices.take(i as int)),
            sum <= i * u64::MAX,
        decreases w.devices.len() - i,
    {
        proof {
            assert(w@.devices.take(i + 1).drop_last() =~= w@.devices.take(i as int));
            assert(w@.devices[i as int] == w.devices@[i as int]@);
            assert((i + 1) * u64::MAX == i * u64::MAX + u64::MAX && (i + 1) * u64::MAX
                <= u128::MAX) by (nonlinear_arith)
                requires
                    i < usize::MAX,
            ;
        }
        sum = sum + w.devices[i].balance() as u128;
        i = i + 1;
    }
    proof {
        assert(w@.devices.take(i as int) =~= w@.devices);
    }
    sum
}

pub fn money_on_accounts(w: &World) -> (r: u128)
    ensures
        r == money_on(w@.issuer, w@.accounts),
{
    let mut sum: u128 = 0;
    let mut i: usize = 0;
    while i < w.accounts.len()
        invariant
            i <= w.accounts@.len(),
            sum == money_on(w@.issuer, w@.accounts.take(i as int)),
            sum <= i * u64::MAX,
        decreases w.accounts.len() - i,
    {
        let balance: u64 = match w.issuer.balance_of(&w.accounts[i]) {
            Some(balance) => balance,
            None => 0,
        };
        proof {
            assert(w@.accounts.take(i + 1).drop_last() =~= w@.accounts.take(i as int));
            assert((i + 1) * u64::MAX == i * u64::MAX + u64::MAX && (i + 1) * u64::MAX
                <= u128::MAX) by (nonlinear_arith)
                requires
                    i < usize::MAX,
            ;
        }
        sum = sum + balance as u128;
        i = i + 1;
    }
    proof {
        assert(w@.accounts.take(i as int) =~= w@.accounts);
    }
    sum
}

/// Checks that no device exceeds the limit or keeps a reservation, that the value
/// on devices is what the float says, and that all money is accounted for.
pub fn check_invariants(w: &World, limit: u64, money: u128) -> (r: Result<(), Violation>)
    requires
        countable(w@),
    ensures
        r is Ok <==> violation(w@, limit, money) is None,
        r matches Err(found) ==> violation(w@, limit, money) == Some(found),
{
    let mut index: usize = 0;
    while index < w.devices.len()
        invariant
            index <= w.devices@.len(),
            countable(w@),
            w@.devices.len() == w.devices@.len(),
            device_violation(w@.devices, limit, 0) == device_violation(
                w@.devices,
                limit,
                index as int,
            ),
        decreases w.devices.len() - index,
    {
        proof {
            assert(w@.devices[index as int] == w.devices@[index as int]@);
        }
        let balance: u64 = w.devices[index].balance();
        if balance > limit {
            return Err(Violation::OverLimit { device: index, balance });
        }
        if w.devices[index].reserved() != 0 {
            return Err(Violation::Dangling { device: index });
        }
        index = index + 1;
    }
    let on_devices: u128 = value_on_devices(w);
    let float: i128 = w.issuer.offline_float();
    if float < 0 || on_devices != float as u128 {
        return Err(Violation::FloatOff { on_devices, float });
    }
    let online: u128 = money_on_accounts(w);
    if money < on_devices || online != money - on_devices {
        return Err(Violation::SupplyMoved { online, on_devices });
    }
    Ok(())
}

// ---------------------------------------------------------------------------
// Random operations
// ---------------------------------------------------------------------------

/// One operation of a run.
#[derive(Clone, Copy, Debug, PartialEq, Eq)]
pub enum Operation {
    Fund { device: usize, amount: u64 },
    Defund { device: usize, amount: u64 },
    Pay { payer: usize, payee: usize, amount: u64 },
}

/// The operation that a throw of a ten-sided die picks: two sides fund, one
/// defunds, the others pay the device that is so many hops away.
pub open spec fn chosen(devices: usize, a: usize, amount: u64, die: i32, hop: usize) -> Operation {
    if 0 <= die <= 1 {
        Operation::Fund { device: a, amount }
    } else if die == 2 {
        Operation::Defund { device: a, amount }
    } else {
        Operation::Pay { payer: a, payee: ((a + hop) % (devices as int)) as usize, amount }
    }
}

/// Picks an operation.
pub fn choose_operation(devices: usize, a: usize, amount: u64, die: i32, hop: usize) -> (r:
    Operation)
    requires
        a < devices,
        1 <= hop < devices,
    ensures
        r == chosen(devices, a, amount, die, hop),
        operation_fits(r, devices as nat),
{
    if 0 <= die && die <= 1 {
        return Operation::Fund { device: a, amount };
    }
    if die == 2 {
        return Operation::Defund { device: a, amount };
    }
    let left: usize = devices - a;
    let payee: usize = if hop < left {
        a + hop
    } else {
        hop - left
    };
    proof {
        if hop < left {
            vstd::arithmetic::div_mod::lemma_small_mod((a + hop) as nat, devices as nat);
        } else {
            vstd::arithmetic::div_mod::lemma_fundamental_div_mod_converse(
                a + hop,
                devices as int,
                1,
                payee as int,
            );
        }
    }
    Operation::Pay { payer: a, payee, amount }
}

/// The devices of an operation exist, and a payment is between two of them.
pub open spec fn operation_fits(operation: Operation, devices: nat) -> bool {
    match operation {
        Operation::Fund { device, .. } => device < devices,
        Operation::Defund { device, .. } => device < devices,
        Operation::Pay { payer, payee, .. } => payer < devices && payee < devices && payer != payee,
    }
}

/// An operation that would debit a device finds one that can count the debit.
pub open spec fn ready(world: WorldView, operation: Operation) -> bool {
    match operation {
        Operation::Fund { .. } => true,
        Operation::Defund { device, amount } => {
            let a = world.devices[device as int];
            a.debit_error(amount) is None ==> a.can_debit()
        },
        Operation::Pay { payer, payee, amount } => {
            let a = world.devices[payer as int];
            a.pays(world.devices[payee as int], amount) ==> a.can_debit()
        },
    }
}

/// The outcome of an operation on a world.
pub open spec fn operation_outcome(
    before: WorldView,
    operation: Operation,
    r: Result<u64, Error>,
    after: WorldView,
) -> bool {
    match operation {
        Operation::Fund { device, amount } => {
            let a = device as int;
            &&& with_one(before, after, a)
            &&& crate::protocol::fund_outcome(
                before.devices[a],
                before.issuer,
                amount,
                r,
                after.devices[a],
                after.issuer,
            )
        },
        Operation::Defund { device, amount } => {
            let a = device as int;
            &&& with_one(before, after, a)
            &&& crate::protocol::defund_outcome(
                before.devices[a],
                before.issuer,
                amount,
                r,
                after.devices[a],
                after.issuer,
            )
        },
        Operation::Pay { payer, payee, amount } => {
            let a = payer as int;
            let b = payee as int;
            &&& with_two(before, after, a, b)
            &&& crate::protocol::pay_outcome(
                before.devices[a],
                before.devices[b],
                amount,
                r,
                after.devices[a],
                after.devices[b],
            )
        },
    }
}

impl World {
    /// Whether an operation that would debit a device finds one that can count the
    /// debit.
    pub fn is_ready(&self, operation: Operation) -> (r: bool)
        requires
            self@.well_formed(),
            operation_fits(operation, self@.devices.len()),
        ensures
            r == ready(self@, operation),
    {
        match operation {
            Operation::Fund { .. } => true,
            Operation::Defund { device, amount } => {
                proof {
                    assert(self@.devices[device as int] == self.devices@[device as int]@);
                }
                self.devices[device].can_debit() || self.devices[device].judge_debit(
                    amount,
                ).is_some()
            },
            Operation::Pay { payer, payee, amount } => {
                proof {
                    assert(self@.devices[payer as int] == self.devices@[payer as int]@);
                    assert(self@.devices[payee as int] == self.devices@[payee as int]@);
                }
                self.devices[payer].can_debit() || !self.devices[payer].would_pay(
                    &self.devices[payee],
                    amount,
                )
            },
        }
    }

    /// Carries an operation out.
    pub fn apply(&mut self, operation: Operation) -> (r: Result<u64, Error>)
        requires
            old(self)@.well_formed(),
            operation_fits(operation, old(self)@.devices.len()),
            ready(old(self)@, operation),
        ensures
            final(self)@.well_formed(),
            final(self)@.devices.len() == old(self)@.devices.len(),
            operation_outcome(old(self)@, operation, r, final(self)@),
    {
        match operation {
            Operation::Fund { device, amount } => self.fund(device, amount),
            Operation::Defund { device, amount } => self.defund(device, amount),
            Operation::Pay { payer, payee, amount } => self.pay(payer, payee, amount),
        }
    }
}

/// What became of one operation of a run.
#[derive(Clone, Copy, Debug, PartialEq, Eq)]
pub struct Step {
    pub operation: Operation,
    pub result: Result<u64, Error>,
}

/// Why a run was stopped.
#[derive(Clone, Copy, Debug, PartialEq, Eq)]
pub enum FuzzFailure {
    /// The world could not be built.
    Setup { error: Error },
    /// An element cannot count another debit.
    Exhausted { step: usize },
    /// A refused operation has changed something.
    Changed { step: usize, operation: Operation, error: Error },
    /// An invariant does not hold after an operation.
    Broken { step: usize, operation: Operation, violation: Violation },
}

/// What one operation has done to a world: it was carried out, a refusal shows
/// nowhere, and every invariant holds.
pub open spec fn step_holds(
    before: WorldView,
    step: Step,
    after: WorldView,
    limit: u64,
    money: u128,
) -> bool {
    &&& operation_outcome(before, step.operation, step.result, after)
    &&& step.result is Err ==> picture(after) == picture(before)
    &&& violation(after, limit, money) is None
}

/// A run stops at an operation, and leaves this world behind.
pub open spec fn step_fails(
    before: WorldView,
    step: nat,
    operation: Operation,
    limit: u64,
    money: u128,
    failure: FuzzFailure,
    after: WorldView,
) -> bool {
    match failure {
        FuzzFailure::Exhausted { step: at } => {
            &&& at == step
            &&& after == before
            &&& !ready(before, operation)
        },
        FuzzFailure::Changed { step: at, operation: op, error } => {
            &&& at == step
            &&& op == operation
            &&& ready(before, operation)
            &&& operation_outcome(before, operation, Err(error), after)
            &&& picture(after) != picture(before)
        },
        FuzzFailure::Broken { step: at, operation: op, violation: found } => {
            &&& at == step
            &&& op == operation
            &&& ready(before, operation)
            &&& exists|r: Result<u64, Error>| #[trigger]
                operation_outcome(before, operation, r, after)
            &&& violation(after, limit, money) == Some(found)
        },
        FuzzFailure::Setup { .. } => false,
    }
}

/// Carries one operation out and checks every invariant after it.
pub fn fuzz_step(w: &mut World, step: usize, operation: Operation, limit: u64, money: u128) -> (r:
    Result<Step, FuzzFailure>)
    requires
        old(w)@.well_formed(),
        operation_fits(operation, old(w)@.devices.len()),
    ensures
        final(w)@.well_formed(),
        final(w)@.devices.len() == old(w)@.devices.len(),
        match r {
            Ok(done) => done.operation == operation && step_holds(
                old(w)@,
                done,
                final(w)@,
                limit,
                money,
            ),
            Err(failure) => step_fails(
                old(w)@,
                step as nat,
                operation,
                limit,
                money,
                failure,
                final(w)@,
            ),
        },
{
    let before: Snapshot = snapshot(w);
    if !w.is_ready(operation) {
        return Err(FuzzFailure::Exhausted { step });
    }
    let result: Result<u64, Error> = w.apply(operation);
    if let Err(error) = result {
        let after: Snapshot = snapshot(w);
        if !after.same(&before) {
            return Err(FuzzFailure::Changed { step, operation, error });
        }
    }
    match check_invariants(w, limit, money) {
        Ok(_) => Ok(Step { operation, result }),
        Err(violation) => Err(FuzzFailure::Broken { step, operation, violation }),
    }
}

/// The online balance that every account of a random run is opened with.
pub open spec fn opening_balance(limit: u64) -> nat {
    (3 * limit as nat) / 2
}

/// The amount that an operation moves.
pub open spec fn operation_amount(operation: Operation) -> u64 {
    match operation {
        Operation::Fund { amount, .. } => amount,
        Operation::Defund { amount, .. } => amount,
        Operation::Pay { amount, .. } => amount,
    }
}

/// An operation as a random run draws it: between devices of the run, and of at
/// most half the holding limit.
pub open spec fn drawn(operation: Operation, devices: usize, limit: u64) -> bool {
    &&& operation_fits(operation, devices as nat)
    &&& 1 <= operation_amount(operation) <= limit / 2
}

/// The money in a random run.
pub open spec fn money_in_run(limit: u64, devices: usize) -> u128 {
    (opening_balance(limit) * devices) as u128
}

/// The money in a random run.
pub fn run_money(limit: u64, devices: usize) -> (r: u128)
    requires
        3 * limit <= u64::MAX,
    ensures
        r == money_in_run(limit, devices),
        r == opening_balance(limit) * devices,
{
    let opening: u64 = 3 * limit / 2;
    proof {
        assert(opening as nat * devices as nat <= u128::MAX) by (nonlinear_arith)
            requires
                opening <= u64::MAX,
                devices <= u64::MAX,
        ;
    }
    opening as u128 * devices as u128
}

/// One world leads to the next by the step at its place.
pub open spec fn ran_at(
    worlds: Seq<WorldView>,
    steps: Seq<Step>,
    devices: usize,
    limit: u64,
    i: int,
) -> bool {
    &&& drawn(steps[i].operation, devices, limit)
    &&& step_holds(worlds[i], steps[i], worlds[i + 1], limit, money_in_run(limit, devices))
}

/// The worlds of a run: the first was just opened, and each step held.
#[verifier::opaque]
pub open spec fn ran(
    worlds: Seq<WorldView>,
    steps: Seq<Step>,
    devices: usize,
    limit: u64,
    bits: u64,
) -> bool {
    &&& worlds.len() == steps.len() + 1
    &&& worlds[0].well_formed()
    &&& opened(
        worlds[0],
        limit,
        bits,
        Seq::new(devices as nat, |i: int| opening_balance(limit) as u64),
    )
    &&& forall|i: int|
        0 <= i < steps.len() ==> #[trigger] ran_at(worlds, steps, devices, limit, i)
}

proof fn lemma_ran_on(
    worlds: Seq<WorldView>,
    steps: Seq<Step>,
    devices: usize,
    limit: u64,
    bits: u64,
    step: Step,
    after: WorldView,
)
    requires
        ran(worlds, steps, devices, limit, bits),
        drawn(step.operation, devices, limit),
        step_holds(worlds.last(), step, after, limit, money_in_run(limit, devices)),
    ensures
        ran(worlds.push(after), steps.push(step), devices, limit, bits),
{
    reveal(ran);
    let all = worlds.push(after);
    let done = steps.push(step);
    assert forall|i: int| 0 <= i < done.len() implies #[trigger] ran_at(
        all,
        done,
        devices,
        limit,
        i,
    ) by {
        if i < steps.len() {
            assert(ran_at(worlds, steps, devices, limit, i));
        }
    }
}

proof fn lemma_ran_not(world: WorldView, devices: usize, limit: u64, bits: u64, balances: Seq<u64>)
    requires
        world.well_formed(),
        opened(world, limit, bits, balances),
        balances.len() == devices,
        forall|i: int| 0 <= i < balances.len() ==> balances[i] == opening_balance(limit) as u64,
    ensures
        ran(seq![world], Seq::empty(), devices, limit, bits),
{
    reveal(ran);
    assert(balances =~= Seq::new(devices as nat, |i: int| opening_balance(limit) as u64));
}

/// A run of these steps has led to a world.
#[verifier::opaque]
pub open spec fn completed(
    devices: usize,
    limit: u64,
    bits: u64,
    steps: Seq<Step>,
    world: WorldView,
) -> bool {
    exists|worlds: Seq<WorldView>| #[trigger]
        ran(worlds, steps, devices, limit, bits) && worlds.last() == world
}

proof fn lemma_completed(
    worlds: Seq<WorldView>,
    steps: Seq<Step>,
    devices: usize,
    limit: u64,
    bits: u64,
)
    requires
        ran(worlds, steps, devices, limit, bits),
    ensures
        completed(devices, limit, bits, steps, worlds.last()),
{
    reveal(completed);
}

/// After some steps that held, an operation failed.
#[verifier::opaque]
pub open spec fn stopped(devices: usize, limit: u64, bits: u64, failure: FuzzFailure) -> bool {
    exists|
        worlds: Seq<WorldView>,
        steps: Seq<Step>,
        operation: Operation,
        after: WorldView,
    |
        {
            &&& #[trigger] ran(worlds, steps, devices, limit, bits)
            &&& drawn(operation, devices, limit)
            &&& #[trigger] step_fails(
                worlds.last(),
                steps.len(),
                operation,
                limit,
                money_in_run(limit, devices),
                failure,
                after,
            )
        }
}

proof fn lemma_stopped(
    worlds: Seq<WorldView>,
    steps: Seq<Step>,
    operation: Operation,
    after: WorldView,
    devices: usize,
    limit: u64,
    bits: u64,
    failure: FuzzFailure,
)
    requires
        ran(worlds, steps, devices, limit, bits),
        drawn(operation, devices, limit),
        step_fails(
            worlds.last(),
            steps.len(),
            operation,
            limit,
            money_in_run(limit, devices),
            failure,
            after,
        ),
    ensures
        stopped(devices, limit, bits, failure),
        !(failure is Setup),
{
    reveal(stopped);
}

/// Draws an operation for a run.
fn draw_operation(rng: &mut StdRng, devices: usize, limit: u64) -> (r: Operation)
    requires
        devices >= 2,
        limit >= 2,
    ensures
        drawn(r, devices, limit),
{
    let a: u64 = crate::random::draw_between(rng, 0, devices as u64);
    // Amounts up to half the limit, so every kind of refusal gets hit.
    let amount: u64 = crate::random::draw_between(rng, 1, limit / 2 + 1);
    let die: i32 = crate::random::draw_die(rng, 10);
    let hop: u64 = if die > 2 {
        crate::random::draw_between(rng, 1, devices as u64)
    } else {
        1
    };
    choose_operation(devices, a as usize, amount, die, hop as usize)
}

/// Random fundings, payments, and defundings across many honest devices, with
/// every invariant checked after every operation:
///
/// * no device ever exceeds its holding limit;
/// * value on devices equals the issuer's offline float;
/// * online balances plus the float equal the money that existed at the start;
/// * a refused operation changes nothing, anywhere.
pub fn fuzz(cfg: &Config) -> (r: Result<(World, Vec<Step>), FuzzFailure>)
    requires
        cfg.usable(),
        cfg.devices >= 2,
        2 <= cfg.limit,
        3 * cfg.limit <= u64::MAX,
    ensures
        match r {
            Ok(run) => {
                &&& run.0@.well_formed()
                &&& run.0@.devices.len() == cfg.devices
                &&& run.1@.len() == cfg.ops
                &&& cfg.ops > 0 ==> violation(
                    run.0@,
                    cfg.limit,
                    money_in_run(cfg.limit, cfg.devices),
                ) is None
                &&& completed(cfg.devices, cfg.limit, cfg.key_bits, run.1@, run.0@)
            },
            Err(FuzzFailure::Setup { error }) => {
                ||| error == Error::EntropyExhausted
                ||| error == Error::InvalidCertificate && !crate::signature::sound_key(
                    cfg.issuer_key.verification_key(),
                    cfg.issuer_key.private_exponent(),
                )
            },
            Err(failure) => stopped(cfg.devices, cfg.limit, cfg.key_bits, failure),
        },
{
    let opening: u64 = 3 * cfg.limit / 2;
    let mut balances: Vec<u64> = Vec::new();
    while balances.len() < cfg.devices
        invariant
            balances@.len() <= cfg.devices,
            forall|i: int| 0 <= i < balances@.len() ==> balances@[i] == opening,
        decreases cfg.devices - balances.len(),
    {
        balances.push(opening);
    }
    let mut w: World = match world(cfg, run_world_seed(cfg.seed), balances.as_slice()) {
        Ok(w) => w,
        Err(error) => {
            return Err(FuzzFailure::Setup { error });
        },
    };
    let money: u128 = run_money(cfg.limit, cfg.devices);
    let ghost mut worlds: Seq<WorldView> = seq![w@];
    proof {
        lemma_ran_not(w@, cfg.devices, cfg.limit, cfg.key_bits, balances@);
    }
    let mut rng: StdRng = crate::random::seeded(run_operations_seed(cfg.seed));
    let mut steps: Vec<Step> = Vec::new();
    while steps.len() < cfg.ops
        invariant
            steps@.len() <= cfg.ops,
            cfg.devices >= 2,
            2 <= cfg.limit,
            w@.well_formed(),
            w@.devices.len() == cfg.devices,
            money == money_in_run(cfg.limit, cfg.devices),
            steps@.len() > 0 ==> violation(w@, cfg.limit, money) is None,
            ran(worlds, steps@, cfg.devices, cfg.limit, cfg.key_bits),
            worlds.last() == w@,
        decreases cfg.ops - steps.len(),
    {
        let operation: Operation = draw_operation(&mut rng, cfg.devices, cfg.limit);
        let at: usize = steps.len();
        let ghost done = steps@;
        match fuzz_step(&mut w, at, operation, cfg.limit, money) {
            Ok(step) => {
                proof {
                    lemma_ran_on(worlds, done, cfg.devices, cfg.limit, cfg.key_bits, step, w@);
                    worlds = worlds.push(w@);
                }
                steps.push(step);
            },
            Err(failure) => {
                proof {
                    lemma_stopped(
                        worlds,
                        done,
                        operation,
                        w@,
                        cfg.devices,
                        cfg.limit,
                        cfg.key_bits,
                        failure,
                    );
                }
                return Err(failure);
            },
        }
    }
    proof {
        lemma_completed(worlds, steps@, cfg.devices, cfg.limit, cfg.key_bits);
        assert(steps@.len() == cfg.ops);
    }
    Ok((w, steps))
}

// ---------------------------------------------------------------------------
// Runs in words
// ---------------------------------------------------------------------------

/// What an operation is called.
pub open spec fn operation_kind(operation: Operation) -> Seq<char> {
    match operation {
        Operation::Fund { .. } => "fund"@,
        Operation::Defund { .. } => "defund"@,
        Operation::Pay { .. } => "pay"@,
    }
}

impl Operation {
    /// What the operation is called.
    pub fn kind(&self) -> (r: &'static str)
        ensures
            r@ == operation_kind(*self),
    {
        match self {
            Operation::Fund { .. } => "fund",
            Operation::Defund { .. } => "defund",
            Operation::Pay { .. } => "pay",
        }
    }
}

/// What a step is counted under.
pub open spec fn step_label(step: Step) -> Seq<char> {
    operation_kind(step.operation) + match step.result {
        Ok(_) => ": ok"@,
        Err(error) => ": refused, "@ + crate::error::error_name(error),
    }
}

impl Step {
    /// What the step is counted under: the operation, and how it went.
    pub fn label(&self) -> (r: String)
        ensures
            r@ == step_label(*self),
    {
        let mut r: String = String::from_str(self.operation.kind());
        match self.result {
            Ok(_) => {
                r.append(": ok");
            },
            Err(error) => {
                r.append(": refused, ");
                r.append(error.name());
            },
        }
        proof {
            assert(r@ =~= step_label(*self));
        }
        r
    }
}

/// How many of the steps are counted under a label.
pub open spec fn occurrences(steps: Seq<Step>, label: Seq<char>) -> nat
    decreases steps.len(),
{
    if steps.len() == 0 {
        0
    } else {
        occurrences(steps.drop_last(), label) + if step_label(steps.last()) == label {
            1nat
        } else {
            0nat
        }
    }
}

/// The counts hold a label.
pub open spec fn listed(counts: Seq<(String, usize)>, label: Seq<char>) -> bool {
    exists|i: int| 0 <= i < counts.len() && (#[trigger] counts[i]).0@ == label
}

/// The counts say how often each label came: the labels in order, none of them
/// twice, each with the number of steps counted under it, and every step's
/// label among them.
pub open spec fn tallied(steps: Seq<Step>, counts: Seq<(String, usize)>) -> bool {
    &&& forall|i: int, j: int|
        0 <= i < j < counts.len() ==> crate::text::precedes(
            (#[trigger] counts[i]).0@,
            (#[trigger] counts[j]).0@,
        )
    &&& forall|i: int|
        0 <= i < counts.len() ==> {
            &&& (#[trigger] counts[i]).1 == occurrences(steps, counts[i].0@)
            &&& counts[i].1 > 0
        }
    &&& forall|i: int|
        0 <= i < steps.len() ==> #[trigger] listed(counts, step_label(steps[i]))
}

proof fn lemma_occurrences_bound(steps: Seq<Step>, label: Seq<char>)
    ensures
        occurrences(steps, label) <= steps.len(),
    decreases steps.len(),
{
    if steps.len() > 0 {
        lemma_occurrences_bound(steps.drop_last(), label);
    }
}

proof fn lemma_occurrences_none(steps: Seq<Step>, label: Seq<char>)
    requires
        forall|i: int| 0 <= i < steps.len() ==> step_label(#[trigger] steps[i]) != label,
    ensures
        occurrences(steps, label) == 0,
    decreases steps.len(),
{
    if steps.len() > 0 {
        assert forall|i: int| 0 <= i < steps.drop_last().len() implies step_label(
            #[trigger] steps.drop_last()[i],
        ) != label by {
            assert(steps.drop_last()[i] == steps[i]);
        }
        assert(step_label(steps[steps.len() - 1]) != label);
        lemma_occurrences_none(steps.drop_last(), label);
    }
}

/// A label that was there already is counted once more.
proof fn lemma_counted(
    steps: Seq<Step>,
    before: Seq<(String, usize)>,
    after: Seq<(String, usize)>,
    place: int,
)
    requires
        steps.len() > 0,
        tallied(steps.drop_last(), before),
        0 <= place < before.len(),
        before[place].0@ == step_label(steps.last()),
        after.len() == before.len(),
        forall|i: int| 0 <= i < before.len() ==> (#[trigger] after[i]).0 == before[i].0,
        forall|i: int| 0 <= i < before.len() && i != place ==> #[trigger] after[i] == before[i],
        after[place].1 == before[place].1 + 1,
    ensures
        tallied(steps, after),
{
    let label = step_label(steps.last());
    assert forall|i: int| 0 <= i < after.len() implies {
        &&& (#[trigger] after[i]).1 == occurrences(steps, after[i].0@)
        &&& after[i].1 > 0
    } by {
        assert(before[i].1 == occurrences(steps.drop_last(), before[i].0@));
        if i != place {
            if i < place {
                assert(crate::text::precedes(before[i].0@, before[place].0@));
            } else {
                assert(crate::text::precedes(before[place].0@, before[i].0@));
            }
            crate::text::precedes_is_irreflexive(label);
        }
    }
    assert forall|i: int, j: int| 0 <= i < j < after.len() implies crate::text::precedes(
        (#[trigger] after[i]).0@,
        (#[trigger] after[j]).0@,
    ) by {
        assert(crate::text::precedes(before[i].0@, before[j].0@));
    }
    assert forall|i: int| 0 <= i < steps.len() implies #[trigger] listed(
        after,
        step_label(steps[i]),
    ) by {
        if i < steps.len() - 1 {
            assert(steps.drop_last()[i] == steps[i]);
            assert(listed(before, step_label(steps.drop_last()[i])));
            let k = choose|k: int|
                0 <= k < before.len() && (#[trigger] before[k]).0@ == step_label(steps[i]);
            assert(after[k].0@ == step_label(steps[i]));
        } else {
            assert(after[place].0@ == step_label(steps[i]));
        }
    }
}

/// A label that was not there yet is entered in its place.
proof fn lemma_entered(
    steps: Seq<Step>,
    before: Seq<(String, usize)>,
    after: Seq<(String, usize)>,
    place: int,
)
    requires
        steps.len() > 0,
        tallied(steps.drop_last(), before),
        0 <= place <= before.len(),
        after == before.insert(place, after[place]),
        after[place].0@ == step_label(steps.last()),
        after[place].1 == 1,
        forall|i: int|
            0 <= i < place ==> crate::text::precedes(
                (#[trigger] before[i]).0@,
                step_label(steps.last()),
            ),
        place < before.len() ==> crate::text::precedes(step_label(steps.last()), before[place].0@),
    ensures
        tallied(steps, after),
{
    let label = step_label(steps.last());
    let earlier = steps.drop_last();
    crate::text::precedes_is_irreflexive(label);
    assert forall|i: int| place <= i < before.len() implies crate::text::precedes(
        label,
        (#[trigger] before[i]).0@,
    ) by {
        if i > place {
            assert(crate::text::precedes(before[place].0@, before[i].0@));
            crate::text::precedes_is_transitive(label, before[place].0@, before[i].0@);
        }
    }
    assert forall|i: int| 0 <= i < before.len() implies (#[trigger] before[i]).0@ != label by {
        if i >= place {
            assert(crate::text::precedes(label, before[i].0@));
        }
    }
    assert forall|i: int| 0 <= i < earlier.len() implies step_label(#[trigger] earlier[i])
        != label by {
        assert(listed(before, step_label(earlier[i])));
    }
    lemma_occurrences_none(earlier, label);
    assert forall|i: int| 0 <= i < after.len() implies {
        &&& (#[trigger] after[i]).1 == occurrences(steps, after[i].0@)
        &&& after[i].1 > 0
    } by {
        if i < place {
            assert(after[i] == before[i]);
        } else if i > place {
            assert(after[i] == before[i - 1]);
        }
    }
    assert forall|i: int, j: int| 0 <= i < j < after.len() implies crate::text::precedes(
        (#[trigger] after[i]).0@,
        (#[trigger] after[j]).0@,
    ) by {
        let x = if i < place {
            i
        } else {
            i - 1
        };
        let y = if j < place {
            j
        } else {
            j - 1
        };
        if i != place {
            assert(after[i] == before[x]);
        }
        if j != place {
            assert(after[j] == before[y]);
        }
    }
    assert forall|i: int| 0 <= i < steps.len() implies #[trigger] listed(
        after,
        step_label(steps[i]),
    ) by {
        if i < steps.len() - 1 {
            assert(earlier[i] == steps[i]);
            assert(listed(before, step_label(earlier[i])));
            let k = choose|k: int|
                0 <= k < before.len() && (#[trigger] before[k]).0@ == step_label(steps[i]);
            assert(after[if k < place { k } else { k + 1 }] == before[k]);
        } else {
            assert(after[place].0@ == step_label(steps[i]));
        }
    }
}

/// Counts one more step under a label.
fn count_label(counts: &mut Vec<(String, usize)>, label: String, Ghost(steps): Ghost<Seq<Step>>)
    requires
        0 < steps.len() <= usize::MAX,
        tallied(steps.drop_last(), old(counts)@),
        label@ == step_label(steps.last()),
    ensures
        tallied(steps, final(counts)@),
{
    let ghost before = counts@;
    let mut place: usize = 0;
    while place < counts.len() && stands_before(counts[place].0.as_str(), label.as_str())
        invariant
            place <= counts@.len(),
            counts@ == before,
            forall|i: int|
                0 <= i < place ==> crate::text::precedes((#[trigger] before[i]).0@, label@),
        decreases counts.len() - place,
    {
        place += 1;
    }
    if place < counts.len() && !stands_before(label.as_str(), counts[place].0.as_str()) {
        proof {
            crate::text::precedes_is_total(before[place as int].0@, label@);
            lemma_occurrences_bound(steps.drop_last(), label@);
        }
        counts[place].1 = counts[place].1 + 1;
        proof {
            lemma_counted(steps, before, counts@, place as int);
        }
    } else {
        counts.insert(place, (label, 1));
        proof {
            lemma_entered(steps, before, counts@, place as int);
        }
    }
}

/// How often each label came in a run, in the order of the labels.
pub fn tally(steps: &[Step]) -> (r: Vec<(String, usize)>)
    ensures
        tallied(steps@, r@),
{
    let mut counts: Vec<(String, usize)> = Vec::new();
    let mut i: usize = 0;
    while i < steps.len()
        invariant
            i <= steps@.len(),
            tallied(steps@.take(i as int), counts@),
        decreases steps.len() - i,
    {
        proof {
            assert(steps@.take(i + 1).drop_last() =~= steps@.take(i as int));
        }
        count_label(&mut counts, steps[i].label(), Ghost(steps@.take(i + 1)));
        i += 1;
    }
    proof {
        assert(steps@.take(i as int) =~= steps@);
    }
    counts
}

/// The text shown for a violation, with the limit and the money that should be
/// there.
pub open spec fn violation_text(violation: Violation, limit: u64, money: u128) -> Seq<char> {
    match violation {
        Violation::OverLimit { device, balance } => "device "@ + crate::text::decimal_text(
            device as nat,
        ) + " holds "@ + crate::text::decimal_text(balance as nat) + " over a "@
            + crate::text::decimal_text(limit as nat) + " limit"@,
        Violation::Dangling { device } => "device "@ + crate::text::decimal_text(device as nat)
            + " kept a reservation"@,
        Violation::FloatOff { on_devices, float } => crate::text::decimal_text(on_devices as nat)
            + " on devices but float says "@ + crate::text::signed_text(float as int),
        Violation::SupplyMoved { online, on_devices } => "money supply moved: "@
            + crate::text::decimal_text(online as nat) + " online + "@
            + crate::text::decimal_text(on_devices as nat) + " offline != "@
            + crate::text::decimal_text(money as nat),
    }
}

impl Violation {
    /// The violation in words.
    pub fn message(&self, limit: u64, money: u128) -> (r: String)
        ensures
            r@ == violation_text(*self, limit, money),
    {
        let mut r: String = String::new();
        match self {
            Violation::OverLimit { device, balance } => {
                r.append("device ");
                crate::text::push_decimal(&mut r, *device as u128);
                r.append(" holds ");
                crate::text::push_decimal(&mut r, *balance as u128);
                r.append(" over a ");
                crate::text::push_decimal(&mut r, limit as u128);
                r.append(" limit");
            },
            Violation::Dangling { device } => {
                r.append("device ");
                crate::text::push_decimal(&mut r, *device as u128);
                r.append(" kept a reservation");
            },
            Violation::FloatOff { on_devices, float } => {
                crate::text::push_decimal(&mut r, *on_devices);
                r.append(" on devices but float says ");
                crate::text::push_signed(&mut r, *float);
            },
            Violation::SupplyMoved { online, on_devices } => {
                r.append("money supply moved: ");
                crate::text::push_decimal(&mut r, *online);
                r.append(" online + ");
                crate::text::push_decimal(&mut r, *on_devices);
                r.append(" offline != ");
                crate::text::push_decimal(&mut r, money);
            },
        }
        proof {
            assert(r@ =~= violation_text(*self, limit, money));
        }
        r
    }
}

/// The text shown for a run that was stopped.
pub open spec fn fuzz_failure_text(failure: FuzzFailure, limit: u64, money: u128) -> Seq<char> {
    match failure {
        FuzzFailure::Setup { error } => "could not set up: "@ + crate::error::error_text(error),
        FuzzFailure::Exhausted { step } => "at step "@ + crate::text::decimal_text(step as nat)
            + ": the element cannot count another debit"@,
        FuzzFailure::Changed { step, operation, error } => "at step "@
            + crate::text::decimal_text(step as nat) + ": refused "@ + operation_kind(operation)
            + " ("@ + crate::error::error_text(error) + ") changed state"@,
        FuzzFailure::Broken { step, operation, violation } => "at step "@
            + crate::text::decimal_text(step as nat) + " after "@ + operation_kind(operation)
            + ": "@ + violation_text(violation, limit, money),
    }
}

impl FuzzFailure {
    /// The failure in words.
    pub fn message(&self, limit: u64, money: u128) -> (r: String)
        ensures
            r@ == fuzz_failure_text(*self, limit, money),
    {
        let mut r: String = String::new();
        match self {
            FuzzFailure::Setup { error } => {
                r.append("could not set up: ");
                r.append(error.message().as_str());
            },
            FuzzFailure::Exhausted { step } => {
                r.append("at step ");
                crate::text::push_decimal(&mut r, *step as u128);
                r.append(": the element cannot count another debit");
            },
            FuzzFailure::Changed { step, operation, error } => {
                r.append("at step ");
                crate::text::push_decimal(&mut r, *step as u128);
                r.append(": refused ");
                r.append(operation.kind());
                r.append(" (");
                r.append(error.message().as_str());
                r.append(") changed state");
            },
            FuzzFailure::Broken { step, operation, violation } => {
                r.append("at step ");
                crate::text::push_decimal(&mut r, *step as u128);
                r.append(" after ");
                r.append(operation.kind());
                r.append(": ");
                r.append(violation.message(limit, money).as_str());
            },
        }
        proof {
            assert(r@ =~= fuzz_failure_text(*self, limit, money));
        }
        r
    }
}

// ---------------------------------------------------------------------------
// The books stay balanced
// ---------------------------------------------------------------------------

pub proof fn lemma_value_update(devices: Seq<WalletView>, i: int, device: WalletView)
    requires
        0 <= i < devices.len(),
    ensures
        value_on(devices.update(i, device)) == value_on(devices) - devices[i].balance
            + device.balance,
    decreases devices.len(),
{
    let new = devices.update(i, device);
    if i == devices.len() - 1 {
        assert(new.drop_last() =~= devices.drop_last());
    } else {
        lemma_value_update(devices.drop_last(), i, device);
        assert(new.drop_last() =~= devices.drop_last().update(i, device));
    }
}

/// Every device is sealed, and every key is sound.
pub open spec fn honest(world: WorldView) -> bool {
    &&& crate::signature::sound_key(world.issuer.key, world.issuer.private_exponent)
    &&& forall|i: int|
        0 <= i < world.devices.len() ==> (#[trigger] world.devices[i]).state
            == ElementState::Sealed && crate::signature::sound_key(
            world.devices[i].key,
            world.devices[i].private_exponent,
        )
}

/// The value on devices is what the float says.
pub open spec fn balanced(world: WorldView) -> bool {
    value_on(world.devices) == world.issuer.float
}

/// All money there is.
pub open spec fn supply(world: WorldView) -> int {
    world.issuer.online() + world.issuer.float
}

/// A payment between honest devices, under an unused nonce, leaves the value on
/// devices and the issuer as they were; a refused one leaves everything as it was.
pub proof fn lemma_payment_keeps_the_books(
    before: WorldView,
    a: int,
    b: int,
    nonce: [u8; 16],
    amount: u64,
    r: Result<u64, Error>,
    after: WorldView,
)
    requires
        before.well_formed(),
        honest(before),
        0 <= a < before.devices.len(),
        0 <= b < before.devices.len(),
        a != b,
        crate::protocol::unused(before.devices[b], nonce),
        before.devices[b].reservation_error(amount) is None,
        with_two(before, after, a, b),
        crate::protocol::payment_outcome(
            before.devices[a],
            before.devices[b].with_request(nonce, amount),
            before.devices[b].request_for(nonce, amount),
            r,
            after.devices[a],
            after.devices[b],
        ),
    ensures
        value_on(after.devices) == value_on(before.devices),
        balanced(before) ==> balanced(after),
        supply(after) == supply(before),
        r is Err ==> after == before,
{
    crate::protocol::lemma_payment_is_all_or_nothing(
        before.devices[a],
        before.devices[b],
        nonce,
        amount,
        r,
        after.devices[a],
        after.devices[b],
    );
    let half = before.devices.update(a, after.devices[a]);
    lemma_value_update(before.devices, a, after.devices[a]);
    lemma_value_update(half, b, after.devices[b]);
    if r is Err {
        assert(after.devices =~= before.devices);
    }
}

/// A funding of an honest device, under an unused nonce, keeps the books balanced
/// and the money supply as it was; a refused one leaves everything as it was.
pub proof fn lemma_funding_keeps_the_books(
    before: WorldView,
    a: int,
    nonce: [u8; 16],
    amount: u64,
    r: Result<u64, Error>,
    after: WorldView,
)
    requires
        before.well_formed(),
        honest(before),
        0 <= a < before.devices.len(),
        crate::protocol::unused(before.devices[a], nonce),
        before.devices[a].reservation_error(amount) is None,
        with_one(before, after, a),
        crate::protocol::funding_outcome(
            before.devices[a].with_funding(nonce, amount),
            before.issuer,
            before.devices[a].funding_for(nonce, amount),
            r,
            after.devices[a],
            after.issuer,
        ),
    ensures
        balanced(before) ==> balanced(after),
        supply(after) == supply(before),
        r is Err ==> after == before,
{
    crate::protocol::lemma_funding_is_all_or_nothing(
        before.devices[a],
        before.issuer,
        nonce,
        amount,
        r,
        after.devices[a],
        after.issuer,
    );
    lemma_value_update(before.devices, a, after.devices[a]);
    if r is Err {
        assert(after.devices =~= before.devices);
    }
}

/// A defunding of an honest device keeps the books balanced and the money supply
/// as it was, as long as the amount fits into the account; a refused one leaves
/// everything as it was.
pub proof fn lemma_defunding_keeps_the_books(
    before: WorldView,
    a: int,
    amount: u64,
    r: Result<u64, Error>,
    after: WorldView,
)
    requires
        before.well_formed(),
        honest(before),
        0 <= a < before.devices.len(),
        before.devices[a].can_debit(),
        before.issuer.accounts[before.issuer.account_key(before.devices[a].certificate.device)]
            + amount <= u64::MAX,
        before.issuer.float - amount >= i128::MIN,
        with_one(before, after, a),
        crate::protocol::defund_outcome(
            before.devices[a],
            before.issuer,
            amount,
            r,
            after.devices[a],
            after.issuer,
        ),
    ensures
        balanced(before) ==> balanced(after),
        supply(after) == supply(before),
        r is Ok <==> before.devices[a].debit_error(amount) is None,
        r is Err ==> after == before,
{
    if before.devices[a].debit_error(amount) is None {
        crate::protocol::lemma_defunding_moves_value(before.devices[a], before.issuer, amount);
    }
    lemma_value_update(before.devices, a, after.devices[a]);
    if r is Err {
        assert(after.devices =~= before.devices);
    }
}

// ---------------------------------------------------------------------------
// Only bad luck stops a run
// ---------------------------------------------------------------------------

/// An operation was carried out under a nonce that the device had used before.
pub open spec fn nonce_repeated(
    before: WorldView,
    operation: Operation,
    r: Result<u64, Error>,
    after: WorldView,
) -> bool {
    match operation {
        Operation::Fund { device, amount } => {
            let a = before.devices[device as int];
            exists|nonce: [u8; 16]|
                !crate::protocol::unused(a, nonce) && crate::protocol::funding_outcome(
                    #[trigger] a.with_funding(nonce, amount),
                    before.issuer,
                    a.funding_for(nonce, amount),
                    r,
                    after.devices[device as int],
                    after.issuer,
                )
        },
        Operation::Defund { .. } => false,
        Operation::Pay { payer, payee, amount } => {
            let a = before.devices[payer as int];
            let b = before.devices[payee as int];
            exists|nonce: [u8; 16]|
                !crate::protocol::unused(b, nonce) && crate::protocol::payment_outcome(
                    a,
                    #[trigger] b.with_request(nonce, amount),
                    b.request_for(nonce, amount),
                    r,
                    after.devices[payer as int],
                    after.devices[payee as int],
                )
        },
    }
}

/// What an operation would bring to an account fits there.
pub open spec fn fits_account(world: WorldView, operation: Operation) -> bool {
    match operation {
        Operation::Defund { device, amount } => {
            let account = world.issuer.account_key(
                world.devices[device as int].certificate.device,
            );
            &&& world.issuer.accounts[account] + amount <= u64::MAX
            &&& world.issuer.float - amount >= i128::MIN
        },
        _ => true,
    }
}

/// In an honest world an operation keeps the books balanced and the money supply as
/// it was, and changes nothing if it is refused, unless a nonce is drawn twice.
pub proof fn lemma_operation_keeps_the_books(
    before: WorldView,
    operation: Operation,
    r: Result<u64, Error>,
    after: WorldView,
)
    requires
        before.well_formed(),
        honest(before),
        operation_fits(operation, before.devices.len()),
        ready(before, operation),
        fits_account(before, operation),
        operation_outcome(before, operation, r, after),
    ensures
        nonce_repeated(before, operation, r, after) || {
            &&& balanced(before) ==> balanced(after)
            &&& supply(after) == supply(before)
            &&& r is Err ==> after == before
        },
{
    match operation {
        Operation::Fund { device, amount } => {
            let a = before.devices[device as int];
            if a.reservation_error(amount) is Some {
                assert(after.devices =~= before.devices);
            } else {
                let nonce = choose|nonce: [u8; 16]|
                    crate::protocol::funding_outcome(
                        #[trigger] a.with_funding(nonce, amount),
                        before.issuer,
                        a.funding_for(nonce, amount),
                        r,
                        after.devices[device as int],
                        after.issuer,
                    );
                if crate::protocol::unused(a, nonce) {
                    lemma_funding_keeps_the_books(
                        before,
                        device as int,
                        nonce,
                        amount,
                        r,
                        after,
                    );
                }
            }
        },
        Operation::Defund { device, amount } => {
            let a = before.devices[device as int];
            if a.debit_error(amount) is Some {
                assert(after.devices =~= before.devices);
            } else {
                lemma_defunding_keeps_the_books(before, device as int, amount, r, after);
            }
        },
        Operation::Pay { payer, payee, amount } => {
            let a = before.devices[payer as int];
            let b = before.devices[payee as int];
            if b.reservation_error(amount) is Some {
                assert(after.devices =~= before.devices);
            } else {
                let nonce = choose|nonce: [u8; 16]|
                    crate::protocol::payment_outcome(
                        a,
                        #[trigger] b.with_request(nonce, amount),
                        b.request_for(nonce, amount),
                        r,
                        after.devices[payer as int],
                        after.devices[payee as int],
                    );
                if crate::protocol::unused(b, nonce) {
                    lemma_payment_keeps_the_books(
                        before,
                        payer as int,
                        payee as int,
                        nonce,
                        amount,
                        r,
                        after,
                    );
                }
            }
        },
    }
}

/// All accounts of a world are different.
pub open spec fn accounts_differ(accounts: Seq<AccountId>) -> bool {
    forall|i: int, j: int|
        0 <= i < accounts.len() && 0 <= j < accounts.len() && i != j ==> #[trigger] accounts[i]
            != #[trigger] accounts[j]
}

/// Every device has this holding limit.
pub open spec fn have_limit(world: WorldView, limit: u64) -> bool {
    forall|i: int|
        0 <= i < world.devices.len() ==> limit == (
        #[trigger] world.devices[i]).certificate.holding_limit_cents
}

/// The money on accounts that are all different, after one of them has changed.
proof fn lemma_money_update(
    before: IssuerView,
    after: IssuerView,
    accounts: Seq<AccountId>,
    a: int,
    balance: u64,
)
    requires
        accounts_differ(accounts),
        0 <= a < accounts.len(),
        before.accounts.contains_key(crate::bytes::block_key(accounts[a].0)),
        after.accounts == before.accounts.insert(crate::bytes::block_key(accounts[a].0), balance),
    ensures
        money_on(after, accounts) == money_on(before, accounts)
            - before.accounts[crate::bytes::block_key(accounts[a].0)] + balance,
    decreases accounts.len(),
{
    let rest = accounts.drop_last();
    let last = accounts.last();
    if a == accounts.len() - 1 {
        lemma_money_untouched(before, after, rest, accounts[a], balance);
    } else {
        assert(rest[a] == accounts[a]);
        lemma_money_update(before, after, rest, a, balance);
        if crate::bytes::block_key(last.0) == crate::bytes::block_key(accounts[a].0) {
            crate::bytes::lemma_block_key_injective(last.0, accounts[a].0);
            assert(accounts[accounts.len() - 1] == accounts[a]);
        }
    }
}

/// The money on accounts is not touched by a change to another one.
proof fn lemma_money_untouched(
    before: IssuerView,
    after: IssuerView,
    accounts: Seq<AccountId>,
    other: AccountId,
    balance: u64,
)
    requires
        forall|i: int| 0 <= i < accounts.len() ==> #[trigger] accounts[i] != other,
        after.accounts == before.accounts.insert(crate::bytes::block_key(other.0), balance),
    ensures
        money_on(after, accounts) == money_on(before, accounts),
    decreases accounts.len(),
{
    if accounts.len() > 0 {
        let last = accounts.last();
        lemma_money_untouched(before, after, accounts.drop_last(), other, balance);
        if crate::bytes::block_key(last.0) == crate::bytes::block_key(other.0) {
            crate::bytes::lemma_block_key_injective(last.0, other.0);
            assert(accounts[accounts.len() - 1] == other);
        }
    }
}

/// No device is over the limit or keeps a reservation, exactly if that holds of
/// each.
proof fn lemma_no_device_violation(devices: Seq<WalletView>, limit: u64, place: int)
    requires
        0 <= place <= devices.len(),
    ensures
        device_violation(devices, limit, place) is None <==> forall|i: int|
            place <= i < devices.len() ==> (#[trigger] devices[i]).balance <= limit
                && devices[i].reserved() == 0,
    decreases devices.len() - place,
{
    if place < devices.len() {
        lemma_no_device_violation(devices, limit, place + 1);
    }
}

/// What an operation has done to reservations and accounts.
proof fn lemma_operation_effects(
    before: WorldView,
    operation: Operation,
    r: Result<u64, Error>,
    after: WorldView,
)
    requires
        before.well_formed(),
        honest(before),
        accounts_differ(before.accounts),
        operation_fits(operation, before.devices.len()),
        ready(before, operation),
        fits_account(before, operation),
        operation_outcome(before, operation, r, after),
        r is Ok,
        !nonce_repeated(before, operation, r, after),
    ensures
        after.devices.len() == before.devices.len(),
        forall|i: int|
            0 <= i < after.devices.len() ==> (#[trigger] after.devices[i]).reserved()
                == before.devices[i].reserved(),
        money_on(after.issuer, after.accounts) + after.issuer.float == money_on(
            before.issuer,
            before.accounts,
        ) + before.issuer.float,
{
    match operation {
        Operation::Fund { device, amount } => {
            let a = before.devices[device as int];
            let nonce = choose|nonce: [u8; 16]|
                crate::protocol::funding_outcome(
                    #[trigger] a.with_funding(nonce, amount),
                    before.issuer,
                    a.funding_for(nonce, amount),
                    r,
                    after.devices[device as int],
                    after.issuer,
                );
            crate::protocol::lemma_funding_is_all_or_nothing(
                a,
                before.issuer,
                nonce,
                amount,
                r,
                after.devices[device as int],
                after.issuer,
            );
            let account = before.issuer.account_key(a.certificate.device);
            assert(account == crate::bytes::block_key(before.accounts[device as int].0));
            assert(before.issuer.accounts.contains_key(account));
            lemma_money_update(
                before.issuer,
                after.issuer,
                before.accounts,
                device as int,
                (before.issuer.accounts[account] - amount) as u64,
            );
        },
        Operation::Defund { device, amount } => {
            let a = before.devices[device as int];
            let account = before.issuer.account_key(a.certificate.device);
            assert(account == crate::bytes::block_key(before.accounts[device as int].0));
            assert(before.issuer.accounts.contains_key(account));
            lemma_money_update(
                before.issuer,
                after.issuer,
                before.accounts,
                device as int,
                (before.issuer.accounts[account] + amount) as u64,
            );
        },
        Operation::Pay { payer, payee, amount } => {
            let a = before.devices[payer as int];
            let b = before.devices[payee as int];
            let nonce = choose|nonce: [u8; 16]|
                crate::protocol::payment_outcome(
                    a,
                    #[trigger] b.with_request(nonce, amount),
                    b.request_for(nonce, amount),
                    r,
                    after.devices[payer as int],
                    after.devices[payee as int],
                );
            crate::protocol::lemma_payment_is_all_or_nothing(
                a,
                b,
                nonce,
                amount,
                r,
                after.devices[payer as int],
                after.devices[payee as int],
            );
        },
    }
}

/// In an honest world whose devices have this limit and whose accounts are all
/// different, an operation keeps every invariant, unless a nonce is drawn twice.
pub proof fn lemma_operation_keeps_every_invariant(
    before: WorldView,
    operation: Operation,
    r: Result<u64, Error>,
    after: WorldView,
    limit: u64,
    money: u128,
)
    requires
        before.well_formed(),
        after.well_formed(),
        honest(before),
        accounts_differ(before.accounts),
        have_limit(after, limit),
        operation_fits(operation, before.devices.len()),
        ready(before, operation),
        fits_account(before, operation),
        operation_outcome(before, operation, r, after),
        violation(before, limit, money) is None,
    ensures
        nonce_repeated(before, operation, r, after) || violation(after, limit, money) is None,
{
    if !nonce_repeated(before, operation, r, after) {
        lemma_operation_keeps_the_books(before, operation, r, after);
        if r is Ok {
            lemma_operation_effects(before, operation, r, after);
            lemma_no_device_violation(before.devices, limit, 0);
            lemma_no_device_violation(after.devices, limit, 0);
            assert forall|i: int| 0 <= i < after.devices.len() implies (
            #[trigger] after.devices[i]).balance <= limit && after.devices[i].reserved() == 0 by {
                assert(before.devices[i].reserved() == 0);
                assert(after.devices[i].well_formed());
            }
        }
    }
}

/// A run in an honest world stops only because an element cannot count another
/// debit, or because a nonce was drawn twice.
pub proof fn lemma_only_bad_luck_stops_a_run(
    before: WorldView,
    step: nat,
    operation: Operation,
    limit: u64,
    money: u128,
    failure: FuzzFailure,
    after: WorldView,
)
    requires
        before.well_formed(),
        after.well_formed(),
        honest(before),
        accounts_differ(before.accounts),
        have_limit(after, limit),
        operation_fits(operation, before.devices.len()),
        fits_account(before, operation),
        violation(before, limit, money) is None,
        step_fails(before, step, operation, limit, money, failure, after),
    ensures
        failure is Exhausted || exists|r: Result<u64, Error>| #[trigger]
            nonce_repeated(before, operation, r, after),
{
    match failure {
        FuzzFailure::Changed { error, .. } => {
            let r = Err::<u64, Error>(error);
            lemma_operation_keeps_the_books(before, operation, r, after);
            assert(nonce_repeated(before, operation, r, after));
        },
        FuzzFailure::Broken { .. } => {
            let r = choose|r: Result<u64, Error>| #[trigger]
                operation_outcome(before, operation, r, after);
            lemma_operation_keeps_every_invariant(before, operation, r, after, limit, money);
            assert(nonce_repeated(before, operation, r, after));
        },
        _ => {},
    }
}

// ---------------------------------------------------------------------------
// What a run draws, shows and checks
// ---------------------------------------------------------------------------

/// A run needs keys of an even width of at least 512 bits, a limit of at least 20 EUR, and at
/// least two devices. What is wrong is looked for in that order.
pub proof fn lemma_parameters_have_to_be_usable(key_bits: u64, limit: u64, devices: usize)
    ensures
        ({
            let error = parameter_error(key_bits, limit, devices);
            let wide = key_bits >= 512 && key_bits % 2 == 0;
            &&& error is None <==> wide && limit >= 2000 && devices >= 2
            &&& !wide ==> error == Some("--key-bits must be even and at least 512"@)
            &&& wide && limit < 2000 ==> error == Some(
                "--limit must be at least 2000 cents (the scenarios pay up to 20 \u{20ac})"@,
            )
            &&& wide && limit >= 2000 && devices < 2 ==> error == Some(
                "--devices must be at least 2"@,
            )
        }),
{
}

/// Of the ten sides of the die, two fund the device, one defunds it, and the others pay the
/// device that is so many places further on, round the circle. The amount is the one that was
/// drawn.
pub proof fn lemma_die_picks_the_operation(
    devices: usize,
    a: usize,
    amount: u64,
    die: i32,
    hop: usize,
)
    requires
        a < devices,
        1 <= hop < devices,
        0 <= die < 10,
    ensures
        die < 2 ==> chosen(devices, a, amount, die, hop) == (Operation::Fund { device: a, amount }),
        die == 2 ==> chosen(devices, a, amount, die, hop) == (Operation::Defund {
            device: a,
            amount,
        }),
        die > 2 && a + hop < devices ==> chosen(devices, a, amount, die, hop) == (Operation::Pay {
            payer: a,
            payee: (a + hop) as usize,
            amount,
        }),
        die > 2 && a + hop >= devices ==> chosen(devices, a, amount, die, hop) == (Operation::Pay {
            payer: a,
            payee: (a + hop - devices) as usize,
            amount,
        }),
        operation_amount(chosen(devices, a, amount, die, hop)) == amount,
{
    if a + hop < devices {
        vstd::arithmetic::div_mod::lemma_small_mod((a + hop) as nat, devices as nat);
    } else {
        vstd::arithmetic::div_mod::lemma_fundamental_div_mod_converse(
            a + hop,
            devices as int,
            1,
            a + hop - devices,
        );
    }
}

/// An operation that a run draws is between existing devices, a payment between two different
/// ones, and of at least one cent and at most half the limit.
pub proof fn lemma_drawn_operations_fit(operation: Operation, devices: usize, limit: u64)
    ensures
        drawn(operation, devices, limit) <==> match operation {
            Operation::Fund { device, amount } => device < devices && 1 <= amount <= limit / 2,
            Operation::Defund { device, amount } => device < devices && 1 <= amount <= limit / 2,
            Operation::Pay { payer, payee, amount } => payer < devices && payee < devices && payer
                != payee && 1 <= amount <= limit / 2,
        },
{
}

/// Value on devices and money on accounts add up one by one; an account that the issuer does
/// not hold counts for nothing.
pub proof fn lemma_sums_grow_by_their_terms(
    devices: Seq<WalletView>,
    device: WalletView,
    issuer: IssuerView,
    accounts: Seq<AccountId>,
    account: AccountId,
)
    ensures
        value_on(Seq::empty()) == 0,
        value_on(devices.push(device)) == value_on(devices) + device.balance,
        money_on(issuer, Seq::empty()) == 0,
        ({
            let key = crate::bytes::block_key(account.0);
            &&& issuer.accounts.contains_key(key) ==> money_on(issuer, accounts.push(account))
                == money_on(issuer, accounts) + issuer.accounts[key]
            &&& !issuer.accounts.contains_key(key) ==> money_on(issuer, accounts.push(account))
                == money_on(issuer, accounts)
            &&& issuer.accounts.contains_key(key) ==> account_balance(issuer, account) == Some(
                issuer.accounts[key],
            )
            &&& !issuer.accounts.contains_key(key) ==> account_balance(issuer, account) is None
        }),
{
    assert(devices.push(device).drop_last() =~= devices);
    assert(accounts.push(account).drop_last() =~= accounts);
}

/// A snapshot shows the balance and the reservations of every device, the balance of every
/// account that the issuer holds, and the float.
pub proof fn lemma_snapshot_shows_everything(world: WorldView)
    ensures
        picture(world).0.len() == world.devices.len(),
        forall|i: int|
            0 <= i < world.devices.len() ==> (#[trigger] picture(world).0[i]).0
                == world.devices[i].balance && picture(world).0[i].1
                == world.devices[i].reserved() as u64,
        picture(world).1.len() == world.accounts.len(),
        forall|i: int|
            0 <= i < world.accounts.len() ==> {
                let key = crate::bytes::block_key(world.accounts[i].0);
                #[trigger] picture(world).1[i] == if world.issuer.accounts.contains_key(key) {
                    Some(world.issuer.accounts[key])
                } else {
                    None
                }
            },
        picture(world).2 == world.issuer.float,
{
}

proof fn lemma_first_device_violation(devices: Seq<WalletView>, limit: u64, place: int)
    requires
        0 <= place <= devices.len() <= usize::MAX,
    ensures
        match device_violation(devices, limit, place) {
            Some(Violation::OverLimit { device, balance }) => {
                &&& place <= device < devices.len()
                &&& devices[device as int].balance == balance
                &&& balance > limit
                &&& forall|i: int|
                    place <= i < device ==> (#[trigger] devices[i]).balance <= limit
                        && devices[i].reserved() == 0
            },
            Some(Violation::Dangling { device }) => {
                &&& place <= device < devices.len()
                &&& devices[device as int].balance <= limit
                &&& devices[device as int].reserved() != 0
                &&& forall|i: int|
                    place <= i < device ==> (#[trigger] devices[i]).balance <= limit
                        && devices[i].reserved() == 0
            },
            Some(_) => false,
            None => forall|i: int|
                place <= i < devices.len() ==> (#[trigger] devices[i]).balance <= limit
                    && devices[i].reserved() == 0,
        },
    decreases devices.len() - place,
{
    if place < devices.len() {
        lemma_first_device_violation(devices, limit, place + 1);
    }
}

/// A world is in order exactly if no device holds more than the limit or has kept a
/// reservation, the value on all devices is what the float says, and the money online and on
/// devices is all there should be. What is wrong otherwise is named: the first device with
/// which anything is, else the float, else the money supply.
pub proof fn lemma_violation_is_named(world: WorldView, limit: u64, money: u128)
    requires
        world.devices.len() <= usize::MAX,
    ensures
        ({
            let tidy = forall|i: int|
                0 <= i < world.devices.len() ==> (#[trigger] world.devices[i]).balance <= limit
                    && world.devices[i].reserved() == 0;
            let value = value_on(world.devices);
            let online = money_on(world.issuer, world.accounts);
            let found = violation(world, limit, money);
            &&& found is None <==> tidy && value == world.issuer.float && online + value == money
            &&& found is Some && (found->0 is OverLimit || found->0 is Dangling) <==> !tidy
            &&& found matches Some(Violation::OverLimit { device, balance }) ==> {
                &&& device < world.devices.len()
                &&& world.devices[device as int].balance == balance
                &&& balance > limit
                &&& forall|i: int|
                    0 <= i < device ==> (#[trigger] world.devices[i]).balance <= limit
                        && world.devices[i].reserved() == 0
            }
            &&& found matches Some(Violation::Dangling { device }) ==> {
                &&& device < world.devices.len()
                &&& world.devices[device as int].balance <= limit
                &&& world.devices[device as int].reserved() != 0
                &&& forall|i: int|
                    0 <= i < device ==> (#[trigger] world.devices[i]).balance <= limit
                        && world.devices[i].reserved() == 0
            }
            &&& found == Some(
                Violation::FloatOff { on_devices: value as u128, float: world.issuer.float },
            ) <==> tidy && value != world.issuer.float
            &&& found == Some(
                Violation::SupplyMoved { online: online as u128, on_devices: value as u128 },
            ) <==> tidy && value == world.issuer.float && online + value != money
        }),
{
    lemma_first_device_violation(world.devices, limit, 0);
}

/// An operation touches the devices that it names and no others, and no account changes its
/// place. A payment does not reach the issuer.
pub proof fn lemma_operation_touches_only_its_devices(
    before: WorldView,
    operation: Operation,
    r: Result<u64, Error>,
    after: WorldView,
    i: int,
)
    requires
        operation_fits(operation, before.devices.len()),
        operation_outcome(before, operation, r, after),
        0 <= i < before.devices.len(),
    ensures
        after.devices.len() == before.devices.len(),
        after.accounts == before.accounts,
        match operation {
            Operation::Fund { device, .. } => i != device ==> after.devices[i]
                == before.devices[i],
            Operation::Defund { device, .. } => i != device ==> after.devices[i]
                == before.devices[i],
            Operation::Pay { payer, payee, .. } => after.issuer == before.issuer && (i != payer
                && i != payee ==> after.devices[i] == before.devices[i]),
        },
{
}

/// An operation that succeeds moves exactly its amount: a funding from the account to the
/// device, a defunding back, and a payment from one device to another. That is so as long as
/// all devices are sealed.
pub proof fn lemma_operation_moves_its_amount(
    before: WorldView,
    operation: Operation,
    r: Result<u64, Error>,
    after: WorldView,
)
    requires
        before.well_formed(),
        operation_fits(operation, before.devices.len()),
        operation_outcome(before, operation, r, after),
        r is Ok,
        forall|i: int|
            0 <= i < before.devices.len() ==> (#[trigger] before.devices[i]).state
                == ElementState::Sealed && before.devices[i].counter < u64::MAX,
    ensures
        match operation {
            Operation::Fund { device, amount } => {
                let account = crate::bytes::block_key(before.accounts[device as int].0);
                &&& r == Ok::<u64, Error>(amount)
                &&& after.devices[device as int].balance == before.devices[device as int].balance
                    + amount
                &&& after.issuer.accounts[account] == before.issuer.accounts[account] - amount
                &&& after.issuer.float == before.issuer.float + amount
            },
            Operation::Defund { device, amount } => {
                let account = crate::bytes::block_key(before.accounts[device as int].0);
                &&& r == Ok::<u64, Error>(amount)
                &&& after.devices[device as int].balance == before.devices[device as int].balance
                    - amount
                &&& after.issuer.accounts[account] == before.issuer.accounts[account] + amount
                &&& after.issuer.float == before.issuer.float - amount
            },
            Operation::Pay { payer, payee, amount } => {
                &&& r == Ok::<u64, Error>(amount)
                &&& after.devices[payer as int].balance == before.devices[payer as int].balance
                    - amount
                &&& after.devices[payee as int].balance == before.devices[payee as int].balance
                    + amount
            },
        },
{
    match operation {
        Operation::Fund { device, amount } => {
            let a = device as int;
            assert(before.devices[a].well_formed());
            assert(crate::issuer::linked(before.devices[a], before.issuer));
            crate::protocol::lemma_funding_moves_the_amount(
                before.devices[a],
                before.issuer,
                amount,
                r,
                after.devices[a],
                after.issuer,
            );
        },
        Operation::Defund { device, amount } => {
            let a = device as int;
            assert(before.devices[a].well_formed());
            assert(crate::issuer::linked(before.devices[a], before.issuer));
            crate::protocol::lemma_defunding_moves_the_amount(
                before.devices[a],
                before.issuer,
                amount,
                r,
                after.devices[a],
                after.issuer,
            );
        },
        Operation::Pay { payer, payee, amount } => {
            let (a, b) = (payer as int, payee as int);
            assert(before.devices[a].well_formed());
            assert(before.devices[b].well_formed());
            crate::protocol::lemma_payment_moves_the_amount(
                before.devices[a],
                before.devices[b],
                amount,
                r,
                after.devices[a],
                after.devices[b],
            );
        },
    }
}

/// A step that held left no trace where it was refused, and every invariant holds after it.
pub proof fn lemma_step_that_held_is_sound(
    before: WorldView,
    step: Step,
    after: WorldView,
    limit: u64,
    money: u128,
    i: int,
)
    requires
        step_holds(before, step, after, limit, money),
        operation_fits(step.operation, before.devices.len()),
        before.devices.len() <= usize::MAX,
        0 <= i < before.devices.len(),
    ensures
        after.devices.len() == before.devices.len(),
        after.devices[i].balance <= limit,
        after.devices[i].reserved() == 0,
        value_on(after.devices) == after.issuer.float,
        money_on(after.issuer, after.accounts) + value_on(after.devices) == money,
        step.result is Err ==> {
            &&& after.devices[i].balance == before.devices[i].balance
            &&& after.devices[i].reserved() as u64 == before.devices[i].reserved() as u64
            &&& after.issuer.float == before.issuer.float
            &&& forall|k: int|
                0 <= k < before.accounts.len() ==> account_balance(
                    after.issuer,
                    #[trigger] before.accounts[k],
                ) == account_balance(before.issuer, before.accounts[k])
        },
{
    lemma_operation_touches_only_its_devices(before, step.operation, step.result, after, i);
    lemma_violation_is_named(after, limit, money);
    lemma_snapshot_shows_everything(before);
    lemma_snapshot_shows_everything(after);
    if step.result is Err {
        assert(picture(after).0[i] == picture(before).0[i]);
        assert forall|k: int| 0 <= k < before.accounts.len() implies account_balance(
            after.issuer,
            #[trigger] before.accounts[k],
        ) == account_balance(before.issuer, before.accounts[k]) by {
            assert(picture(after).1[k] == picture(before).1[k]);
        }
    }
}

/// A step is stopped for what its failure says: the element cannot count the debit, the
/// operation was refused and yet something changed, or an invariant does not hold.
pub proof fn lemma_stopped_step_is_explained(
    before: WorldView,
    step: nat,
    operation: Operation,
    limit: u64,
    money: u128,
    failure: FuzzFailure,
    after: WorldView,
)
    requires
        step_fails(before, step, operation, limit, money, failure, after),
    ensures
        match failure {
            FuzzFailure::Exhausted { step: at } => at == step && after == before && !ready(
                before,
                operation,
            ),
            FuzzFailure::Changed { step: at, operation: op, error } => {
                &&& at == step
                &&& op == operation
                &&& operation_outcome(before, operation, Err(error), after)
                &&& picture(after) != picture(before)
            },
            FuzzFailure::Broken { step: at, operation: op, violation: found } => {
                &&& at == step
                &&& op == operation
                &&& violation(after, limit, money) == Some(found)
            },
            FuzzFailure::Setup { .. } => false,
        },
        ready(before, operation) <==> match operation {
            Operation::Fund { .. } => true,
            Operation::Defund { device, amount } => {
                let a = before.devices[device as int];
                0 < amount <= a.balance ==> a.key.n > 0 && a.counter < u64::MAX
            },
            Operation::Pay { payer, payee, amount } => {
                let a = before.devices[payer as int];
                a.pays(before.devices[payee as int], amount) ==> a.key.n > 0 && a.counter
                    < u64::MAX
            },
        },
{
}

/// Every account of a random run is opened with one and a half times the limit, rounded down,
/// and that is all the money there is.
pub proof fn lemma_run_starts_with_its_money(limit: u64, devices: usize)
    ensures
        3 * limit - 1 <= 2 * opening_balance(limit) <= 3 * limit,
        opening_balance(limit) * devices <= u128::MAX ==> money_in_run(limit, devices)
            == opening_balance(limit) * devices,
{
}

/// A world that was just opened: as many devices as balances, each fresh, with the limit and a
/// key of the width that was asked for; nothing in circulation; and each account holds what
/// it was opened with, if no later one has its identifier.
pub proof fn lemma_opened_world_is_fresh(
    world: WorldView,
    limit: u64,
    bits: u64,
    balances: Seq<u64>,
    i: int,
)
    requires
        world.well_formed(),
        opened(world, limit, bits, balances),
        0 <= i < balances.len(),
    ensures
        world.devices.len() == balances.len(),
        world.accounts.len() == balances.len(),
        world.issuer.float == 0,
        world.issuer.honoured == Set::<u128>::empty(),
        world.devices[i].balance == 0,
        world.devices[i].reserved() == 0,
        world.devices[i].counter == 0,
        world.devices[i].state == ElementState::Sealed,
        world.devices[i].certificate.holding_limit_cents == limit,
        world.devices[i].key.e == 65537,
        crate::bytes::bit_length(world.devices[i].key.n) == bits,
        (forall|j: int| i < j < world.accounts.len() ==> world.accounts[j] != world.accounts[i])
            ==> world.issuer.accounts.contains_key(crate::bytes::block_key(world.accounts[i].0))
            && world.issuer.accounts[crate::bytes::block_key(world.accounts[i].0)] == balances[i],
{
    assert(crate::protocol::fresh_wallet(world.devices[i]));
    crate::protocol::lemma_fresh_element_is_empty(world.devices[i]);
    assert(world.issuer.accounts.contains_key(
        crate::bytes::block_key(world.accounts[i].0),
    ));
}

/// A run that completed is a chain of worlds, one for each step, from one that was just opened
/// to the one that it ended in; each step is one that a run draws, and held.
pub proof fn lemma_completed_run_is_a_chain(
    devices: usize,
    limit: u64,
    bits: u64,
    steps: Seq<Step>,
    world: WorldView,
) -> (worlds: Seq<WorldView>)
    requires
        completed(devices, limit, bits, steps, world),
    ensures
        worlds.len() == steps.len() + 1,
        worlds.last() == world,
        worlds[0].well_formed(),
        opened(
            worlds[0],
            limit,
            bits,
            Seq::new(devices as nat, |i: int| opening_balance(limit) as u64),
        ),
        forall|i: int|
            0 <= i < steps.len() ==> {
                &&& drawn((#[trigger] steps[i]).operation, devices, limit)
                &&& step_holds(
                    worlds[i],
                    steps[i],
                    worlds[i + 1],
                    limit,
                    money_in_run(limit, devices),
                )
            },
{
    reveal(completed);
    reveal(ran);
    let worlds = choose|worlds: Seq<WorldView>| #[trigger]
        ran(worlds, steps, devices, limit, bits) && worlds.last() == world;
    assert forall|i: int| 0 <= i < steps.len() implies {
        &&& drawn((#[trigger] steps[i]).operation, devices, limit)
        &&& step_holds(worlds[i], steps[i], worlds[i + 1], limit, money_in_run(limit, devices))
    } by {
        assert(ran_at(worlds, steps, devices, limit, i));
    }
    worlds
}

/// A step is counted under the kind of its operation and how it went: the devices and the
/// amount do not matter.
pub proof fn lemma_label_says_how_it_went(step: Step)
    ensures
        ({
            let kind = match step.operation {
                Operation::Fund { .. } => "fund"@,
                Operation::Defund { .. } => "defund"@,
                Operation::Pay { .. } => "pay"@,
            };
            match step.result {
                Ok(_) => step_label(step) == kind + ": ok"@,
                Err(error) => step_label(step) == kind + (": refused, "@ + crate::error::error_name(
                    error,
                )),
            }
        }),
{
}

/// The count of a label is the number of steps that have it.
pub proof fn lemma_occurrences_are_counted(steps: Seq<Step>, label: Seq<char>)
    ensures
        occurrences(steps, label) == steps.filter(|step: Step| step_label(step) == label).len(),
    decreases steps.len(),
{
    let has = |step: Step| step_label(step) == label;
    reveal(Seq::filter);
    if steps.len() > 0 {
        lemma_occurrences_are_counted(steps.drop_last(), label);
    }
}

/// In a tally the labels come in order, so that none comes twice; each label has the number of
/// steps that have it, which is not zero; and every step is counted.
pub proof fn lemma_tally_counts_every_step(
    steps: Seq<Step>,
    counts: Seq<(String, usize)>,
    i: int,
    j: int,
)
    requires
        tallied(steps, counts),
    ensures
        0 <= i < j < counts.len() ==> crate::text::precedes(counts[i].0@, counts[j].0@)
            && counts[i].0@ != counts[j].0@,
        0 <= i < counts.len() ==> counts[i].1 > 0 && counts[i].1 == steps.filter(
            |step: Step| step_label(step) == counts[i].0@,
        ).len(),
        0 <= j < steps.len() ==> exists|k: int|
            0 <= k < counts.len() && (#[trigger] counts[k]).0@ == step_label(steps[j]),
{
    if 0 <= i < j < counts.len() {
        crate::text::precedes_is_irreflexive(counts[i].0@);
    }
    if 0 <= i < counts.len() {
        lemma_occurrences_are_counted(steps, counts[i].0@);
    }
    if 0 <= j < steps.len() {
        assert(listed(counts, step_label(steps[j])));
    }
}

/// The text of a violation spells the numbers that it is about: the device and what it holds, the
/// limit, the value on devices and the float, or the sums that do not add up.
pub proof fn lemma_violation_spells_its_numbers(
    violation: Violation,
    limit: u64,
    money: u128,
) -> (r: Seq<Seq<char>>)
    ensures
        match violation {
            Violation::OverLimit { device, balance } => {
                &&& violation_text(violation, limit, money) == "device "@ + r[0] + " holds "@ + r[1]
                    + " over a "@ + r[2] + " limit"@
                &&& crate::text::spells(r[0], device as nat)
                &&& crate::text::spells(r[1], balance as nat)
                &&& crate::text::spells(r[2], limit as nat)
            },
            Violation::Dangling { device } => {
                &&& violation_text(violation, limit, money) == "device "@ + r[0]
                    + " kept a reservation"@
                &&& crate::text::spells(r[0], device as nat)
            },
            Violation::FloatOff { on_devices, float } => {
                &&& float >= 0 ==> violation_text(violation, limit, money) == r[0]
                    + " on devices but float says "@ + r[1]
                &&& float < 0 ==> violation_text(violation, limit, money) == r[0]
                    + " on devices but float says "@ + ("-"@ + r[1])
                &&& crate::text::spells(r[0], on_devices as nat)
                &&& crate::text::spells(
                    r[1],
                    (if float < 0 {
                        -(float as int)
                    } else {
                        float as int
                    }) as nat,
                )
            },
            Violation::SupplyMoved { online, on_devices } => {
                &&& violation_text(violation, limit, money) == "money supply moved: "@ + r[0]
                    + " online + "@ + r[1] + " offline != "@ + r[2]
                &&& crate::text::spells(r[0], online as nat)
                &&& crate::text::spells(r[1], on_devices as nat)
                &&& crate::text::spells(r[2], money as nat)
            },
        },
{
    let (a, b, c) = match violation {
        Violation::OverLimit { device, balance } => (device as nat, balance as nat, limit as nat),
        Violation::Dangling { device } => (device as nat, 0nat, 0nat),
        Violation::FloatOff { on_devices, float } => (
            on_devices as nat,
            (if float < 0 {
                -(float as int)
            } else {
                float as int
            }) as nat,
            0nat,
        ),
        Violation::SupplyMoved { online, on_devices } => (
            online as nat,
            on_devices as nat,
            money as nat,
        ),
    };
    crate::text::lemma_texts_spell(a, Seq::empty());
    crate::text::lemma_texts_spell(b, Seq::empty());
    crate::text::lemma_texts_spell(c, Seq::empty());
    seq![
        crate::text::decimal_text(a),
        crate::text::decimal_text(b),
        crate::text::decimal_text(c),
    ]
}

/// The text of a run that failed spells the step at which it did, and says what was done and
/// what was found.
pub proof fn lemma_failed_run_spells_its_step(
    failure: FuzzFailure,
    limit: u64,
    money: u128,
) -> (r: Seq<char>)
    ensures
        ({
            let text = fuzz_failure_text(failure, limit, money);
            match failure {
                FuzzFailure::Setup { error } => text == "could not set up: "@
                    + crate::error::error_text(error),
                FuzzFailure::Exhausted { step } => {
                    &&& text == "at step "@ + r + ": the element cannot count another debit"@
                    &&& crate::text::spells(r, step as nat)
                },
                FuzzFailure::Changed { step, operation, error } => {
                    &&& text == "at step "@ + r + ": refused "@ + operation_kind(operation) + " ("@
                        + crate::error::error_text(error) + ") changed state"@
                    &&& crate::text::spells(r, step as nat)
                },
                FuzzFailure::Broken { step, operation, violation } => {
                    &&& text == "at step "@ + r + " after "@ + operation_kind(operation) + ": "@
                        + violation_text(violation, limit, money)
                    &&& crate::text::spells(r, step as nat)
                },
            }
        }),
{
    let step = match failure {
        FuzzFailure::Setup { .. } => 0nat,
        FuzzFailure::Exhausted { step } => step as nat,
        FuzzFailure::Changed { step, .. } => step as nat,
        FuzzFailure::Broken { step, .. } => step as nat,
    };
    crate::text::lemma_texts_spell(step, Seq::empty());
    crate::text::decimal_text(step)
}

} // verus!
