//! The Eurosystem-side backend: funds tokens under cut-and-choose, settles
//! deposits, and runs the double-spend solver.

use crate::ecash::accounts::{Account, AccountTable};
use crate::ecash::blind_sig::{IssuerKeypair, IssuerPublicKey};
use crate::ecash::field::Fp;
use crate::ecash::identity::WalletId;
use crate::ecash::token::{recover_identity, Receipt, ReceiptView, SecretLines, Serial, SpendProof};
use crate::ecash::withdrawal::{
    CutChallenge, Opening, Revealed, RevealedView, WithdrawalRequest, WithdrawalRequestView,
};
use crate::error::Error;
use crate::natural::Natural;
use crate::signature::PublicKeyView;
use rand::rngs::StdRng;
use std::collections::HashMap;
use vstd::prelude::*;

verus! {

/// What the backend remembers of a token that was deposited.
#[derive(Debug)]
pub struct LedgerEntry {
    pub proof: SpendProof,
    pub merchant_id: [u8; 8],
    pub amount_cents: u64,
}

impl Clone for LedgerEntry {
    fn clone(&self) -> (r: Self)
        ensures
            r == *self,
    {
        LedgerEntry {
            proof: self.proof.clone(),
            merchant_id: self.merchant_id,
            amount_cents: self.amount_cents,
        }
    }
}

/// What the backend concluded about one deposited receipt.
#[derive(Debug, PartialEq, Eq)]
pub enum Settlement {
    /// First sighting of this serial: merchant credited.
    Credited { amount_cents: u64 },
    /// Same serial, same challenge, same answer: the merchant deposited twice.
    /// Paid once, no fraud, no identity revealed.
    DuplicateDeposit,
    /// Same serial, two different challenges: the token was spent twice and the
    /// payer's identity falls out of the algebra.
    DoubleSpend(Box<FraudReport>),
    /// The receipt did not verify at all.
    Rejected(Error),
}

impl Clone for Settlement {
    fn clone(&self) -> (r: Self)
        ensures
            r == *self,
    {
        match self {
            Settlement::Credited { amount_cents } => Settlement::Credited {
                amount_cents: *amount_cents,
            },
            Settlement::DuplicateDeposit => Settlement::DuplicateDeposit,
            Settlement::DoubleSpend(report) => Settlement::DoubleSpend(Box::new(**report)),
            Settlement::Rejected(error) => Settlement::Rejected(*error),
        }
    }
}

/// Evidence assembled from two conflicting spends of one token.
#[derive(Clone, Copy, Debug, PartialEq, Eq)]
pub struct FraudReport {
    pub serial: Serial,
    pub amount_cents: u64,
    pub first_merchant: [u8; 8],
    pub second_merchant: [u8; 8],
    /// `Ok` with the recovered identity, or `Err` if the slopes were not a
    /// well-formed identity (a tampered wallet answering with noise).
    pub culprit: Result<WalletId, Error>,
    /// Whether the recovered identity matches a registered account.
    pub account_known: bool,
}

/// The state of the backend as plain values.
pub struct IssuerView {
    pub key: PublicKeyView,
    pub private_exponent: nat,
    pub accounts: Map<Seq<u8>, Account>,
    pub ledger: Map<u128, LedgerEntry>,
    pub outstanding_cents: u64,
}

/// Why an opened candidate is refused.
pub open spec fn revealed_error(
    key: PublicKeyView,
    request: WithdrawalRequestView,
    index: usize,
    revealed: RevealedView,
) -> Option<Error> {
    revealed_verdict(
        request,
        index,
        revealed,
        crate::ecash::token::lines_commitment(revealed.lines),
        crate::ecash::blind_sig::blinded_value(
            key,
            crate::ecash::token::payload_digest(revealed.payload),
            revealed.blinding_factor,
        ),
    )
}

/// Why an opened candidate is refused, given the commitment to its lines and its
/// blinded message.
pub open spec fn revealed_verdict(
    request: WithdrawalRequestView,
    index: usize,
    revealed: RevealedView,
    commitment: Seq<u8>,
    blinded: nat,
) -> Option<Error> {
    let candidate = request.candidates[index as int];
    if commitment != revealed.payload.commitment@ || revealed.payload.commitment
        != candidate.commitment {
        Some(Error::CommitmentMismatch { index })
    } else if revealed.payload.amount_cents != request.amount_cents
        || revealed.payload.expiry_epoch != request.expiry_epoch {
        Some(Error::CommitmentMismatch { index })
    } else if crate::ecash::identity::reassembled(crate::ecash::token::slopes(revealed.lines))
        != Ok::<Seq<u8>, Error>(request.account@) {
        Some(Error::IdentityNotEmbedded { index })
    } else if blinded != candidate.blinded_message {
        Some(Error::BlindingMismatch { index })
    } else {
        None
    }
}

/// Decides on an opened candidate, given the commitment to its lines and its
/// blinded message.
pub fn judge_revealed(
    request: &WithdrawalRequest,
    index: usize,
    revealed: &Revealed,
    commitment: &[u8; 32],
    blinded: &Natural,
) -> (r: Option<Error>)
    requires
        index < request@.candidates.len(),
    ensures
        r == revealed_verdict(request@, index, revealed@, commitment@, blinded@),
{
    let candidate = &request.candidates[index];
    proof {
        assert(request@.candidates[index as int] == candidate@);
    }
    // The commitment must bind the revealed lines and the payload.
    let bound: bool = crate::bytes::bytes_equal(
        commitment.as_slice(),
        revealed.payload.commitment.as_slice(),
    );
    let offered: bool = crate::bytes::bytes_equal(
        revealed.payload.commitment.as_slice(),
        candidate.commitment.as_slice(),
    );
    proof {
        if offered {
            assert(revealed.payload.commitment =~= candidate.commitment);
        }
    }
    if !bound || !offered {
        return Some(Error::CommitmentMismatch { index });
    }
    // The payload must be worth what was asked for.
    if revealed.payload.amount_cents != request.amount_cents || revealed.payload.expiry_epoch
        != request.expiry_epoch {
        return Some(Error::CommitmentMismatch { index });
    }
    // The slopes must carry the account holder's true identity.
    let embedded: bool = match revealed.lines.embedded_identity() {
        Ok(identity) => identity.equals(&request.account),
        Err(_) => false,
    };
    if !embedded {
        return Some(Error::IdentityNotEmbedded { index });
    }
    // And the blinded message must really be that payload.
    if !blinded.equals(&candidate.blinded_message) {
        return Some(Error::BlindingMismatch { index });
    }
    None
}

/// Whether an index was opened before a place in the opening.
pub open spec fn opened_before(
    openings: Seq<(usize, RevealedView)>,
    index: usize,
    place: int,
) -> bool {
    exists|j: int| 0 <= j < place && (#[trigger] openings[j]).0 == index
}

/// Why an opening is refused, from a place on.
pub open spec fn openings_error(
    key: PublicKeyView,
    request: WithdrawalRequestView,
    keep: usize,
    openings: Seq<(usize, RevealedView)>,
    place: int,
) -> Option<Error>
    decreases openings.len() - place,
{
    if place < 0 || place >= openings.len() {
        None
    } else {
        let (index, revealed) = openings[place];
        if index >= request.candidates.len() || index == keep || opened_before(
            openings,
            index,
            place,
        ) {
            Some(Error::BadOpening)
        } else {
            match revealed_error(key, request, index, revealed) {
                Some(error) => Some(error),
                None => openings_error(key, request, keep, openings, place + 1),
            }
        }
    }
}

impl IssuerView {
    /// Why a withdrawal is not let through to the cut.
    pub open spec fn cut_error(self, request: WithdrawalRequestView) -> Option<Error> {
        let account = self.accounts[request.account@];
        if !self.accounts.contains_key(request.account@) || account.suspended {
            Some(Error::UnknownAccount(request.account))
        } else if request.candidates.len() < 2 {
            Some(Error::BadParameters("cut-and-choose needs at least 2 candidates"))
        } else if account.balance_cents < request.amount_cents {
            Some(
                Error::InsufficientFunds {
                    requested: request.amount_cents,
                    available: account.balance_cents,
                },
            )
        } else {
            None
        }
    }

    /// Why a withdrawal is not signed.
    pub open spec fn issue_error(
        self,
        request: WithdrawalRequestView,
        keep: usize,
        openings: Seq<(usize, RevealedView)>,
    ) -> Option<Error> {
        if keep >= request.candidates.len() || openings.len() + 1 != request.candidates.len() {
            Some(Error::BadOpening)
        } else {
            match openings_error(self.key, request, keep, openings, 0) {
                Some(error) => Some(error),
                None => self.account_error(request),
            }
        }
    }

    /// Why an account cannot pay for a withdrawal.
    pub open spec fn account_error(self, request: WithdrawalRequestView) -> Option<Error> {
        let account = self.accounts[request.account@];
        if !self.accounts.contains_key(request.account@) {
            Some(Error::UnknownAccount(request.account))
        } else if account.balance_cents < request.amount_cents {
            Some(
                Error::InsufficientFunds {
                    requested: request.amount_cents,
                    available: account.balance_cents,
                },
            )
        } else {
            None
        }
    }

    /// The backend after a token is signed.
    pub open spec fn after_issue(self, request: WithdrawalRequestView) -> IssuerView {
        let account = self.accounts[request.account@];
        IssuerView {
            accounts: self.accounts.insert(
                request.account@,
                Account {
                    balance_cents: (account.balance_cents - request.amount_cents) as u64,
                    suspended: account.suspended,
                },
            ),
            outstanding_cents: (self.outstanding_cents + request.amount_cents) as u64,
            ..self
        }
    }
}

pub struct Issuer {
    keypair: IssuerKeypair,
    accounts: AccountTable,
    ledger: HashMap<u128, LedgerEntry>,
    outstanding_cents: u64,
}

impl View for Issuer {
    type V = IssuerView;

    closed spec fn view(&self) -> IssuerView {
        IssuerView {
            key: self.keypair.verification_key(),
            private_exponent: self.keypair.private_exponent(),
            accounts: self.accounts@,
            ledger: self.ledger@,
            outstanding_cents: self.outstanding_cents,
        }
    }
}

impl Issuer {
    /// No account is recorded twice.
    pub closed spec fn well_formed(&self) -> bool {
        self.accounts.well_formed()
    }

    pub fn new(keypair: IssuerKeypair) -> (r: Self)
        ensures
            r@ == (IssuerView {
                key: keypair.verification_key(),
                private_exponent: keypair.private_exponent(),
                accounts: Map::empty(),
                ledger: Map::empty(),
                outstanding_cents: 0,
            }),
            r.well_formed(),
    {
        Issuer {
            keypair,
            accounts: AccountTable::new(),
            ledger: HashMap::new(),
            outstanding_cents: 0,
        }
    }

    pub fn public_key(&self) -> (r: IssuerPublicKey)
        ensures
            r@ == self@.key,
    {
        self.keypair.public()
    }

    pub fn open_account(&mut self, identity: WalletId, balance_cents: u64)
        requires
            old(self).well_formed(),
        ensures
            final(self)@ == (IssuerView {
                accounts: old(self)@.accounts.insert(
                    identity@,
                    (Account { balance_cents, suspended: false }),
                ),
                ..old(self)@
            }),
            final(self).well_formed(),
    {
        self.accounts.set(identity, Account { balance_cents, suspended: false });
    }

    pub fn balance_of(&self, identity: &WalletId) -> (r: Option<u64>)
        requires
            self.well_formed(),
        ensures
            r is Some <==> self@.accounts.contains_key(identity@),
            r matches Some(balance) ==> balance == self@.accounts[identity@].balance_cents,
    {
        match self.accounts.get(identity) {
            Some(account) => Some(account.balance_cents),
            None => None,
        }
    }

    pub fn is_suspended(&self, identity: &WalletId) -> (r: bool)
        requires
            self.well_formed(),
        ensures
            r == (self@.accounts.contains_key(identity@)
                && self@.accounts[identity@].suspended),
    {
        match self.accounts.get(identity) {
            Some(account) => account.suspended,
            None => false,
        }
    }

    /// Face value of issued tokens not yet redeemed.
    pub fn outstanding_cents(&self) -> (r: u64)
        ensures
            r == self@.outstanding_cents,
    {
        self.outstanding_cents
    }

    /// Decides whether a withdrawal is let through to the cut.
    pub fn check_request(&self, request: &WithdrawalRequest) -> (r: Result<(), Error>)
        requires
            self.well_formed(),
        ensures
            r is Ok <==> self@.cut_error(request@) is None,
            r matches Err(error) ==> self@.cut_error(request@) == Some(error),
    {
        let account: Account = match self.accounts.get(&request.account) {
            Some(account) => account,
            None => {
                return Err(Error::UnknownAccount(request.account));
            },
        };
        if account.suspended {
            return Err(Error::UnknownAccount(request.account));
        }
        if request.candidates.len() < 2 {
            return Err(Error::BadParameters("cut-and-choose needs at least 2 candidates"));
        }
        if account.balance_cents < request.amount_cents {
            return Err(
                Error::InsufficientFunds {
                    requested: request.amount_cents,
                    available: account.balance_cents,
                },
            );
        }
        Ok(())
    }

    /// Picks which candidate survives the cut. Every other candidate must be
    /// opened, so a wallet that embedded a forged identity in `k` of `n`
    /// candidates escapes with probability `1/n` at best.
    pub fn cut(&self, request: &WithdrawalRequest, rng: &mut StdRng) -> (r: Result<
        CutChallenge,
        Error,
    >)
        requires
            self.well_formed(),
        ensures
            r is Ok <==> self@.cut_error(request@) is None,
            r matches Ok(cut) ==> cut.keep < request@.candidates.len(),
            r matches Err(error) ==> self@.cut_error(request@) == Some(error),
    {
        match self.check_request(request) {
            Ok(_) => {
                let drawn: u64 = crate::random::draw_between(
                    rng,
                    0,
                    request.candidates.len() as u64,
                );
                Ok(CutChallenge { keep: drawn as usize })
            },
            Err(error) => Err(error),
        }
    }

    /// Checks one opened candidate.
    fn check_revealed(
        &self,
        request: &WithdrawalRequest,
        index: usize,
        revealed: &Revealed,
    ) -> (r: Option<Error>)
        requires
            index < request@.candidates.len(),
        ensures
            r == revealed_error(self@.key, request@, index, revealed@),
    {
        let commitment: [u8; 32] = revealed.lines.commitment();
        let blinded: Natural = self.keypair.public().blind(
            &revealed.payload.digest(),
            &revealed.blinding_factor,
        );
        judge_revealed(request, index, revealed, &commitment, &blinded)
    }

    /// Checks every opened candidate.
    fn check_openings(
        &self,
        request: &WithdrawalRequest,
        keep: usize,
        opening: &Opening,
    ) -> (r: Option<Error>)
        ensures
            r == openings_error(self@.key, request@, keep, opening@, 0),
    {
        let total: usize = request.candidates.len();
        let mut seen: Vec<bool> = Vec::new();
        while seen.len() < total
            invariant
                seen@.len() <= total,
                forall|i: int| 0 <= i < seen@.len() ==> !seen@[i],
            decreases total - seen.len(),
        {
            seen.push(false);
        }
        let mut place: usize = 0;
        while place < opening.openings.len()
            invariant
                place <= opening@.len(),
                opening@.len() == opening.openings@.len(),
                total == request@.candidates.len(),
                seen@.len() == total,
                openings_error(self@.key, request@, keep, opening@, 0) == openings_error(
                    self@.key,
                    request@,
                    keep,
                    opening@,
                    place as int,
                ),
                forall|i: int|
                    0 <= i < total ==> (#[trigger] seen@[i] <==> opened_before(
                        opening@,
                        i as usize,
                        place as int,
                    )),
            decreases opening.openings.len() - place,
        {
            let index: usize = opening.openings[place].0;
            let ghost now = opening@[place as int];
            proof {
                assert(now == (index, opening.openings@[place as int].1@));
            }
            if index >= total || index == keep || seen[index] {
                return Some(Error::BadOpening);
            }
            match self.check_revealed(request, index, &opening.openings[place].1) {
                Some(error) => {
                    return Some(error);
                },
                None => {},
            }
            let ghost before = seen@;
            seen[index] = true;
            proof {
                assert forall|i: int| 0 <= i < total implies (#[trigger] seen@[i] <==> opened_before(
                    opening@,
                    i as usize,
                    place + 1,
                )) by {
                    assert(i != index ==> seen@[i] == before[i]);
                    if i == index {
                        assert(opening@[place as int].0 == index);
                    }
                    if opened_before(opening@, i as usize, place as int) {
                        let j = choose|j: int|
                            0 <= j < place && (#[trigger] opening@[j]).0 == i as usize;
                        assert(opening@[j].0 == i as usize);
                    }
                    if opened_before(opening@, i as usize, place + 1) && i != index {
                        let j = choose|j: int|
                            0 <= j < place + 1 && (#[trigger] opening@[j]).0 == i as usize;
                        assert(j != place);
                        assert(opening@[j].0 == i as usize);
                    }
                }
            }
            place = place + 1;
        }
        None
    }

    /// Verifies every opened candidate, debits the online account, and blindly
    /// signs the surviving candidate.
    pub fn issue(
        &mut self,
        request: &WithdrawalRequest,
        cut: &CutChallenge,
        opening: &Opening,
    ) -> (r: Result<Natural, Error>)
        requires
            old(self).well_formed(),
            old(self)@.issue_error(request@, cut.keep, opening@) is None ==> old(
                self,
            )@.outstanding_cents + request.amount_cents <= u64::MAX,
        ensures
            final(self).well_formed(),
            match r {
                Ok(signature) => {
                    &&& old(self)@.issue_error(request@, cut.keep, opening@) is None
                    &&& final(self)@ == old(self)@.after_issue(request@)
                    &&& signature@ == crate::ecash::blind_sig::blind_signature_value(
                        old(self)@.key.n,
                        old(self)@.private_exponent,
                        request@.candidates[cut.keep as int].blinded_message,
                    )
                },
                Err(error) => {
                    &&& old(self)@.issue_error(request@, cut.keep, opening@) == Some(error)
                    &&& final(self)@ == old(self)@
                },
            },
    {
        let total: usize = request.candidates.len();
        if cut.keep >= total || opening.openings.len() != total - 1 {
            return Err(Error::BadOpening);
        }
        match self.check_openings(request, cut.keep, opening) {
            Some(error) => {
                return Err(error);
            },
            None => {},
        }
        let account: Account = match self.accounts.get(&request.account) {
            Some(account) => account,
            None => {
                return Err(Error::UnknownAccount(request.account));
            },
        };
        if account.balance_cents < request.amount_cents {
            return Err(
                Error::InsufficientFunds {
                    requested: request.amount_cents,
                    available: account.balance_cents,
                },
            );
        }
        self.accounts.set(
            request.account,
            Account {
                balance_cents: account.balance_cents - request.amount_cents,
                suspended: account.suspended,
            },
        );
        self.outstanding_cents = self.outstanding_cents + request.amount_cents;

        // The issuer signs a value it cannot read: it knows the token is
        // well-formed, not which token it is.
        Ok(self.keypair.sign_blinded(&request.candidates[cut.keep].blinded_message))
    }
}

// ---------------------------------------------------------------------------
// Settlement
// ---------------------------------------------------------------------------

/// The identity that two spends of one token give away.
pub open spec fn culprit_of(first: SpendProof, second: SpendProof) -> Result<Seq<u8>, Error> {
    crate::ecash::identity::reassembled(
        crate::ecash::token::solved_slopes(
            first.challenge@,
            crate::ecash::identity::limb_digits(first.response@),
            second.challenge@,
            crate::ecash::identity::limb_digits(second.response@),
        ),
    )
}

/// The amount, or zero if more is taken than there is.
pub open spec fn left_of(balance: u64, taken: u64) -> u64 {
    if taken <= balance {
        (balance - taken) as u64
    } else {
        0
    }
}

impl IssuerView {
    /// The backend after a serial is seen for the first time.
    pub open spec fn after_credit(self, receipt: ReceiptView) -> IssuerView {
        IssuerView {
            ledger: self.ledger.insert(
                crate::bytes::block_key(receipt.token.payload.serial),
                LedgerEntry {
                    proof: receipt.proof,
                    merchant_id: receipt.merchant_id,
                    amount_cents: receipt.token.payload.amount_cents,
                },
            ),
            outstanding_cents: left_of(
                self.outstanding_cents,
                receipt.token.payload.amount_cents,
            ),
            ..self
        }
    }

    /// The backend after a culprit was found: a known account is suspended, and
    /// the duplicated value clawed back from its balance.
    pub open spec fn after_fraud(
        self,
        culprit: Result<Seq<u8>, Error>,
        amount: u64,
    ) -> IssuerView {
        match culprit {
            Ok(identity) if self.accounts.contains_key(identity) => IssuerView {
                accounts: self.accounts.insert(
                    identity,
                    Account {
                        balance_cents: left_of(self.accounts[identity].balance_cents, amount),
                        suspended: true,
                    },
                ),
                ..self
            },
            _ => self,
        }
    }

    /// Whether a culprit has an account here.
    pub open spec fn knows(self, culprit: Result<Seq<u8>, Error>) -> bool {
        match culprit {
            Ok(identity) => self.accounts.contains_key(identity),
            Err(_) => false,
        }
    }

    /// Why a receipt is rejected before the ledger is looked at.
    pub open spec fn receipt_error(self, receipt: ReceiptView) -> Option<Error> {
        receipt_verdict(receipt, self.signed(receipt))
    }

    /// Whether the token of a receipt is signed.
    pub open spec fn signed(self, receipt: ReceiptView) -> bool {
        crate::signature::signature_valid(
            self.key,
            crate::ecash::token::payload_digest(receipt.token.payload),
            receipt.token.signature,
        )
    }

    /// What is concluded about a receipt, given whether its token is signed.
    pub open spec fn settlement_is(
        self,
        receipt: ReceiptView,
        signed: bool,
        settlement: Settlement,
    ) -> bool {
        let serial = crate::bytes::block_key(receipt.token.payload.serial);
        let amount = receipt.token.payload.amount_cents;
        let previous = self.ledger[serial];
        if receipt_verdict(receipt, signed) is Some {
            settlement == Settlement::Rejected(receipt_verdict(receipt, signed).unwrap())
        } else if !self.ledger.contains_key(serial) {
            settlement == (Settlement::Credited { amount_cents: amount })
        } else if previous.proof.challenge@ == receipt.proof.challenge@ {
            settlement == if crate::ecash::identity::limb_digits(previous.proof.response@)
                == crate::ecash::identity::limb_digits(receipt.proof.response@) {
                Settlement::DuplicateDeposit
            } else {
                Settlement::Rejected(Error::ChallengeMismatch)
            }
        } else {
            let culprit = culprit_of(previous.proof, receipt.proof);
            settlement matches Settlement::DoubleSpend(report) && {
                &&& report.serial == receipt.token.payload.serial
                &&& report.amount_cents == previous.amount_cents
                &&& report.first_merchant == previous.merchant_id
                &&& report.second_merchant == receipt.merchant_id
                &&& crate::ecash::identity::same_identity(report.culprit, culprit)
                &&& report.account_known == self.knows(culprit)
            }
        }
    }

    /// The backend after a receipt is settled.
    pub open spec fn after_settlement(
        self,
        receipt: ReceiptView,
        settlement: Settlement,
    ) -> IssuerView {
        match settlement {
            Settlement::Credited { .. } => self.after_credit(receipt),
            Settlement::DoubleSpend(_) => self.after_fraud(
                culprit_of(
                    self.ledger[crate::bytes::block_key(receipt.token.payload.serial)].proof,
                    receipt.proof,
                ),
                receipt.token.payload.amount_cents,
            ),
            _ => self,
        }
    }

    /// What becomes of a receipt, and of the backend.
    pub open spec fn settles(
        self,
        receipt: ReceiptView,
        settlement: Settlement,
        after: IssuerView,
    ) -> bool {
        &&& self.settlement_is(receipt, self.signed(receipt), settlement)
        &&& after == self.after_settlement(receipt, settlement)
    }
}

/// Why a receipt is rejected before the ledger is looked at, given whether its
/// token is signed.
pub open spec fn receipt_verdict(receipt: ReceiptView, signed: bool) -> Option<Error> {
    if !signed {
        Some(Error::InvalidTokenSignature)
    } else if receipt.proof.challenge@ == 0 {
        Some(Error::DegenerateChallenge)
    } else {
        None
    }
}

/// Whether two answers are the same on every line.
fn same_response(a: &[Fp; 5], b: &[Fp; 5]) -> (r: bool)
    ensures
        r == (crate::ecash::identity::limb_digits(a@) == crate::ecash::identity::limb_digits(b@)),
{
    let mut j: usize = 0;
    while j < 5
        invariant
            j <= 5,
            forall|i: int| 0 <= i < j ==> (#[trigger] a@[i])@ == b@[i]@,
        decreases 5 - j,
    {
        if !a[j].equals(b[j]) {
            proof {
                assert(crate::ecash::identity::limb_digits(a@)[j as int]
                    != crate::ecash::identity::limb_digits(b@)[j as int]);
            }
            return false;
        }
        j = j + 1;
    }
    proof {
        assert(crate::ecash::identity::limb_digits(a@) =~= crate::ecash::identity::limb_digits(b@));
    }
    true
}

impl Issuer {
    /// Concludes about a receipt, given whether its token is signed. Nothing is
    /// recorded.
    pub fn judge_receipt(&self, receipt: &Receipt, signed: bool) -> (r: Settlement)
        requires
            self.well_formed(),
        ensures
            self@.settlement_is(receipt@, signed, r),
    {
        if !signed {
            return Settlement::Rejected(Error::InvalidTokenSignature);
        }
        if receipt.proof.challenge.is_zero() {
            return Settlement::Rejected(Error::DegenerateChallenge);
        }
        let serial: u128 = crate::bytes::u128_from_be_bytes(&receipt.token.payload.serial);
        let previous: &LedgerEntry = match self.ledger.get(&serial) {
            None => {
                return Settlement::Credited { amount_cents: receipt.token.payload.amount_cents };
            },
            Some(entry) => entry,
        };
        if previous.proof.challenge.equals(receipt.proof.challenge) {
            // Same abscissa, different ordinate: the two points are not on
            // any single line, so this is a forged response rather than a
            // double-spend. No identity can be extracted.
            return if same_response(&previous.proof.response, &receipt.proof.response) {
                Settlement::DuplicateDeposit
            } else {
                Settlement::Rejected(Error::ChallengeMismatch)
            };
        }
        // Two points, two different abscissae: solve for the slope.
        let culprit: Result<WalletId, Error> = match recover_identity(
            &previous.proof,
            &receipt.proof,
        ) {
            Some(culprit) => culprit,
            None => Err(Error::ChallengeMismatch),
        };
        let account_known: bool = match &culprit {
            Ok(identity) => self.accounts.get(identity).is_some(),
            Err(_) => false,
        };
        Settlement::DoubleSpend(
            Box::new(
                FraudReport {
                    serial: receipt.token.payload.serial,
                    amount_cents: previous.amount_cents,
                    first_merchant: previous.merchant_id,
                    second_merchant: receipt.merchant_id,
                    culprit,
                    account_known,
                },
            ),
        )
    }

    /// Settles one deposited receipt.
    pub fn redeem(&mut self, receipt: &Receipt) -> (r: Settlement)
        requires
            old(self).well_formed(),
        ensures
            old(self)@.settles(receipt@, r, final(self)@),
            final(self).well_formed(),
    {
        let signed: bool = self.keypair.public().verify(
            &receipt.token.payload.digest(),
            &receipt.token.signature,
        );
        let amount_cents: u64 = receipt.token.payload.amount_cents;
        let settlement: Settlement = self.judge_receipt(receipt, signed);
        match &settlement {
            Settlement::Credited { .. } => {
                self.ledger.insert(
                    crate::bytes::u128_from_be_bytes(&receipt.token.payload.serial),
                    LedgerEntry {
                        proof: receipt.proof.clone(),
                        merchant_id: receipt.merchant_id,
                        amount_cents,
                    },
                );
                self.outstanding_cents = self.outstanding_cents.saturating_sub(amount_cents);
            },
            Settlement::DoubleSpend(report) => {
                if let Ok(identity) = &report.culprit {
                    if let Some(account) = self.accounts.get(identity) {
                        // Claw back the duplicated value from the online balance.
                        self.accounts.set(
                            *identity,
                            Account {
                                balance_cents: account.balance_cents.saturating_sub(amount_cents),
                                suspended: true,
                            },
                        );
                    }
                }
            },
            _ => {},
        }
        settlement
    }
}

// ---------------------------------------------------------------------------
// What holds across calls
// ---------------------------------------------------------------------------

/// Spending a token twice gives the payer away: if the ledger holds the answer of
/// some lines to one challenge, and a receipt brings their answer to another, the
/// settlement names the identity in the slopes, and a known account is suspended.
pub proof fn lemma_double_spend_is_settled_on_the_payer(
    issuer: IssuerView,
    receipt: ReceiptView,
    lines: SecretLines,
    identity: Seq<u8>,
    settlement: Settlement,
    after: IssuerView,
)
    requires
        issuer.settles(receipt, settlement, after),
        issuer.receipt_error(receipt) is None,
        issuer.ledger.contains_key(crate::bytes::block_key(receipt.token.payload.serial)),
        crate::ecash::token::lines_in_field(lines),
        identity.len() == 32,
        crate::ecash::token::slopes(lines) == crate::ecash::identity::limbs_of(identity),
        ({
            let first = issuer.ledger[crate::bytes::block_key(
                receipt.token.payload.serial,
            )].proof;
            let second = receipt.proof;
            &&& first.challenge@ < crate::ecash::field::P
            &&& second.challenge@ < crate::ecash::field::P
            &&& first.challenge@ != second.challenge@
            &&& crate::ecash::identity::limb_digits(first.response@)
                == crate::ecash::token::points(lines, first.challenge@)
            &&& crate::ecash::identity::limb_digits(second.response@)
                == crate::ecash::token::points(lines, second.challenge@)
        }),
    ensures
        settlement is DoubleSpend,
        crate::ecash::identity::same_identity(
            settlement->DoubleSpend_0.culprit,
            Ok::<Seq<u8>, Error>(identity),
        ),
        settlement->DoubleSpend_0.account_known == issuer.accounts.contains_key(identity),
        issuer.accounts.contains_key(identity) ==> after.accounts[identity].suspended,
        forall|other: Seq<u8>|
            other != identity && issuer.accounts.contains_key(other)
                ==> #[trigger] after.accounts[other] == issuer.accounts[other],
{
    let first = issuer.ledger[crate::bytes::block_key(receipt.token.payload.serial)].proof;
    let second = receipt.proof;
    crate::ecash::token::lemma_double_spend_reveals_the_identity(
        lines,
        identity,
        first.challenge@,
        second.challenge@,
    );
    assert(culprit_of(first, second) == Ok::<Seq<u8>, Error>(identity));
}

/// A receipt is paid once: deposited again, it settles as a duplicate and moves
/// nothing, whatever else was settled in between.
pub proof fn lemma_receipt_is_paid_once(
    issuer: IssuerView,
    receipt: ReceiptView,
    later: IssuerView,
    settlement: Settlement,
    after: IssuerView,
)
    requires
        issuer.receipt_error(receipt) is None,
        !issuer.ledger.contains_key(crate::bytes::block_key(receipt.token.payload.serial)),
        later.key == issuer.key,
        later.ledger.contains_key(crate::bytes::block_key(receipt.token.payload.serial)),
        later.ledger[crate::bytes::block_key(receipt.token.payload.serial)]
            == issuer.after_credit(receipt).ledger[crate::bytes::block_key(
            receipt.token.payload.serial,
        )],
        later.settles(receipt, settlement, after),
    ensures
        settlement == Settlement::DuplicateDeposit,
        after == later,
{
}

/// Once a serial is in the ledger, its entry never changes.
pub proof fn lemma_ledger_keeps_its_entries(
    issuer: IssuerView,
    receipt: ReceiptView,
    settlement: Settlement,
    after: IssuerView,
    serial: u128,
)
    requires
        issuer.settles(receipt, settlement, after),
        issuer.ledger.contains_key(serial),
    ensures
        after.ledger.contains_key(serial),
        after.ledger[serial] == issuer.ledger[serial],
{
}

/// A withdrawal turns balance into outstanding tokens, cent for cent, and a first
/// deposit takes the face value out of what is outstanding.
pub proof fn lemma_outstanding_follows_the_tokens(
    issuer: IssuerView,
    request: WithdrawalRequestView,
    keep: usize,
    openings: Seq<(usize, RevealedView)>,
)
    requires
        issuer.issue_error(request, keep, openings) is None,
        issuer.outstanding_cents + request.amount_cents <= u64::MAX,
    ensures
        issuer.after_issue(request).outstanding_cents + issuer.after_issue(
            request,
        ).accounts[request.account@].balance_cents == issuer.outstanding_cents
            + issuer.accounts[request.account@].balance_cents,
        forall|receipt: ReceiptView|
            receipt.token.payload.amount_cents == request.amount_cents
                ==> #[trigger] issuer.after_issue(request).after_credit(receipt).outstanding_cents
                == issuer.outstanding_cents,
{
}

/// What an accepted opening has shown, from a place on.
proof fn lemma_openings_checked(
    key: PublicKeyView,
    request: WithdrawalRequestView,
    keep: usize,
    openings: Seq<(usize, RevealedView)>,
    place: int,
    k: int,
)
    requires
        0 <= place <= k < openings.len(),
        openings_error(key, request, keep, openings, place) is None,
    ensures
        openings[k].0 < request.candidates.len(),
        openings[k].0 != keep,
        !opened_before(openings, openings[k].0, k),
        revealed_error(key, request, openings[k].0, openings[k].1) is None,
    decreases k - place,
{
    if place < k {
        lemma_openings_checked(key, request, keep, openings, place + 1, k);
    }
}

/// Cut-and-choose: if the issuer signs, then every candidate but the one that was
/// kept back has been opened and embeds the identity of the account. A forged
/// candidate therefore gets through only if it is the very one that is kept.
pub proof fn lemma_every_other_candidate_was_opened(
    issuer: IssuerView,
    request: WithdrawalRequestView,
    keep: usize,
    openings: Seq<(usize, RevealedView)>,
    index: usize,
) -> (k: int)
    requires
        issuer.issue_error(request, keep, openings) is None,
        index < request.candidates.len(),
        index != keep,
    ensures
        0 <= k < openings.len(),
        openings[k].0 == index,
        revealed_error(issuer.key, request, index, openings[k].1) is None,
        crate::ecash::identity::reassembled(
            crate::ecash::token::slopes(openings[k].1.lines),
        ) == Ok::<Seq<u8>, Error>(request.account@),
{
    let total = request.candidates.len();
    let places = Seq::new(openings.len(), |k: int| openings[k].0 as int);
    assert forall|k: int| 0 <= k < openings.len() implies 0 <= #[trigger] places[k] < total
        && places[k] != keep by {
        lemma_openings_checked(issuer.key, request, keep, openings, 0, k);
    }
    assert(places.no_duplicates()) by {
        assert forall|i: int, j: int|
            0 <= i < places.len() && 0 <= j < places.len() && i != j implies places[i]
            != places[j] by {
            let (low, high) = if i < j {
                (i, j)
            } else {
                (j, i)
            };
            lemma_openings_checked(issuer.key, request, keep, openings, 0, high);
            if openings[low].0 == openings[high].0 {
                assert(opened_before(openings, openings[high].0, high));
            }
        }
    }
    // `total - 1` different places out of `total - 1` cover all of them.
    let others = vstd::set_lib::set_int_range(0, total as int).remove(keep as int);
    vstd::set_lib::lemma_int_range(0, total as int);
    places.unique_seq_to_set();
    assert(places.to_set().subset_of(others));
    vstd::set_lib::lemma_subset_equality(places.to_set(), others);
    assert(others.contains(index as int));
    assert(places.contains(index as int));
    let k = places.index_of(index as int);
    lemma_openings_checked(issuer.key, request, keep, openings, 0, k);
    k
}

// ---------------------------------------------------------------------------
// Who may withdraw, and what it costs
// ---------------------------------------------------------------------------

/// The cut lets a withdrawal through exactly if the account is known and not suspended,
/// there are at least two candidates, and the amount is at most the balance. In
/// particular the whole balance can be withdrawn.
pub proof fn lemma_balance_can_be_withdrawn(issuer: IssuerView, request: WithdrawalRequestView)
    ensures
        issuer.cut_error(request) is None <==> {
            &&& issuer.accounts.contains_key(request.account@)
            &&& !issuer.accounts[request.account@].suspended
            &&& request.candidates.len() >= 2
            &&& request.amount_cents <= issuer.accounts[request.account@].balance_cents
        },
        ({
            let error = issuer.cut_error(request);
            let account = issuer.accounts[request.account@];
            let known = issuer.accounts.contains_key(request.account@) && !account.suspended;
            let enough = request.candidates.len() >= 2;
            &&& error == Some(Error::UnknownAccount(request.account)) <==> !known
            &&& error == Some(
                Error::BadParameters("cut-and-choose needs at least 2 candidates"),
            ) <==> known && !enough
            &&& error == Some(
                Error::InsufficientFunds {
                    requested: request.amount_cents,
                    available: account.balance_cents,
                },
            ) <==> known && enough && request.amount_cents > account.balance_cents
        }),
{
}

/// When the issuer comes to sign, the account has to be known still, and to cover the
/// amount.
pub proof fn lemma_account_has_to_cover_the_amount(
    issuer: IssuerView,
    request: WithdrawalRequestView,
)
    ensures
        issuer.account_error(request) is None <==> issuer.accounts.contains_key(request.account@)
            && request.amount_cents <= issuer.accounts[request.account@].balance_cents,
        issuer.account_error(request) == Some(Error::UnknownAccount(request.account)) <==>
            !issuer.accounts.contains_key(request.account@),
        issuer.account_error(request) == Some(
            Error::InsufficientFunds {
                requested: request.amount_cents,
                available: issuer.accounts[request.account@].balance_cents,
            },
        ) <==> issuer.accounts.contains_key(request.account@) && request.amount_cents
            > issuer.accounts[request.account@].balance_cents,
{
}

/// A signed withdrawal takes the amount from the account and adds it to what is
/// outstanding. Nothing else changes: no other account, no suspension, and no deposit.
pub proof fn lemma_withdrawal_moves_the_amount(issuer: IssuerView, request: WithdrawalRequestView)
    requires
        issuer.account_error(request) is None,
        issuer.outstanding_cents + request.amount_cents <= u64::MAX,
    ensures
        ({
            let after = issuer.after_issue(request);
            let id = request.account@;
            &&& after.accounts[id].balance_cents == issuer.accounts[id].balance_cents
                - request.amount_cents
            &&& after.accounts[id].suspended == issuer.accounts[id].suspended
            &&& after.outstanding_cents == issuer.outstanding_cents + request.amount_cents
            &&& after.accounts.dom() == issuer.accounts.dom()
            &&& forall|other: Seq<u8>|
                other != id ==> #[trigger] after.accounts[other] == issuer.accounts[other]
            &&& after.ledger == issuer.ledger
            &&& after.key == issuer.key
            &&& after.private_exponent == issuer.private_exponent
        }),
{
    assert(issuer.after_issue(request).accounts.dom() =~= issuer.accounts.dom());
}

/// An opened candidate passes exactly if its commitment binds the opened lines and is the
/// one that was offered, it is worth what was asked for, its slopes carry the identity of
/// the account, and what was offered for signature is its own blinded digest.
pub proof fn lemma_opened_candidate_has_to_be_honest(
    request: WithdrawalRequestView,
    index: usize,
    revealed: RevealedView,
    commitment: Seq<u8>,
    blinded: nat,
)
    ensures
        ({
            let error = revealed_verdict(request, index, revealed, commitment, blinded);
            let offer = request.candidates[index as int];
            let bound = revealed.payload.commitment@ == commitment && revealed.payload.commitment
                == offer.commitment;
            let exact = revealed.payload.amount_cents == request.amount_cents
                && revealed.payload.expiry_epoch == request.expiry_epoch;
            let named = crate::ecash::identity::reassembled(
                crate::ecash::token::slopes(revealed.lines),
            ) == Ok::<Seq<u8>, Error>(request.account@);
            let own = offer.blinded_message == blinded;
            &&& error is None <==> bound && exact && named && own
            &&& error == Some(Error::CommitmentMismatch { index }) <==> !(bound && exact)
            &&& error == Some(Error::IdentityNotEmbedded { index }) <==> bound && exact && !named
            &&& error == Some(Error::BlindingMismatch { index }) <==> bound && exact && named
                && !own
        }),
{
}

/// What goes into the verdict on an opened candidate is the commitment to its own lines
/// and its own blinded digest.
pub proof fn lemma_opened_candidate_is_recomputed(
    key: PublicKeyView,
    request: WithdrawalRequestView,
    index: usize,
    revealed: RevealedView,
)
    ensures
        revealed_error(key, request, index, revealed) is None ==> {
            &&& revealed.payload.commitment@ == crate::ecash::token::lines_commitment(
                revealed.lines,
            )
            &&& request.candidates[index as int].commitment == revealed.payload.commitment
            &&& revealed.payload.amount_cents == request.amount_cents
            &&& revealed.payload.expiry_epoch == request.expiry_epoch
            &&& crate::ecash::identity::reassembled(
                crate::ecash::token::slopes(revealed.lines),
            ) == Ok::<Seq<u8>, Error>(request.account@)
            &&& request.candidates[index as int].blinded_message
                == crate::ecash::blind_sig::blinded_value(
                key,
                crate::ecash::token::payload_digest(revealed.payload),
                revealed.blinding_factor,
            )
        },
{
}

/// An opening is in order exactly if each of its entries is: the place exists, is not the
/// one that is kept, was not opened before, and the candidate passes.
pub proof fn lemma_opening_has_to_be_in_order(
    key: PublicKeyView,
    request: WithdrawalRequestView,
    keep: usize,
    openings: Seq<(usize, RevealedView)>,
    place: int,
)
    requires
        0 <= place <= openings.len(),
    ensures
        openings_error(key, request, keep, openings, place) is None <==> forall|k: int|
            place <= k < openings.len() ==> {
                let index = (#[trigger] openings[k]).0;
                &&& index < request.candidates.len()
                &&& index != keep
                &&& forall|j: int| 0 <= j < k ==> (#[trigger] openings[j]).0 != index
                &&& revealed_error(key, request, index, openings[k].1) is None
            },
    decreases openings.len() - place,
{
    if place < openings.len() {
        lemma_opening_has_to_be_in_order(key, request, keep, openings, place + 1);
        let index = openings[place].0;
        let open = opened_before(openings, index, place);
        if !open {
            assert forall|j: int| 0 <= j < place implies (#[trigger] openings[j]).0 != index by {}
        }
    }
}

/// The first entry of an opening that is not in order decides what is wrong with it.
pub proof fn lemma_first_bad_entry_decides(
    key: PublicKeyView,
    request: WithdrawalRequestView,
    keep: usize,
    openings: Seq<(usize, RevealedView)>,
    place: int,
    k: int,
)
    requires
        0 <= place <= k < openings.len(),
        openings_error(key, request, keep, openings.take(k), place) is None,
    ensures
        ({
            let index = openings[k].0;
            let misplaced = index >= request.candidates.len() || index == keep || exists|j: int|
                0 <= j < k && (#[trigger] openings[j]).0 == index;
            let error = openings_error(key, request, keep, openings, place);
            &&& misplaced ==> error == Some(Error::BadOpening)
            &&& !misplaced && revealed_error(key, request, index, openings[k].1) is Some ==> error
                == revealed_error(key, request, index, openings[k].1)
        }),
    decreases k - place,
{
    let head = openings.take(k);
    if place < k {
        assert(head[place] == openings[place]);
        let index = openings[place].0;
        if opened_before(openings, index, place) {
            let j = choose|j: int| 0 <= j < place && (#[trigger] openings[j]).0 == index;
            assert(head[j].0 == index);
            assert(opened_before(head, index, place));
        }
        lemma_first_bad_entry_decides(key, request, keep, openings, place + 1, k);
    }
}

/// A withdrawal is signed exactly if the kept candidate exists, all others and no more are
/// opened, every entry is in order, and the account covers the amount.
pub proof fn lemma_only_a_full_opening_is_signed(
    issuer: IssuerView,
    request: WithdrawalRequestView,
    keep: usize,
    openings: Seq<(usize, RevealedView)>,
)
    ensures
        issuer.issue_error(request, keep, openings) is None <==> {
            &&& keep < request.candidates.len()
            &&& openings.len() == request.candidates.len() - 1
            &&& openings_error(issuer.key, request, keep, openings, 0) is None
            &&& issuer.accounts.contains_key(request.account@)
            &&& request.amount_cents <= issuer.accounts[request.account@].balance_cents
        },
        !(keep < request.candidates.len() && openings.len() == request.candidates.len() - 1)
            ==> issuer.issue_error(request, keep, openings) == Some(Error::BadOpening),
        keep < request.candidates.len() && openings.len() == request.candidates.len() - 1
            && openings_error(issuer.key, request, keep, openings, 0) is Some
            ==> issuer.issue_error(request, keep, openings) == openings_error(
            issuer.key,
            request,
            keep,
            openings,
            0,
        ),
        keep < request.candidates.len() && openings.len() == request.candidates.len() - 1
            && openings_error(issuer.key, request, keep, openings, 0) is None
            ==> issuer.issue_error(request, keep, openings) == issuer.account_error(request),
{
}

// ---------------------------------------------------------------------------
// What a deposit is worth
// ---------------------------------------------------------------------------

/// Whenever a receipt settles as credited, the amount is the face value of its token, no
/// more and no less; and it settles so exactly if the token is signed, the challenge is
/// not zero, and the serial was not deposited before.
pub proof fn lemma_credit_is_the_face_value(
    issuer: IssuerView,
    receipt: ReceiptView,
    signed: bool,
    settlement: Settlement,
)
    requires
        issuer.settlement_is(receipt, signed, settlement),
    ensures
        settlement is Credited <==> signed && receipt.proof.challenge@ != 0
            && !issuer.ledger.contains_key(
            crate::bytes::block_key(receipt.token.payload.serial),
        ),
        settlement matches Settlement::Credited { amount_cents } ==> amount_cents
            == receipt.token.payload.amount_cents,
{
}

/// What is concluded about a receipt that is not credited. An unsigned token and a zero
/// challenge are rejected. Of a serial that was deposited before, the same answer to the
/// same challenge is a duplicate, another answer to it is rejected, and an answer to
/// another challenge is a double-spend.
pub proof fn lemma_receipt_is_judged_on_its_merits(
    issuer: IssuerView,
    receipt: ReceiptView,
    signed: bool,
    settlement: Settlement,
)
    requires
        issuer.settlement_is(receipt, signed, settlement),
    ensures
        ({
            let serial = crate::bytes::block_key(receipt.token.payload.serial);
            let proper = signed && receipt.proof.challenge@ != 0;
            let seen = issuer.ledger.contains_key(serial);
            let first = issuer.ledger[serial];
            let same_challenge = first.proof.challenge@ == receipt.proof.challenge@;
            let same_answer = forall|j: int|
                0 <= j < 5 ==> (#[trigger] first.proof.response@[j])@
                    == receipt.proof.response@[j]@;
            &&& settlement == Settlement::Rejected(Error::InvalidTokenSignature) <==> !signed
            &&& settlement == Settlement::Rejected(Error::DegenerateChallenge) <==> signed
                && receipt.proof.challenge@ == 0
            &&& settlement == Settlement::DuplicateDeposit <==> proper && seen && same_challenge
                && same_answer
            &&& settlement == Settlement::Rejected(Error::ChallengeMismatch) <==> proper && seen
                && same_challenge && !same_answer
            &&& settlement is DoubleSpend <==> proper && seen && !same_challenge
        }),
{
    let serial = crate::bytes::block_key(receipt.token.payload.serial);
    let a = issuer.ledger[serial].proof.response@;
    let b = receipt.proof.response@;
    let x = crate::ecash::identity::limb_digits(a);
    let y = crate::ecash::identity::limb_digits(b);
    assert(a.len() == 5 && b.len() == 5);
    assert(forall|j: int| 0 <= j < 5 ==> x[j] == (#[trigger] a[j])@ && y[j] == b[j]@);
    if x == y {
        assert forall|j: int| 0 <= j < 5 implies (#[trigger] a[j])@ == b[j]@ by {
            assert(x[j] == y[j]);
        }
    }
    if forall|j: int| 0 <= j < 5 ==> (#[trigger] a[j])@ == b[j]@ {
        assert(x =~= y);
    }
}

/// The report of a double-spend names the token, what it was worth at its first deposit,
/// both merchants in the order of their deposits, and whether the culprit has an account.
pub proof fn lemma_fraud_report_names_both_deposits(
    issuer: IssuerView,
    receipt: ReceiptView,
    signed: bool,
    settlement: Settlement,
)
    requires
        issuer.settlement_is(receipt, signed, settlement),
        settlement is DoubleSpend,
    ensures
        ({
            let serial = crate::bytes::block_key(receipt.token.payload.serial);
            let first = issuer.ledger[serial];
            let report = settlement->DoubleSpend_0;
            &&& report.serial == receipt.token.payload.serial
            &&& report.amount_cents == first.amount_cents
            &&& report.first_merchant == first.merchant_id
            &&& report.second_merchant == receipt.merchant_id
            &&& match report.culprit {
                Ok(identity) => report.account_known == issuer.accounts.contains_key(identity@),
                Err(_) => !report.account_known,
            }
        }),
{
}

/// A credited deposit enters the ledger with its proof, its merchant and its face value,
/// and takes the face value out of what is outstanding as far as that goes. No account is
/// touched.
pub proof fn lemma_credit_leaves_the_outstanding_total(
    issuer: IssuerView,
    receipt: ReceiptView,
    settlement: Settlement,
    after: IssuerView,
)
    requires
        issuer.settles(receipt, settlement, after),
        settlement is Credited,
    ensures
        ({
            let serial = crate::bytes::block_key(receipt.token.payload.serial);
            let amount = settlement->amount_cents;
            &&& amount == receipt.token.payload.amount_cents
            &&& amount <= issuer.outstanding_cents ==> issuer.outstanding_cents
                - after.outstanding_cents == amount
            &&& amount > issuer.outstanding_cents ==> after.outstanding_cents == 0
            &&& after.accounts == issuer.accounts
            &&& after.key == issuer.key
            &&& after.private_exponent == issuer.private_exponent
            &&& after.ledger.dom() == issuer.ledger.dom().insert(serial)
            &&& after.ledger[serial].proof == receipt.proof
            &&& after.ledger[serial].merchant_id == receipt.merchant_id
            &&& after.ledger[serial].amount_cents == receipt.token.payload.amount_cents
            &&& forall|other: u128|
                other != serial ==> #[trigger] after.ledger[other] == issuer.ledger[other]
        }),
{
    let serial = crate::bytes::block_key(receipt.token.payload.serial);
    assert(after.ledger.dom() =~= issuer.ledger.dom().insert(serial));
}

/// A double-spend suspends the account of the culprit, if there is one, and takes the face
/// value of the second receipt from its balance as far as that goes. Nobody else pays, and
/// neither the ledger nor what is outstanding changes.
pub proof fn lemma_double_spender_pays(
    issuer: IssuerView,
    receipt: ReceiptView,
    settlement: Settlement,
    after: IssuerView,
)
    requires
        issuer.settles(receipt, settlement, after),
        settlement is DoubleSpend,
    ensures
        after.ledger == issuer.ledger,
        after.outstanding_cents == issuer.outstanding_cents,
        after.key == issuer.key,
        after.private_exponent == issuer.private_exponent,
        after.accounts.dom() == issuer.accounts.dom(),
        match settlement->DoubleSpend_0.culprit {
            Ok(identity) => {
                let taken = receipt.token.payload.amount_cents;
                let account = issuer.accounts[identity@];
                &&& issuer.accounts.contains_key(identity@) ==> {
                    &&& after.accounts[identity@].suspended
                    &&& taken <= account.balance_cents ==> after.accounts[identity@].balance_cents
                        == account.balance_cents - taken
                    &&& taken > account.balance_cents ==> after.accounts[identity@].balance_cents
                        == 0
                }
                &&& forall|other: Seq<u8>|
                    other != identity@ ==> #[trigger] after.accounts[other]
                        == issuer.accounts[other]
            },
            Err(_) => after.accounts == issuer.accounts,
        },
{
    assert(after.accounts.dom() =~= issuer.accounts.dom());
}

/// A receipt that is rejected, or was deposited before, leaves the books as they were.
pub proof fn lemma_worthless_receipt_changes_nothing(
    issuer: IssuerView,
    receipt: ReceiptView,
    settlement: Settlement,
    after: IssuerView,
)
    requires
        issuer.settles(receipt, settlement, after),
        settlement is Rejected || settlement is DuplicateDeposit,
    ensures
        after == issuer,
{
}

/// Whether a token is signed is decided by the key of the issuer and the digest of the
/// token's own payload.
pub proof fn lemma_deposit_is_checked_under_the_key(
    issuer: IssuerView,
    receipt: ReceiptView,
    settlement: Settlement,
    after: IssuerView,
)
    requires
        issuer.settles(receipt, settlement, after),
    ensures
        settlement == Settlement::Rejected(Error::InvalidTokenSignature) <==>
            !crate::signature::signature_valid(
            issuer.key,
            crate::ecash::token::payload_digest(receipt.token.payload),
            receipt.token.signature,
        ),
        settlement == Settlement::Rejected(Error::InvalidTokenSignature) <==> issuer.receipt_error(
            receipt,
        ) == Some(Error::InvalidTokenSignature),
        issuer.receipt_error(receipt) is None <==> crate::signature::signature_valid(
            issuer.key,
            crate::ecash::token::payload_digest(receipt.token.payload),
            receipt.token.signature,
        ) && receipt.proof.challenge@ != 0,
{
}

} // verus!
