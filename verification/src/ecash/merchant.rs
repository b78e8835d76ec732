//! The payee side: an offline terminal that challenges the payer and banks the
//! receipt whenever it next reaches the network.

use crate::ecash::blind_sig::IssuerPublicKey;
use crate::ecash::field::Fp;
use crate::ecash::token::{
    derive_challenge, Receipt, ReceiptView, SpendProof, Token, TokenPayload, TokenView,
};
use crate::error::Error;
use crate::signature::PublicKeyView;
use rand::rngs::StdRng;
use vstd::prelude::*;

verus! {

/// The challenge a terminal issues for one sale.
///
/// `challenge` is derived from the transaction data, so the merchant cannot
/// quietly reuse a previous `x`: reusing one would keep a double-spender
/// anonymous, since two points on the same abscissa do not determine a line.
#[derive(Clone, Copy, Debug, PartialEq, Eq)]
pub struct PaymentRequest {
    pub amount_cents: u64,
    pub timestamp: u64,
    pub nonce: [u8; 16],
    pub challenge: Fp,
}

/// The state of a terminal as plain values.
pub struct MerchantView {
    pub id: [u8; 8],
    pub issuer: PublicKeyView,
    pub pending: Seq<ReceiptView>,
}

/// The challenge for a sale, before zero is ruled out.
pub open spec fn sale_challenge(
    id: [u8; 8],
    amount_cents: u64,
    timestamp: u64,
    nonce: [u8; 16],
) -> nat {
    crate::ecash::token::challenge_value(
        crate::ecash::token::challenge_digest(id@, timestamp, amount_cents, nonce@),
    )
}

impl MerchantView {
    /// Why a payment is not accepted.
    pub open spec fn accept_error(
        self,
        request: PaymentRequest,
        token: TokenView,
        proof: SpendProof,
        now: u64,
    ) -> Option<Error> {
        accept_verdict(
            request,
            token.payload,
            proof.challenge@,
            now,
            crate::signature::signature_valid(
                self.issuer,
                crate::ecash::token::payload_digest(token.payload),
                token.signature,
            ),
            sale_challenge(self.id, request.amount_cents, request.timestamp, request.nonce),
        )
    }

    /// The receipt for a payment.
    pub open spec fn receipt_for(
        self,
        request: PaymentRequest,
        token: TokenView,
        proof: SpendProof,
    ) -> ReceiptView {
        ReceiptView { token, proof, merchant_id: self.id, timestamp: request.timestamp }
    }
}

/// Why a payment is not accepted, given whether the token is signed and which
/// challenge the sale calls for.
pub open spec fn accept_verdict(
    request: PaymentRequest,
    payload: TokenPayload,
    answered: nat,
    now: u64,
    signed: bool,
    expected: nat,
) -> Option<Error> {
    if !signed {
        Some(Error::InvalidTokenSignature)
    } else if payload.amount_cents != request.amount_cents {
        Some(
            Error::AmountMismatch {
                expected: request.amount_cents,
                found: payload.amount_cents,
            },
        )
    } else if payload.expiry_epoch < now {
        Some(Error::Expired { expiry: payload.expiry_epoch, now })
    } else if expected == 0 {
        Some(Error::DegenerateChallenge)
    } else if answered != expected || answered != request.challenge@ {
        Some(Error::ChallengeMismatch)
    } else {
        None
    }
}

/// Decides on a payment, given whether the token is signed and which challenge
/// the sale calls for.
pub fn judge_payment(
    request: &PaymentRequest,
    payload: &TokenPayload,
    answered: Fp,
    now: u64,
    signed: bool,
    expected: Fp,
) -> (r: Option<Error>)
    ensures
        r == accept_verdict(*request, *payload, answered@, now, signed, expected@),
{
    if !signed {
        return Some(Error::InvalidTokenSignature);
    }
    if payload.amount_cents != request.amount_cents {
        return Some(
            Error::AmountMismatch {
                expected: request.amount_cents,
                found: payload.amount_cents,
            },
        );
    }
    if payload.expiry_epoch < now {
        return Some(Error::Expired { expiry: payload.expiry_epoch, now });
    }
    if expected.is_zero() {
        return Some(Error::DegenerateChallenge);
    }
    if !answered.equals(expected) || !answered.equals(request.challenge) {
        return Some(Error::ChallengeMismatch);
    }
    None
}

pub struct Merchant {
    id: [u8; 8],
    issuer: IssuerPublicKey,
    rng: StdRng,
    pending_deposits: Vec<Receipt>,
}

impl View for Merchant {
    type V = MerchantView;

    closed spec fn view(&self) -> MerchantView {
        MerchantView {
            id: self.id,
            issuer: self.issuer@,
            pending: self.pending_deposits@.map_values(|r: Receipt| r@),
        }
    }
}

impl Merchant {
    pub fn new(id: [u8; 8], issuer: IssuerPublicKey, rng: StdRng) -> (r: Self)
        ensures
            r@ == (MerchantView { id, issuer: issuer@, pending: Seq::empty() }),
    {
        let r = Merchant { id, issuer, rng, pending_deposits: Vec::new() };
        proof {
            assert(r@.pending =~= Seq::empty());
        }
        r
    }

    pub fn id(&self) -> (r: [u8; 8])
        ensures
            r == self@.id,
    {
        self.id
    }

    /// The challenge for a sale under a nonce.
    pub fn challenge_for(&self, amount_cents: u64, timestamp: u64, nonce: [u8; 16]) -> (r: Result<
        PaymentRequest,
        Error,
    >)
        ensures
            r is Ok <==> sale_challenge(self@.id, amount_cents, timestamp, nonce) != 0,
            r matches Ok(request) ==> {
                &&& request.amount_cents == amount_cents
                &&& request.timestamp == timestamp
                &&& request.nonce == nonce
                &&& request.challenge@ == sale_challenge(self@.id, amount_cents, timestamp, nonce)
            },
            r matches Err(error) ==> error == Error::DegenerateChallenge,
    {
        match derive_challenge(&self.id, timestamp, amount_cents, &nonce) {
            Ok(challenge) => Ok(PaymentRequest { amount_cents, timestamp, nonce, challenge }),
            Err(error) => Err(error),
        }
    }

    /// Generates a fresh challenge for a sale. It fails only if every one of
    /// very many nonces gives the degenerate challenge.
    pub fn request_payment(&mut self, amount_cents: u64, timestamp: u64) -> (r: Result<
        PaymentRequest,
        Error,
    >)
        ensures
            final(self)@ == old(self)@,
            r matches Ok(request) ==> {
                &&& request.amount_cents == amount_cents
                &&& request.timestamp == timestamp
                &&& request.challenge@ == sale_challenge(
                    old(self)@.id,
                    amount_cents,
                    timestamp,
                    request.nonce,
                )
                &&& request.challenge@ != 0
            },
            r matches Err(error) ==> error == Error::EntropyExhausted,
    {
        let mut attempt: u64 = 0;
        while attempt < u64::MAX
            invariant
                self@ == old(self)@,
            decreases u64::MAX - attempt,
        {
            let nonce: [u8; 16] = crate::random::draw_nonce(&mut self.rng);
            match self.challenge_for(amount_cents, timestamp, nonce) {
                Ok(request) => {
                    return Ok(request);
                },
                // Astronomically unlikely; just draw another nonce.
                Err(_) => {},
            }
            attempt = attempt + 1;
        }
        Err(Error::EntropyExhausted)
    }

    /// Validates an offline payment.
    ///
    /// The terminal can check everything except whether the payer answered
    /// honestly: that is the part only the backend can settle, and only after
    /// the fact. Accepting here is a (bounded) risk decision, same as taking a
    /// banknote.
    pub fn accept(
        &mut self,
        request: &PaymentRequest,
        token: Token,
        proof: SpendProof,
        now_epoch: u64,
    ) -> (r: Result<Receipt, Error>)
        ensures
            match r {
                Ok(receipt) => {
                    &&& old(self)@.accept_error(*request, token@, proof, now_epoch) is None
                    &&& receipt@ == old(self)@.receipt_for(*request, token@, proof)
                    &&& final(self)@ == (MerchantView {
                        pending: old(self)@.pending.push(receipt@),
                        ..old(self)@
                    })
                },
                Err(error) => {
                    &&& old(self)@.accept_error(*request, token@, proof, now_epoch) == Some(error)
                    &&& final(self)@ == old(self)@
                },
            },
    {
        let signed: bool = self.issuer.verify(&token.payload.digest(), &token.signature);
        let expected: Fp = match derive_challenge(
            &self.id,
            request.timestamp,
            request.amount_cents,
            &request.nonce,
        ) {
            Ok(expected) => expected,
            Err(_) => Fp::zero(),
        };
        if let Some(error) = judge_payment(
            request,
            &token.payload,
            proof.challenge,
            now_epoch,
            signed,
            expected,
        ) {
            return Err(error);
        }
        let receipt = Receipt {
            token,
            proof,
            merchant_id: self.id,
            timestamp: request.timestamp,
        };
        self.pending_deposits.push(receipt.clone());
        proof {
            assert(self@.pending =~= old(self)@.pending.push(receipt@));
        }
        Ok(receipt)
    }

    /// Receipts not yet deposited.
    pub fn pending(&self) -> (r: &[Receipt])
        ensures
            r@.map_values(|receipt: Receipt| receipt@) == self@.pending,
    {
        self.pending_deposits.as_slice()
    }

    /// Hands over the collected receipts for settlement once back online.
    pub fn drain_deposits(&mut self) -> (r: Vec<Receipt>)
        ensures
            r@.map_values(|receipt: Receipt| receipt@) == old(self)@.pending,
            final(self)@ == (MerchantView { pending: Seq::empty(), ..old(self)@ }),
    {
        let mut drained: Vec<Receipt> = Vec::new();
        std::mem::swap(&mut self.pending_deposits, &mut drained);
        proof {
            assert(self@.pending =~= Seq::empty());
        }
        drained
    }
}

/// What a terminal accepts, the backend does not reject for its signature or its
/// challenge.
pub proof fn lemma_accepted_receipt_is_settled(
    merchant: MerchantView,
    issuer: crate::ecash::issuer::IssuerView,
    request: PaymentRequest,
    token: TokenView,
    proof: SpendProof,
    now: u64,
)
    requires
        merchant.issuer == issuer.key,
        merchant.accept_error(request, token, proof, now) is None,
    ensures
        issuer.receipt_error(merchant.receipt_for(request, token, proof)) is None,
{
}

/// A terminal takes a payment exactly if the issuer has signed the token, its face
/// value is the amount of the sale, it has not expired, and its proof answers the
/// challenge of this very sale, which is not zero. There is no change: a token worth
/// more is refused as one worth less is.
pub proof fn lemma_terminal_accepts_exact_payments(
    merchant: MerchantView,
    request: PaymentRequest,
    token: TokenView,
    proof: SpendProof,
    now: u64,
)
    ensures
        merchant.accept_error(request, token, proof, now) is None <==> {
            &&& crate::signature::signature_valid(
                merchant.issuer,
                crate::ecash::token::payload_digest(token.payload),
                token.signature,
            )
            &&& token.payload.amount_cents == request.amount_cents
            &&& now <= token.payload.expiry_epoch
            &&& proof.challenge@ == request.challenge@
            &&& proof.challenge@ == sale_challenge(
                merchant.id,
                request.amount_cents,
                request.timestamp,
                request.nonce,
            )
            &&& proof.challenge@ != 0
        },
{
}

/// What a terminal says of a payment that it does not take: the signature is looked
/// at first, the amount next, the expiry after it, and the challenge last.
pub proof fn lemma_refused_payment_is_explained(
    merchant: MerchantView,
    request: PaymentRequest,
    token: TokenView,
    proof: SpendProof,
    now: u64,
)
    ensures
        ({
            let error = merchant.accept_error(request, token, proof, now);
            let signed = crate::signature::signature_valid(
                merchant.issuer,
                crate::ecash::token::payload_digest(token.payload),
                token.signature,
            );
            let exact = token.payload.amount_cents == request.amount_cents;
            let fresh = now <= token.payload.expiry_epoch;
            let due = sale_challenge(
                merchant.id,
                request.amount_cents,
                request.timestamp,
                request.nonce,
            );
            &&& error == Some(Error::InvalidTokenSignature) <==> !signed
            &&& error == Some(
                Error::AmountMismatch {
                    expected: request.amount_cents,
                    found: token.payload.amount_cents,
                },
            ) <==> signed && !exact
            &&& error == Some(
                Error::Expired { expiry: token.payload.expiry_epoch, now },
            ) <==> signed && exact && !fresh
            &&& error == Some(Error::DegenerateChallenge) <==> signed && exact && fresh && due == 0
            &&& error == Some(Error::ChallengeMismatch) <==> signed && exact && fresh && due != 0
                && !(proof.challenge@ == due && request.challenge@ == due)
        }),
{
}

/// The receipt of a payment holds the token and the proof as they were handed over,
/// under the name of the terminal and at the time of the sale.
pub proof fn lemma_receipt_records_the_payment(
    merchant: MerchantView,
    request: PaymentRequest,
    token: TokenView,
    proof: SpendProof,
)
    ensures
        ({
            let receipt = merchant.receipt_for(request, token, proof);
            &&& receipt.token.payload == token.payload
            &&& receipt.token.signature == token.signature
            &&& receipt.proof.challenge == proof.challenge
            &&& receipt.proof.response == proof.response
            &&& receipt.merchant_id == merchant.id
            &&& receipt.timestamp == request.timestamp
        }),
{
}

/// The challenge of a sale is a field element that is derived from the terminal, the
/// time, the amount and the nonce.
pub proof fn lemma_challenge_is_derived_from_the_sale(
    id: [u8; 8],
    amount_cents: u64,
    timestamp: u64,
    nonce: [u8; 16],
)
    ensures
        sale_challenge(id, amount_cents, timestamp, nonce) < 0x1fff_ffff_ffff_ffff,
        sale_challenge(id, amount_cents, timestamp, nonce) == crate::bytes::be_value(
            crate::hash::sha256(
                crate::hash::frame(
                    "euro/challenge"@,
                    seq![
                        id@,
                        crate::bytes::be_bytes(timestamp as nat, 8),
                        crate::bytes::be_bytes(amount_cents as nat, 8),
                        nonce@,
                    ],
                ),
            ).take(16),
        ) % 0x1fff_ffff_ffff_ffff,
{
}

/// Given whether the token is signed and which challenge the sale calls for, a payment
/// is accepted exactly if it is signed, exact, not expired, and answers that challenge.
pub proof fn lemma_payment_is_judged_on_its_merits(
    request: PaymentRequest,
    payload: TokenPayload,
    answered: nat,
    now: u64,
    signed: bool,
    expected: nat,
)
    ensures
        accept_verdict(request, payload, answered, now, signed, expected) is None <==> {
            &&& signed
            &&& payload.amount_cents == request.amount_cents
            &&& now <= payload.expiry_epoch
            &&& expected != 0
            &&& answered == expected
            &&& request.challenge@ == expected
        },
        ({
            let error = accept_verdict(request, payload, answered, now, signed, expected);
            let (asked, found) = (request.amount_cents, payload.amount_cents);
            let expiry = payload.expiry_epoch;
            &&& error == Some(Error::InvalidTokenSignature) <==> !signed
            &&& error == Some(Error::AmountMismatch { expected: asked, found }) <==> signed && asked
                != found
            &&& error == Some(Error::Expired { expiry, now }) <==> signed && asked == found
                && expiry < now
            &&& error == Some(Error::DegenerateChallenge) <==> signed && asked == found && now
                <= expiry && expected == 0
            &&& error == Some(Error::ChallengeMismatch) <==> signed && asked == found && now
                <= expiry && expected != 0 && (answered != expected || request.challenge@
                != expected)
        }),
{
}

} // verus!
