//! Token data structures and the double-spend solver.
//!
//! A token is a bearer instrument: a bank-signed payload plus a secret set of
//! lines held inside the secure element. Spending it means answering one
//! challenge point per line. Answering two different challenges with the same
//! token hands the backend two points per line, which is exactly one point too
//! many for the identity to stay hidden.

use crate::ecash::field::Fp;
use crate::ecash::identity::WalletId;
use crate::error::Error;
use crate::natural::Natural;
use vstd::prelude::*;
use vstd::arithmetic::div_mod::*;
use vstd::arithmetic::mul::*;

verus! {

/// Unique per-token serial, chosen by the wallet and hidden from the issuer by
/// the blind signature.
pub type Serial = [u8; 16];

/// The part of a token the issuer signs (blindly) and merchants verify.
#[derive(Debug, PartialEq, Eq)]
pub struct TokenPayload {
    pub serial: Serial,
    pub amount_cents: u64,
    pub expiry_epoch: u64,
    /// Binding commitment to the secret lines inside the secure element.
    pub commitment: [u8; 32],
}

impl Clone for TokenPayload {
    fn clone(&self) -> (r: Self)
        ensures
            r == *self,
    {
        TokenPayload {
            serial: self.serial,
            amount_cents: self.amount_cents,
            expiry_epoch: self.expiry_epoch,
            commitment: self.commitment,
        }
    }
}

/// The encoding of a payload: a format version, then the fields at fixed widths.
pub open spec fn payload_bytes(payload: TokenPayload) -> Seq<u8> {
    seq![1u8] + payload.serial@ + crate::bytes::be_bytes(payload.amount_cents as nat, 8)
        + crate::bytes::be_bytes(payload.expiry_epoch as nat, 8) + payload.commitment@
}

/// The message that a signature on a payload covers.
pub open spec fn payload_digest(payload: TokenPayload) -> Seq<u8> {
    crate::hash::tagged_digest("euro/token"@, seq![payload_bytes(payload)])
}

impl TokenPayload {
    pub fn encode(&self) -> (r: Vec<u8>)
        ensures
            r@ == payload_bytes(*self),
    {
        let mut out: Vec<u8> = Vec::new();
        out.push(1u8);
        crate::bytes::append_bytes(&mut out, self.serial.as_slice());
        crate::bytes::append_bytes(
            &mut out,
            crate::bytes::u64_to_be_bytes(self.amount_cents).as_slice(),
        );
        crate::bytes::append_bytes(
            &mut out,
            crate::bytes::u64_to_be_bytes(self.expiry_epoch).as_slice(),
        );
        crate::bytes::append_bytes(&mut out, self.commitment.as_slice());
        proof {
            assert(out@ =~= payload_bytes(*self));
        }
        out
    }

    /// The message the blind signature actually covers.
    pub fn digest(&self) -> (r: [u8; 32])
        ensures
            r@ == payload_digest(*self),
    {
        let encoded: Vec<u8> = self.encode();
        let mut parts: Vec<&[u8]> = Vec::new();
        parts.push(encoded.as_slice());
        proof {
            assert(crate::hash::part_bytes(parts@) =~= seq![payload_bytes(*self)]);
        }
        crate::hash::tagged("euro/token", parts.as_slice())
    }
}

/// Two payloads are encoded alike only if they are the same.
pub proof fn lemma_payload_encoding_is_unambiguous(a: TokenPayload, b: TokenPayload)
    requires
        payload_bytes(a) == payload_bytes(b),
    ensures
        a == b,
{
    let x = payload_bytes(a);
    let y = payload_bytes(b);
    assert(vstd::arithmetic::power::pow(256, 8) == 0x1_0000_0000_0000_0000) by {
        reveal_with_fuel(vstd::arithmetic::power::pow, 9);
    }
    crate::bytes::lemma_be_value_of_bytes(a.amount_cents as nat, 8);
    crate::bytes::lemma_be_value_of_bytes(b.amount_cents as nat, 8);
    crate::bytes::lemma_be_value_of_bytes(a.expiry_epoch as nat, 8);
    crate::bytes::lemma_be_value_of_bytes(b.expiry_epoch as nat, 8);
    assert(x.subrange(1, 17) =~= a.serial@);
    assert(y.subrange(1, 17) =~= b.serial@);
    assert(x.subrange(17, 25) =~= crate::bytes::be_bytes(a.amount_cents as nat, 8));
    assert(y.subrange(17, 25) =~= crate::bytes::be_bytes(b.amount_cents as nat, 8));
    assert(x.subrange(25, 33) =~= crate::bytes::be_bytes(a.expiry_epoch as nat, 8));
    assert(y.subrange(25, 33) =~= crate::bytes::be_bytes(b.expiry_epoch as nat, 8));
    assert(x.subrange(33, 65) =~= a.commitment@);
    assert(y.subrange(33, 65) =~= b.commitment@);
    assert(a.serial =~= b.serial);
    assert(a.commitment =~= b.commitment);
}

/// A funded, issuer-certified offline token.
#[derive(Debug, PartialEq, Eq)]
pub struct Token {
    pub payload: TokenPayload,
    pub signature: Natural,
}

/// A token as plain values.
pub struct TokenView {
    pub payload: TokenPayload,
    pub signature: nat,
}

impl View for Token {
    type V = TokenView;

    open spec fn view(&self) -> TokenView {
        TokenView { payload: self.payload, signature: self.signature@ }
    }
}

impl Clone for Token {
    fn clone(&self) -> (r: Self)
        ensures
            r@ == self@,
    {
        Token { payload: self.payload.clone(), signature: self.signature.clone() }
    }
}

/// The secret held by the secure element: one line `f_j(x) = I_j * x + s_j`
/// per identity limb.
///
/// A single evaluation of each line reveals nothing about `I_j`: for any
/// candidate slope there is exactly one intercept passing through the observed
/// point, so the payment is information-theoretically anonymous.
#[derive(Debug, PartialEq, Eq)]
pub struct SecretLines {
    /// `(slope I_j, intercept s_j)` for each limb.
    pub coefficients: [(Fp, Fp); 5],
    /// Commitment randomness, so the commitment hides the intercepts.
    pub nonce: [u8; 32],
}

impl Clone for SecretLines {
    fn clone(&self) -> (r: Self)
        ensures
            r == *self,
    {
        SecretLines { coefficients: self.coefficients, nonce: self.nonce }
    }
}

/// A point of a line.
pub open spec fn line_at(slope: nat, intercept: nat, x: nat) -> nat {
    crate::ecash::field::field_add(crate::ecash::field::field_mul(slope, x), intercept)
}

/// The slopes of the lines.
pub open spec fn slopes(lines: SecretLines) -> Seq<nat> {
    Seq::new(5, |j: int| lines.coefficients@[j].0@)
}

/// A point of every line at the same challenge.
pub open spec fn points(lines: SecretLines, x: nat) -> Seq<nat> {
    Seq::new(5, |j: int| line_at(lines.coefficients@[j].0@, lines.coefficients@[j].1@, x))
}

/// The encoding of the first lines.
pub open spec fn lines_bytes(coefficients: Seq<(Fp, Fp)>) -> Seq<u8>
    decreases coefficients.len(),
{
    if coefficients.len() == 0 {
        Seq::empty()
    } else {
        lines_bytes(coefficients.drop_last()) + crate::bytes::be_bytes(coefficients.last().0@, 8)
            + crate::bytes::be_bytes(coefficients.last().1@, 8)
    }
}

/// The commitment to the lines.
pub open spec fn lines_commitment(lines: SecretLines) -> Seq<u8> {
    crate::hash::tagged_digest(
        "euro/lines"@,
        seq![lines_bytes(lines.coefficients@), lines.nonce@],
    )
}

impl SecretLines {
    /// Binds the lines to the token payload. Opened during cut-and-choose,
    /// opaque afterwards.
    pub fn commitment(&self) -> (r: [u8; 32])
        ensures
            r@ == lines_commitment(*self),
    {
        let mut buffer: Vec<u8> = Vec::new();
        let mut j: usize = 0;
        while j < 5
            invariant
                j <= 5,
                buffer@ == lines_bytes(self.coefficients@.take(j as int)),
            decreases 5 - j,
        {
            let (slope, intercept) = self.coefficients[j];
            crate::bytes::append_bytes(&mut buffer, slope.to_bytes().as_slice());
            crate::bytes::append_bytes(&mut buffer, intercept.to_bytes().as_slice());
            proof {
                assert(self.coefficients@.take(j + 1).drop_last() =~= self.coefficients@.take(
                    j as int,
                ));
            }
            j = j + 1;
        }
        proof {
            assert(self.coefficients@.take(5) =~= self.coefficients@);
        }
        let mut parts: Vec<&[u8]> = Vec::new();
        parts.push(buffer.as_slice());
        parts.push(self.nonce.as_slice());
        proof {
            assert(crate::hash::part_bytes(parts@) =~= seq![
                lines_bytes(self.coefficients@),
                self.nonce@,
            ]);
        }
        crate::hash::tagged("euro/lines", parts.as_slice())
    }

    /// Evaluates every line at the merchant's challenge.
    pub fn respond(&self, challenge: Fp) -> (r: [Fp; 5])
        ensures
            crate::ecash::identity::limb_digits(r@) == points(*self, challenge@),
    {
        let mut response: [Fp; 5] = [Fp::zero(), Fp::zero(), Fp::zero(), Fp::zero(), Fp::zero()];
        let mut j: usize = 0;
        while j < 5
            invariant
                j <= 5,
                forall|i: int|
                    0 <= i < j ==> (#[trigger] response@[i])@ == points(*self, challenge@)[i],
            decreases 5 - j,
        {
            let (slope, intercept) = self.coefficients[j];
            let y: Fp = slope.mul(challenge).add(intercept);
            response[j] = y;
            j = j + 1;
        }
        proof {
            assert(crate::ecash::identity::limb_digits(response@) =~= points(*self, challenge@));
        }
        response
    }

    /// The identity embedded in the slopes.
    pub fn embedded_identity(&self) -> (r: Result<WalletId, Error>)
        ensures
            crate::ecash::identity::same_identity(
                r,
                crate::ecash::identity::reassembled(slopes(*self)),
            ),
    {
        let found: [Fp; 5] = [
            self.coefficients[0].0,
            self.coefficients[1].0,
            self.coefficients[2].0,
            self.coefficients[3].0,
            self.coefficients[4].0,
        ];
        proof {
            assert(crate::ecash::identity::limb_digits(found@) =~= slopes(*self));
        }
        WalletId::from_limbs(&found)
    }
}

/// What the payer hands the merchant alongside the token.
#[derive(Debug, PartialEq, Eq)]
pub struct SpendProof {
    pub challenge: Fp,
    pub response: [Fp; 5],
}

impl Clone for SpendProof {
    fn clone(&self) -> (r: Self)
        ensures
            r == *self,
    {
        SpendProof { challenge: self.challenge, response: self.response }
    }
}

/// A merchant's record of an accepted offline payment, deposited later.
#[derive(Debug, PartialEq, Eq)]
pub struct Receipt {
    pub token: Token,
    pub proof: SpendProof,
    pub merchant_id: [u8; 8],
    pub timestamp: u64,
}

/// A receipt as plain values.
pub struct ReceiptView {
    pub token: TokenView,
    pub proof: SpendProof,
    pub merchant_id: [u8; 8],
    pub timestamp: u64,
}

impl View for Receipt {
    type V = ReceiptView;

    open spec fn view(&self) -> ReceiptView {
        ReceiptView {
            token: self.token@,
            proof: self.proof,
            merchant_id: self.merchant_id,
            timestamp: self.timestamp,
        }
    }
}

impl Clone for Receipt {
    fn clone(&self) -> (r: Self)
        ensures
            r@ == self@,
    {
        Receipt {
            token: self.token.clone(),
            proof: self.proof.clone(),
            merchant_id: self.merchant_id,
            timestamp: self.timestamp,
        }
    }
}

/// The slopes of the lines through two points each.
pub open spec fn solved_slopes(x1: nat, y1: Seq<nat>, x2: nat, y2: Seq<nat>) -> Seq<nat> {
    Seq::new(
        5,
        |j: int|
            crate::ecash::field::field_mul(
                crate::ecash::field::field_sub(y1[j], y2[j]),
                crate::ecash::field::field_pow(
                    crate::ecash::field::field_sub(x1, x2),
                    (crate::ecash::field::P - 2) as nat,
                ),
            ),
    )
}

/// Solves for the payer's identity from two spends of the same token.
///
/// ```text
/// y1_j = I_j * x1 + s_j
/// y2_j = I_j * x2 + s_j
/// I_j  = (y1_j - y2_j) * (x1 - x2)^-1
/// ```
///
/// Returns `None` when the two challenges are equal (same merchant, same
/// transaction data): that is a replay, not a double-spend, and no identity
/// can or should be extracted from it.
pub fn recover_identity(first: &SpendProof, second: &SpendProof) -> (r: Option<
    Result<WalletId, Error>,
>)
    ensures
        r is None <==> first.challenge@ == second.challenge@,
        r matches Some(culprit) ==> crate::ecash::identity::same_identity(
            culprit,
            crate::ecash::identity::reassembled(
                solved_slopes(
                    first.challenge@,
                    crate::ecash::identity::limb_digits(first.response@),
                    second.challenge@,
                    crate::ecash::identity::limb_digits(second.response@),
                ),
            ),
        ),
{
    let delta_x: Fp = first.challenge.sub(second.challenge);
    let x1: u64 = first.challenge.value();
    let x2: u64 = second.challenge.value();
    proof {
        lemma_difference_is_zero(x1 as nat, x2 as nat);
    }
    match delta_x.inv() {
        None => None,
        Some(inverse) => {
            let mut found: [Fp; 5] = [Fp::zero(), Fp::zero(), Fp::zero(), Fp::zero(), Fp::zero()];
            let ghost expected = solved_slopes(
                first.challenge@,
                crate::ecash::identity::limb_digits(first.response@),
                second.challenge@,
                crate::ecash::identity::limb_digits(second.response@),
            );
            let mut j: usize = 0;
            while j < 5
                invariant
                    j <= 5,
                    expected == solved_slopes(
                        first.challenge@,
                        crate::ecash::identity::limb_digits(first.response@),
                        second.challenge@,
                        crate::ecash::identity::limb_digits(second.response@),
                    ),
                    inverse@ == crate::ecash::field::field_pow(
                        crate::ecash::field::field_sub(first.challenge@, second.challenge@),
                        (crate::ecash::field::P - 2) as nat,
                    ),
                    forall|i: int| 0 <= i < j ==> (#[trigger] found@[i])@ == expected[i],
                decreases 5 - j,
            {
                let slope: Fp = first.response[j].sub(second.response[j]).mul(inverse);
                found[j] = slope;
                j = j + 1;
            }
            proof {
                assert(crate::ecash::identity::limb_digits(found@) =~= expected);
            }
            Some(WalletId::from_limbs(&found))
        },
    }
}

proof fn lemma_difference_is_zero(a: nat, b: nat)
    requires
        a < crate::ecash::field::P,
        b < crate::ecash::field::P,
    ensures
        crate::ecash::field::field_sub(a, b) == 0 <==> a == b,
{
    crate::ecash::field::lemma_field_add_sub(a, b);
    lemma_small_mod(b, crate::ecash::field::P as nat);
}

/// The challenge for a sale, before zero is ruled out.
pub open spec fn challenge_value(digest: Seq<u8>) -> nat {
    crate::bytes::be_value(digest.take(16)) % (crate::ecash::field::P as nat)
}

/// The digest of the transaction data.
pub open spec fn challenge_digest(
    merchant_id: Seq<u8>,
    timestamp: u64,
    amount_cents: u64,
    nonce: Seq<u8>,
) -> Seq<u8> {
    crate::hash::tagged_digest(
        "euro/challenge"@,
        seq![
            merchant_id,
            crate::bytes::be_bytes(timestamp as nat, 8),
            crate::bytes::be_bytes(amount_cents as nat, 8),
            nonce,
        ],
    )
}

/// Reduces the leading half of a digest to a challenge.
pub fn challenge_from_digest(digest: &[u8; 32]) -> (r: Result<Fp, Error>)
    ensures
        r matches Ok(x) ==> x@ == challenge_value(digest@) && x@ != 0,
        r matches Err(error) ==> error == Error::DegenerateChallenge && challenge_value(digest@)
            == 0,
{
    let wide: [u8; 16] = [
        digest[0],
        digest[1],
        digest[2],
        digest[3],
        digest[4],
        digest[5],
        digest[6],
        digest[7],
        digest[8],
        digest[9],
        digest[10],
        digest[11],
        digest[12],
        digest[13],
        digest[14],
        digest[15],
    ];
    proof {
        assert(wide@ =~= digest@.take(16));
    }
    let challenge: Fp = Fp::from_u128(crate::bytes::u128_from_be_bytes(&wide));
    if challenge.is_zero() {
        return Err(Error::DegenerateChallenge);
    }
    Ok(challenge)
}

/// Recomputes a merchant challenge from the transaction data, so that both
/// sides derive the same `x` and neither can steer it.
pub fn derive_challenge(
    merchant_id: &[u8; 8],
    timestamp: u64,
    amount_cents: u64,
    nonce: &[u8; 16],
) -> (r: Result<Fp, Error>)
    ensures
        r matches Ok(x) ==> x@ == challenge_value(
            challenge_digest(merchant_id@, timestamp, amount_cents, nonce@),
        ) && x@ != 0,
        r matches Err(error) ==> error == Error::DegenerateChallenge && challenge_value(
            challenge_digest(merchant_id@, timestamp, amount_cents, nonce@),
        ) == 0,
{
    let time_bytes: [u8; 8] = crate::bytes::u64_to_be_bytes(timestamp);
    let amount_bytes: [u8; 8] = crate::bytes::u64_to_be_bytes(amount_cents);
    let mut parts: Vec<&[u8]> = Vec::new();
    parts.push(merchant_id.as_slice());
    parts.push(time_bytes.as_slice());
    parts.push(amount_bytes.as_slice());
    parts.push(nonce.as_slice());
    proof {
        assert(crate::hash::part_bytes(parts@) =~= seq![
            merchant_id@,
            crate::bytes::be_bytes(timestamp as nat, 8),
            crate::bytes::be_bytes(amount_cents as nat, 8),
            nonce@,
        ]);
    }
    let digest: [u8; 32] = crate::hash::tagged("euro/challenge", parts.as_slice());
    challenge_from_digest(&digest)
}

// ---------------------------------------------------------------------------
// One point hides the slope, two points give it away
// ---------------------------------------------------------------------------

/// One point per line is perfect secrecy: whatever the slope, exactly one
/// intercept puts the line through the observed point.
pub proof fn lemma_one_point_hides_the_slope(x: nat, y: nat, slope: nat, intercept: nat)
    requires
        x < crate::ecash::field::P,
        y < crate::ecash::field::P,
        slope < crate::ecash::field::P,
        intercept < crate::ecash::field::P,
    ensures
        line_at(slope, intercept, x) == y <==> intercept == crate::ecash::field::field_sub(
            y,
            crate::ecash::field::field_mul(slope, x),
        ),
{
    let a = crate::ecash::field::field_mul(slope, x);
    lemma_mod_bound((slope * x) as int, crate::ecash::field::P as int);
    crate::ecash::field::lemma_field_add_sub(intercept, a);
    crate::ecash::field::lemma_field_add_sub(y, a);
}

proof fn lemma_solve_line(slope: nat, intercept: nat, x1: nat, x2: nat)
    requires
        slope < crate::ecash::field::P,
        intercept < crate::ecash::field::P,
        x1 < crate::ecash::field::P,
        x2 < crate::ecash::field::P,
        x1 != x2,
    ensures
        crate::ecash::field::field_mul(
            crate::ecash::field::field_sub(
                line_at(slope, intercept, x1),
                line_at(slope, intercept, x2),
            ),
            crate::ecash::field::field_pow(
                crate::ecash::field::field_sub(x1, x2),
                (crate::ecash::field::P - 2) as nat,
            ),
        ) == slope,
{
    let p = crate::ecash::field::P as int;
    let delta = crate::ecash::field::field_sub(x1, x2);
    let inverse = crate::ecash::field::field_pow(delta, (p - 2) as nat);
    let y1 = line_at(slope, intercept, x1);
    let y2 = line_at(slope, intercept, x2);
    lemma_difference_is_zero(x1, x2);
    lemma_mod_bound(x1 - x2, p);
    crate::ecash::field::lemma_field_inverse(delta);
    // y1 - y2 and slope * (x1 - x2) leave the same residue.
    lemma_add_mod_noop((slope * x1) as int, intercept as int, p);
    lemma_add_mod_noop((slope * x2) as int, intercept as int, p);
    lemma_small_mod(intercept, p as nat);
    let u1 = (slope * x1 + intercept) as int;
    let u2 = (slope * x2 + intercept) as int;
    assert(y1 as int == u1 % p);
    assert(y2 as int == u2 % p);
    lemma_sub_mod_noop(u1, u2, p);
    lemma_mul_is_distributive_sub(slope as int, x1 as int, x2 as int);
    let difference = crate::ecash::field::field_sub(y1, y2) as int;
    assert(difference == (slope * (x1 - x2)) % p);
    lemma_mul_mod_noop_right(slope as int, x1 - x2, p);
    assert(difference == (slope as int * delta as int) % p);
    // Multiplied by the inverse, the slope is left.
    lemma_mod_twice(slope as int * delta as int, p);
    crate::arith::lemma_congruent_mul(
        difference,
        slope as int * delta as int,
        inverse as int,
        inverse as int,
        p,
    );
    lemma_mul_is_associative(slope as int, delta as int, inverse as int);
    lemma_mul_mod_noop_right(slope as int, delta as int * inverse as int, p);
    lemma_mul_basics(slope as int);
    lemma_small_mod(slope, p as nat);
}

/// Every coefficient of the lines is a field element.
pub open spec fn lines_in_field(lines: SecretLines) -> bool {
    forall|j: int|
        0 <= j < 5 ==> (#[trigger] lines.coefficients@[j]).0@ < crate::ecash::field::P
            && lines.coefficients@[j].1@ < crate::ecash::field::P
}

/// Spending twice discloses the payer: from the answers to any two different
/// challenges the solver finds the very slopes of the lines, and with them the
/// identity that they embed.
pub proof fn lemma_double_spend_reveals_the_identity(
    lines: SecretLines,
    identity: Seq<u8>,
    x1: nat,
    x2: nat,
)
    requires
        lines_in_field(lines),
        identity.len() == 32,
        slopes(lines) == crate::ecash::identity::limbs_of(identity),
        x1 < crate::ecash::field::P,
        x2 < crate::ecash::field::P,
        x1 != x2,
    ensures
        crate::ecash::identity::reassembled(
            solved_slopes(x1, points(lines, x1), x2, points(lines, x2)),
        ) == Ok::<Seq<u8>, Error>(identity),
{
    let found = solved_slopes(x1, points(lines, x1), x2, points(lines, x2));
    assert forall|j: int| 0 <= j < 5 implies found[j] == slopes(lines)[j] by {
        let c = lines.coefficients@[j];
        lemma_solve_line(c.0@, c.1@, x1, x2);
    }
    assert(found =~= slopes(lines));
    crate::ecash::identity::lemma_limbs_reassemble(identity);
}

// ---------------------------------------------------------------------------
// What is signed, committed to and answered
// ---------------------------------------------------------------------------

/// A payload is encoded in sixty-five bytes: the format version, the serial, the amount and
/// the expiry in eight bytes each, and the commitment.
pub proof fn lemma_payload_layout(payload: TokenPayload)
    ensures
        payload_bytes(payload).len() == 65,
        payload_bytes(payload)[0] == 1,
        payload_bytes(payload).subrange(1, 17) == payload.serial@,
        crate::bytes::be_value(payload_bytes(payload).subrange(17, 25)) == payload.amount_cents,
        crate::bytes::be_value(payload_bytes(payload).subrange(25, 33)) == payload.expiry_epoch,
        payload_bytes(payload).subrange(33, 65) == payload.commitment@,
        payload_digest(payload) == crate::hash::sha256(
            crate::hash::frame("euro/token"@, seq![payload_bytes(payload)]),
        ),
{
    let x = payload_bytes(payload);
    assert(vstd::arithmetic::power::pow(256, 8) == 0x1_0000_0000_0000_0000) by {
        reveal_with_fuel(vstd::arithmetic::power::pow, 9);
    }
    crate::bytes::lemma_be_value_of_bytes(payload.amount_cents as nat, 8);
    crate::bytes::lemma_be_value_of_bytes(payload.expiry_epoch as nat, 8);
    assert(x.subrange(1, 17) =~= payload.serial@);
    assert(x.subrange(17, 25) =~= crate::bytes::be_bytes(payload.amount_cents as nat, 8));
    assert(x.subrange(25, 33) =~= crate::bytes::be_bytes(payload.expiry_epoch as nat, 8));
    assert(x.subrange(33, 65) =~= payload.commitment@);
}

/// Two payloads that differ in any field have different digests, unless SHA-256 collides:
/// the issuer's signature on a token covers its serial, its worth, its expiry and its lines.
pub proof fn lemma_payload_digest_covers_its_fields(a: TokenPayload, b: TokenPayload) -> (r: (
    Seq<u8>,
    Seq<u8>,
))
    requires
        a != b,
        payload_digest(a) == payload_digest(b),
    ensures
        r.0 != r.1,
        crate::hash::sha256(r.0) == crate::hash::sha256(r.1),
{
    let x = seq![payload_bytes(a)];
    let y = seq![payload_bytes(b)];
    let tag = crate::hash::tags()[6];
    crate::hash::lemma_tag_fits(6);
    lemma_payload_layout(a);
    lemma_payload_layout(b);
    if x == y {
        assert(x[0] == y[0]);
        lemma_payload_encoding_is_unambiguous(a, b);
    }
    crate::hash::lemma_digest_covers_the_message(tag, x, tag, y)
}

proof fn lemma_lines_bytes_injective(a: Seq<(Fp, Fp)>, b: Seq<(Fp, Fp)>)
    requires
        a.len() == b.len(),
        lines_bytes(a) == lines_bytes(b),
        forall|j: int|
            0 <= j < a.len() ==> (#[trigger] a[j]).0@ < crate::ecash::field::P && a[j].1@
                < crate::ecash::field::P,
        forall|j: int|
            0 <= j < b.len() ==> (#[trigger] b[j]).0@ < crate::ecash::field::P && b[j].1@
                < crate::ecash::field::P,
    ensures
        lines_bytes(a).len() == 16 * a.len(),
        forall|j: int|
            0 <= j < a.len() ==> (#[trigger] a[j]).0@ == b[j].0@ && a[j].1@ == b[j].1@,
    decreases a.len(),
{
    if a.len() > 0 {
        let (p, q) = (a.last(), b.last());
        assert(a[a.len() - 1] == p && b[b.len() - 1] == q);
        assert(vstd::arithmetic::power::pow(256, 8) == 0x1_0000_0000_0000_0000) by {
            reveal_with_fuel(vstd::arithmetic::power::pow, 9);
        }
        crate::bytes::lemma_be_value_of_bytes(p.0@, 8);
        crate::bytes::lemma_be_value_of_bytes(p.1@, 8);
        crate::bytes::lemma_be_value_of_bytes(q.0@, 8);
        crate::bytes::lemma_be_value_of_bytes(q.1@, 8);
        let (x, y) = (lines_bytes(a), lines_bytes(b));
        let n = x.len() as int;
        assert(x.subrange(n - 16, n - 8) =~= crate::bytes::be_bytes(p.0@, 8));
        assert(y.subrange(n - 16, n - 8) =~= crate::bytes::be_bytes(q.0@, 8));
        assert(x.subrange(n - 8, n) =~= crate::bytes::be_bytes(p.1@, 8));
        assert(y.subrange(n - 8, n) =~= crate::bytes::be_bytes(q.1@, 8));
        assert(x.take(n - 16) =~= lines_bytes(a.drop_last()));
        assert(y.take(n - 16) =~= lines_bytes(b.drop_last()));
        lemma_lines_bytes_injective(a.drop_last(), b.drop_last());
        assert forall|j: int| 0 <= j < a.len() implies (#[trigger] a[j]).0@ == b[j].0@ && a[j].1@
            == b[j].1@ by {
            if j < a.len() - 1 {
                assert(a.drop_last()[j] == a[j] && b.drop_last()[j] == b[j]);
            }
        }
    }
}

/// A commitment binds: if two sets of lines have the same commitment, they have the same
/// slopes, the same intercepts and the same nonce, unless SHA-256 collides.
pub proof fn lemma_commitment_binds_the_lines(a: SecretLines, b: SecretLines) -> (r: (
    Seq<u8>,
    Seq<u8>,
))
    requires
        lines_in_field(a),
        lines_in_field(b),
        lines_commitment(a) == lines_commitment(b),
        a.nonce != b.nonce || exists|j: int|
            0 <= j < 5 && ((#[trigger] a.coefficients@[j]).0@ != b.coefficients@[j].0@
                || a.coefficients@[j].1@ != b.coefficients@[j].1@),
    ensures
        r.0 != r.1,
        crate::hash::sha256(r.0) == crate::hash::sha256(r.1),
{
    let x = seq![lines_bytes(a.coefficients@), a.nonce@];
    let y = seq![lines_bytes(b.coefficients@), b.nonce@];
    let tag = crate::hash::tags()[7];
    crate::hash::lemma_tag_fits(7);
    lemma_lines_bytes_injective(a.coefficients@, a.coefficients@);
    lemma_lines_bytes_injective(b.coefficients@, b.coefficients@);
    if x == y {
        assert(x[0] == y[0]);
        assert(x[1] == y[1]);
        assert(a.nonce =~= b.nonce);
        lemma_lines_bytes_injective(a.coefficients@, b.coefficients@);
    }
    crate::hash::lemma_digest_covers_the_message(tag, x, tag, y)
}

/// The answer to a challenge is a point of each line: slope times challenge plus intercept,
/// modulo `2^61 - 1`.
pub proof fn lemma_answer_lies_on_the_lines(lines: SecretLines, x: nat, j: int)
    requires
        0 <= j < 5,
    ensures
        points(lines, x).len() == 5,
        points(lines, x)[j] == (lines.coefficients@[j].0@ * x + lines.coefficients@[j].1@)
            % 0x1fff_ffff_ffff_ffff,
{
    let p = 0x1fff_ffff_ffff_ffffint;
    lemma_add_mod_noop(
        (lines.coefficients@[j].0@ * x) as int,
        lines.coefficients@[j].1@ as int,
        p,
    );
    lemma_add_mod_noop(
        ((lines.coefficients@[j].0@ * x) as int) % p,
        lines.coefficients@[j].1@ as int,
        p,
    );
    lemma_mod_twice((lines.coefficients@[j].0@ * x) as int, p);
}

/// The solved slopes are those of lines through both points: the difference of the answers
/// is the slope times the difference of the challenges, modulo `2^61 - 1`.
pub proof fn lemma_solved_slope_fits_both_points(
    x1: nat,
    y1: Seq<nat>,
    x2: nat,
    y2: Seq<nat>,
    j: int,
)
    requires
        0 <= j < 5,
        x1 < crate::ecash::field::P,
        x2 < crate::ecash::field::P,
        x1 != x2,
    ensures
        solved_slopes(x1, y1, x2, y2).len() == 5,
        solved_slopes(x1, y1, x2, y2)[j] < 0x1fff_ffff_ffff_ffff,
        (solved_slopes(x1, y1, x2, y2)[j] * (x1 - x2)) % 0x1fff_ffff_ffff_ffff == (y1[j] - y2[j])
            % 0x1fff_ffff_ffff_ffff,
{
    let p = 0x1fff_ffff_ffff_ffffint;
    let delta = crate::ecash::field::field_sub(x1, x2);
    let rise = crate::ecash::field::field_sub(y1[j], y2[j]);
    let inverse = crate::ecash::field::field_pow(delta, (crate::ecash::field::P - 2) as nat);
    let slope = solved_slopes(x1, y1, x2, y2)[j];
    lemma_difference_is_zero(x1, x2);
    lemma_mod_bound(x1 - x2, p);
    lemma_mod_bound(y1[j] - y2[j], p);
    lemma_mod_bound((rise * inverse) as int, p);
    crate::ecash::field::lemma_field_inverse(delta);
    // slope * (x1 - x2) = rise * inverse * delta = rise.
    lemma_mod_twice(x1 - x2, p);
    lemma_mod_twice((rise * inverse) as int, p);
    crate::arith::lemma_congruent_mul(
        slope as int,
        (rise * inverse) as int,
        x1 - x2,
        delta as int,
        p,
    );
    assert((rise * inverse) * delta == rise * (delta * inverse)) by (nonlinear_arith);
    lemma_small_mod(1, p as nat);
    crate::arith::lemma_congruent_mul(rise as int, rise as int, (delta * inverse) as int, 1, p);
    lemma_mul_basics(rise as int);
    lemma_mod_twice(y1[j] - y2[j], p);
}

/// The challenges of two sales that differ in the terminal, the time, the amount or the
/// nonce are derived from different digests, unless SHA-256 collides.
pub proof fn lemma_challenge_digest_covers_the_sale(
    id: [u8; 8],
    timestamp: u64,
    amount_cents: u64,
    nonce: [u8; 16],
    other_id: [u8; 8],
    other_timestamp: u64,
    other_amount_cents: u64,
    other_nonce: [u8; 16],
) -> (r: (Seq<u8>, Seq<u8>))
    requires
        id != other_id || timestamp != other_timestamp || amount_cents != other_amount_cents
            || nonce != other_nonce,
        challenge_digest(id@, timestamp, amount_cents, nonce@) == challenge_digest(
            other_id@,
            other_timestamp,
            other_amount_cents,
            other_nonce@,
        ),
    ensures
        r.0 != r.1,
        crate::hash::sha256(r.0) == crate::hash::sha256(r.1),
{
    let x = seq![
        id@,
        crate::bytes::be_bytes(timestamp as nat, 8),
        crate::bytes::be_bytes(amount_cents as nat, 8),
        nonce@,
    ];
    let y = seq![
        other_id@,
        crate::bytes::be_bytes(other_timestamp as nat, 8),
        crate::bytes::be_bytes(other_amount_cents as nat, 8),
        other_nonce@,
    ];
    let tag = crate::hash::tags()[8];
    crate::hash::lemma_tag_fits(8);
    crate::message::lemma_u64_bytes_injective(timestamp, other_timestamp);
    crate::message::lemma_u64_bytes_injective(other_timestamp, timestamp);
    crate::message::lemma_u64_bytes_injective(amount_cents, other_amount_cents);
    crate::message::lemma_u64_bytes_injective(other_amount_cents, amount_cents);
    if x == y {
        assert(x[0] == y[0]);
        assert(x[1] == y[1]);
        assert(x[2] == y[2]);
        assert(x[3] == y[3]);
        assert(id =~= other_id);
        assert(nonce =~= other_nonce);
    }
    crate::hash::lemma_digest_covers_the_message(tag, x, tag, y)
}

/// A challenge is the number in the leading half of the digest, modulo `2^61 - 1`.
pub proof fn lemma_challenge_is_the_leading_half(digest: Seq<u8>)
    ensures
        challenge_value(digest) == crate::bytes::be_value(digest.take(16)) % 0x1fff_ffff_ffff_ffff,
        challenge_value(digest) < 0x1fff_ffff_ffff_ffff,
{
}

} // verus!
