//! The token wallet: a secure element that holds tokens with their secret lines,
//! withdraws them under cut-and-choose, and spends each of them once.

use crate::ecash::blind_sig::IssuerPublicKey;
use crate::ecash::field::Fp;
use crate::ecash::identity::WalletId;
use crate::ecash::token::{SecretLines, SpendProof, Token, TokenPayload, TokenView};
use crate::ecash::withdrawal::{
    Candidate, CandidateView, CutChallenge, Opening, Revealed, RevealedView, WithdrawalRequest,
    WithdrawalRequestView,
};
use crate::error::Error;
use crate::natural::Natural;
use crate::signature::PublicKeyView;
use crate::wallet::ElementState;
use rand::rngs::StdRng;
use vstd::prelude::*;

verus! {

/// Everything about a candidate that is drawn at random.
pub struct CandidateSecrets {
    pub serial: [u8; 16],
    pub intercepts: [Fp; 5],
    pub nonce: [u8; 32],
    pub blinding_factor: Natural,
}

/// Whether a candidate was made as it should be: it is worth what is asked for,
/// its lines embed the identity, and it commits to them.
pub open spec fn honest_candidate(
    identity: Seq<u8>,
    amount_cents: u64,
    expiry_epoch: u64,
    revealed: RevealedView,
) -> bool {
    &&& revealed.payload.amount_cents == amount_cents
    &&& revealed.payload.expiry_epoch == expiry_epoch
    &&& crate::ecash::token::slopes(revealed.lines) == crate::ecash::identity::limbs_of(identity)
    &&& revealed.payload.commitment@ == crate::ecash::token::lines_commitment(revealed.lines)
}

/// What a wallet shows of a candidate before the cut.
pub open spec fn offered(key: PublicKeyView, revealed: RevealedView) -> CandidateView {
    CandidateView {
        commitment: revealed.payload.commitment,
        blinded_message: crate::ecash::blind_sig::blinded_value(
            key,
            crate::ecash::token::payload_digest(revealed.payload),
            revealed.blinding_factor,
        ),
    }
}

/// Builds a candidate around an identity.
pub fn make_candidate(
    identity: &WalletId,
    amount_cents: u64,
    expiry_epoch: u64,
    secrets: CandidateSecrets,
) -> (r: Revealed)
    ensures
        honest_candidate(identity@, amount_cents, expiry_epoch, r@),
        r@.payload.serial == secrets.serial,
        r@.lines.nonce == secrets.nonce,
        r@.blinding_factor == secrets.blinding_factor@,
        forall|j: int|
            0 <= j < 5 ==> (#[trigger] r@.lines.coefficients@[j]).1 == secrets.intercepts@[j],
{
    let limbs: [Fp; 5] = identity.to_limbs();
    let coefficients: [(Fp, Fp); 5] = [
        (limbs[0], secrets.intercepts[0]),
        (limbs[1], secrets.intercepts[1]),
        (limbs[2], secrets.intercepts[2]),
        (limbs[3], secrets.intercepts[3]),
        (limbs[4], secrets.intercepts[4]),
    ];
    let lines = SecretLines { coefficients, nonce: secrets.nonce };
    let commitment: [u8; 32] = lines.commitment();
    proof {
        assert forall|j: int| 0 <= j < 5 implies crate::ecash::token::slopes(lines)[j]
            == crate::ecash::identity::limb_digits(limbs@)[j] by {
            assert(j == 0 || j == 1 || j == 2 || j == 3 || j == 4);
        }
        assert(crate::ecash::token::slopes(lines) =~= crate::ecash::identity::limbs_of(identity@));
    }
    Revealed {
        lines,
        payload: TokenPayload { serial: secrets.serial, amount_cents, expiry_epoch, commitment },
        blinding_factor: secrets.blinding_factor,
    }
}

/// A withdrawal under way.
pub struct WithdrawalSession {
    pub candidates: Vec<Revealed>,
}

impl View for WithdrawalSession {
    type V = Seq<RevealedView>;

    open spec fn view(&self) -> Seq<RevealedView> {
        self.candidates@.map_values(|c: Revealed| c@)
    }
}

/// A session for a request: every candidate is honest, and the request offers
/// them in order.
pub open spec fn session_matches(
    identity: WalletId,
    key: PublicKeyView,
    request: WithdrawalRequestView,
    session: Seq<RevealedView>,
) -> bool {
    &&& request.account == identity
    &&& request.candidates.len() == session.len()
    &&& forall|i: int|
        0 <= i < session.len() ==> honest_candidate(
            identity@,
            request.amount_cents,
            request.expiry_epoch,
            #[trigger] session[i],
        ) && request.candidates[i] == offered(key, session[i]) && crate::arith::gcd(
            session[i].blinding_factor,
            key.n,
        ) == 1
}

/// The opening that answers a cut: all candidates but one, in order.
pub open spec fn opening_of(session: Seq<RevealedView>, keep: int, end: int) -> Seq<
    (usize, RevealedView),
>
    decreases end,
{
    if end <= 0 {
        Seq::empty()
    } else if end - 1 == keep {
        opening_of(session, keep, end - 1)
    } else {
        opening_of(session, keep, end - 1).push(((end - 1) as usize, session[end - 1]))
    }
}

/// A token in the wallet.
struct HeldToken {
    token: Token,
    lines: SecretLines,
    spent: bool,
}

/// A token in the wallet, as plain values.
pub struct HeldTokenView {
    pub token: TokenView,
    pub lines: SecretLines,
    pub spent: bool,
}

impl View for HeldToken {
    type V = HeldTokenView;

    closed spec fn view(&self) -> HeldTokenView {
        HeldTokenView { token: self.token@, lines: self.lines, spent: self.spent }
    }
}

/// The state of a token wallet as plain values.
pub struct TokenWalletView {
    pub identity: WalletId,
    pub issuer: PublicKeyView,
    pub tokens: Seq<HeldTokenView>,
    pub state: ElementState,
}

impl TokenWalletView {
    /// The first token with a serial, from a place on.
    pub open spec fn find(self, serial: [u8; 16], place: int) -> Option<int>
        decreases self.tokens.len() - place,
    {
        if place < 0 || place >= self.tokens.len() {
            None
        } else if self.tokens[place].token.payload.serial == serial {
            Some(place)
        } else {
            self.find(serial, place + 1)
        }
    }

    /// Why a token is not spent.
    pub open spec fn spend_error(self, serial: [u8; 16], challenge: nat) -> Option<Error> {
        match self.find(serial, 0) {
            None => Some(Error::UnknownToken),
            Some(i) => {
                if challenge == 0 {
                    Some(Error::DegenerateChallenge)
                } else if self.tokens[i].spent && self.state == ElementState::Sealed {
                    Some(Error::TokenAlreadySpent)
                } else {
                    None
                }
            },
        }
    }

    /// The wallet after a token is marked as spent.
    pub open spec fn after_spend(self, i: int) -> TokenWalletView {
        TokenWalletView {
            tokens: self.tokens.update(i, HeldTokenView { spent: true, ..self.tokens[i] }),
            ..self
        }
    }
}

pub struct TokenWallet {
    identity: WalletId,
    issuer: IssuerPublicKey,
    tokens: Vec<HeldToken>,
    state: ElementState,
    rng: StdRng,
}

impl View for TokenWallet {
    type V = TokenWalletView;

    closed spec fn view(&self) -> TokenWalletView {
        TokenWalletView {
            identity: self.identity,
            issuer: self.issuer@,
            tokens: self.tokens@.map_values(|t: HeldToken| t@),
            state: self.state,
        }
    }
}

impl TokenWallet {
    pub fn new(identity: WalletId, issuer: IssuerPublicKey, rng: StdRng) -> (r: Self)
        ensures
            r@ == (TokenWalletView {
                identity,
                issuer: issuer@,
                tokens: Seq::empty(),
                state: ElementState::Sealed,
            }),
    {
        let r = TokenWallet {
            identity,
            issuer,
            tokens: Vec::new(),
            state: ElementState::Sealed,
            rng,
        };
        proof {
            assert(r@.tokens =~= Seq::empty());
        }
        r
    }

    pub fn identity(&self) -> (r: WalletId)
        ensures
            r == self@.identity,
    {
        self.identity
    }

    /// Simulates a hardware attack that lets the element spend a token again.
    pub fn crack_secure_element(&mut self)
        ensures
            final(self)@ == (TokenWalletView { state: ElementState::Cracked, ..old(self)@ }),
    {
        self.state = ElementState::Cracked;
    }

    fn draw_secrets(&mut self) -> (r: Result<CandidateSecrets, Error>)
        ensures
            final(self)@ == old(self)@,
            r matches Ok(secrets) ==> crate::arith::gcd(
                secrets.blinding_factor@,
                old(self)@.issuer.n,
            ) == 1,
            r matches Err(error) ==> error == Error::EntropyExhausted,
    {
        let mut intercepts: [Fp; 5] = [Fp::zero(), Fp::zero(), Fp::zero(), Fp::zero(), Fp::zero()];
        let mut j: usize = 0;
        while j < 5
            invariant
                j <= 5,
                self@ == old(self)@,
            decreases 5 - j,
        {
            match Fp::random(&mut self.rng) {
                Ok(x) => {
                    intercepts[j] = x;
                },
                Err(error) => {
                    return Err(error);
                },
            }
            j = j + 1;
        }
        let serial: [u8; 16] = crate::random::draw_nonce(&mut self.rng);
        let nonce: [u8; 32] = crate::random::draw_bytes32(&mut self.rng);
        match self.issuer.draw_factor(&mut self.rng) {
            Ok(blinding_factor) => Ok(
                CandidateSecrets { serial, intercepts, nonce, blinding_factor },
            ),
            Err(error) => Err(error),
        }
    }

    /// Builds candidates for a withdrawal. At least two are needed.
    pub fn begin_withdrawal(
        &mut self,
        amount_cents: u64,
        expiry_epoch: u64,
        candidate_count: usize,
    ) -> (r: Result<(WithdrawalRequest, WithdrawalSession), Error>)
        ensures
            final(self)@ == old(self)@,
            r matches Ok(begun) ==> {
                &&& candidate_count >= 2
                &&& begun.0@.candidates.len() == candidate_count
                &&& begun.0.amount_cents == amount_cents
                &&& begun.0.expiry_epoch == expiry_epoch
                &&& session_matches(old(self)@.identity, old(self)@.issuer, begun.0@, begun.1@)
            },
            r matches Err(error) ==> error == if candidate_count < 2 {
                Error::BadParameters("cut-and-choose needs at least 2 candidates")
            } else {
                Error::EntropyExhausted
            },
    {
        if candidate_count < 2 {
            return Err(Error::BadParameters("cut-and-choose needs at least 2 candidates"));
        }
        let mut candidates: Vec<Candidate> = Vec::new();
        let mut revealed: Vec<Revealed> = Vec::new();
        while candidates.len() < candidate_count
            invariant
                candidate_count >= 2,
                self@ == old(self)@,
                candidates@.len() == revealed@.len(),
                candidates@.len() <= candidate_count,
                forall|i: int|
                    0 <= i < revealed@.len() ==> honest_candidate(
                        self@.identity@,
                        amount_cents,
                        expiry_epoch,
                        (#[trigger] revealed@[i])@,
                    ) && candidates@[i]@ == offered(self@.issuer, revealed@[i]@)
                        && crate::arith::gcd(revealed@[i]@.blinding_factor, self@.issuer.n) == 1,
            decreases candidate_count - candidates.len(),
        {
            let secrets: CandidateSecrets = match self.draw_secrets() {
                Ok(secrets) => secrets,
                Err(error) => {
                    return Err(error);
                },
            };
            let made: Revealed = make_candidate(
                &self.identity,
                amount_cents,
                expiry_epoch,
                secrets,
            );
            let blinded_message: Natural = self.issuer.blind(
                &made.payload.digest(),
                &made.blinding_factor,
            );
            candidates.push(Candidate { commitment: made.payload.commitment, blinded_message });
            revealed.push(made);
        }
        Ok(
            (
                WithdrawalRequest {
                    account: self.identity,
                    amount_cents,
                    expiry_epoch,
                    candidates,
                },
                WithdrawalSession { candidates: revealed },
            ),
        )
    }

    /// Opens every candidate but the one that the issuer keeps back.
    pub fn answer_cut(&self, session: &WithdrawalSession, cut: &CutChallenge) -> (r: Result<
        Opening,
        Error,
    >)
        ensures
            r is Ok <==> cut.keep < session@.len(),
            r matches Ok(opening) ==> opening@ == opening_of(
                session@,
                cut.keep as int,
                session@.len() as int,
            ),
            r matches Err(error) ==> error == Error::BadOpening,
    {
        if cut.keep >= session.candidates.len() {
            return Err(Error::BadOpening);
        }
        let mut openings: Vec<(usize, Revealed)> = Vec::new();
        let mut i: usize = 0;
        proof {
            assert(openings@.map_values(|o: (usize, Revealed)| (o.0, o.1@)) =~= Seq::empty());
        }
        while i < session.candidates.len()
            invariant
                i <= session.candidates@.len(),
                session@.len() == session.candidates@.len(),
                openings@.map_values(|o: (usize, Revealed)| (o.0, o.1@)) == opening_of(
                    session@,
                    cut.keep as int,
                    i as int,
                ),
            decreases session.candidates.len() - i,
        {
            if i != cut.keep {
                let ghost before = openings@;
                let opened: Revealed = session.candidates[i].clone();
                openings.push((i, opened));
                proof {
                    assert(openings@.map_values(|o: (usize, Revealed)| (o.0, o.1@))
                        =~= before.map_values(|o: (usize, Revealed)| (o.0, o.1@)).push(
                        (i, session@[i as int]),
                    ));
                }
            }
            i = i + 1;
        }
        Ok(Opening { openings })
    }

    /// Takes the blinding factor out of the issuer's signature and stores the
    /// token, if it is signed.
    pub fn finish_withdrawal(
        &mut self,
        session: WithdrawalSession,
        cut: &CutChallenge,
        blinded_signature: &Natural,
    ) -> (r: Result<Token, Error>)
        ensures
            match r {
                Ok(token) => {
                    &&& cut.keep < session@.len()
                    &&& unblinds_to_valid(
                        old(self)@.issuer,
                        session@[cut.keep as int],
                        blinded_signature@,
                    )
                    &&& token@.payload == session@[cut.keep as int].payload
                    &&& crate::ecash::blind_sig::unblinds_to(
                        old(self)@.issuer,
                        session@[cut.keep as int].blinding_factor,
                        blinded_signature@,
                        token@.signature,
                    )
                    &&& crate::signature::signature_valid(
                        old(self)@.issuer,
                        crate::ecash::token::payload_digest(token@.payload),
                        token@.signature,
                    )
                    &&& final(self)@ == (TokenWalletView {
                        tokens: old(self)@.tokens.push(
                            HeldTokenView {
                                token: token@,
                                lines: session@[cut.keep as int].lines,
                                spent: false,
                            },
                        ),
                        ..old(self)@
                    })
                },
                Err(error) => {
                    &&& final(self)@ == old(self)@
                    &&& error == if cut.keep >= session@.len() {
                        Error::BadOpening
                    } else {
                        Error::InvalidTokenSignature
                    }
                    &&& cut.keep < session@.len() ==> !unblinds_to_valid(
                        old(self)@.issuer,
                        session@[cut.keep as int],
                        blinded_signature@,
                    )
                },
            },
    {
        if cut.keep >= session.candidates.len() {
            return Err(Error::BadOpening);
        }
        let kept: &Revealed = &session.candidates[cut.keep];
        proof {
            assert(session@[cut.keep as int] == kept@);
        }
        match self.issuer.unblind(blinded_signature, &kept.blinding_factor) {
            Some(signature) => {
                if !self.issuer.verify(&kept.payload.digest(), &signature) {
                    return Err(Error::InvalidTokenSignature);
                }
                proof {
                    crate::ecash::blind_sig::lemma_unblinding_is_unique(
                        self@.issuer,
                        kept@.blinding_factor,
                        blinded_signature@,
                        signature@,
                    );
                }
                let token = Token { payload: kept.payload.clone(), signature };
                self.tokens.push(
                    HeldToken { token: token.clone(), lines: kept.lines.clone(), spent: false },
                );
                proof {
                    assert(self@.tokens =~= old(self)@.tokens.push(
                        HeldTokenView { token: token@, lines: kept@.lines, spent: false },
                    ));
                }
                Ok(token)
            },
            None => Err(Error::InvalidTokenSignature),
        }
    }

    /// Answers a challenge with a token. A sealed element answers once for each
    /// token.
    pub fn spend(&mut self, serial: &[u8; 16], challenge: Fp) -> (r: Result<
        (Token, SpendProof),
        Error,
    >)
        ensures
            match r {
                Ok(spent) => {
                    let i = old(self)@.find(*serial, 0)->0;
                    &&& old(self)@.spend_error(*serial, challenge@) is None
                    &&& 0 <= i < old(self)@.tokens.len()
                    &&& spent.0@ == old(self)@.tokens[i].token
                    &&& spent.1.challenge == challenge
                    &&& crate::ecash::identity::limb_digits(spent.1.response@)
                        == crate::ecash::token::points(old(self)@.tokens[i].lines, challenge@)
                    &&& final(self)@ == old(self)@.after_spend(i)
                },
                Err(error) => {
                    &&& old(self)@.spend_error(*serial, challenge@) == Some(error)
                    &&& final(self)@ == old(self)@
                },
            },
    {
        let mut i: usize = 0;
        while i < self.tokens.len()
            invariant
                i <= self.tokens@.len(),
                *self == *old(self),
                self@.find(*serial, 0) == self@.find(*serial, i as int),
            decreases self.tokens.len() - i,
        {
            let same: bool = crate::bytes::bytes_equal(
                self.tokens[i].token.payload.serial.as_slice(),
                serial.as_slice(),
            );
            proof {
                assert(self@.tokens[i as int] == self.tokens@[i as int]@);
                if same {
                    assert(self.tokens@[i as int].token.payload.serial =~= *serial);
                }
            }
            if same {
                if challenge.is_zero() {
                    return Err(Error::DegenerateChallenge);
                }
                if self.tokens[i].spent && self.state == ElementState::Sealed {
                    return Err(Error::TokenAlreadySpent);
                }
                let token: Token = self.tokens[i].token.clone();
                let lines: SecretLines = self.tokens[i].lines.clone();
                let response: [Fp; 5] = lines.respond(challenge);
                let kept = HeldToken { token: token.clone(), lines, spent: true };
                self.tokens[i] = kept;
                proof {
                    assert(self@.tokens =~= old(self)@.after_spend(i as int).tokens);
                }
                return Ok((token, SpendProof { challenge, response }));
            }
            i = i + 1;
        }
        Err(Error::UnknownToken)
    }
}

/// Whether a blind signature, with the factor of a candidate taken out, is a
/// signature on its payload.
pub open spec fn unblinds_to_valid(
    key: PublicKeyView,
    revealed: RevealedView,
    blinded_signature: nat,
) -> bool {
    crate::arith::gcd(revealed.blinding_factor, key.n) == 1 && forall|inverse: nat|
        (revealed.blinding_factor * inverse) % key.n == 1nat % key.n
            ==> crate::signature::signature_valid(
            key,
            crate::ecash::token::payload_digest(revealed.payload),
            #[trigger] (blinded_signature * inverse) % key.n,
        )
}

// ---------------------------------------------------------------------------
// A sealed element spends each token once
// ---------------------------------------------------------------------------

/// A token is found by its serial: the first one that has it, from a place on.
pub proof fn lemma_token_is_found_by_its_serial(
    wallet: TokenWalletView,
    serial: [u8; 16],
    place: int,
)
    requires
        0 <= place <= wallet.tokens.len(),
    ensures
        match wallet.find(serial, place) {
            Some(i) => {
                &&& place <= i < wallet.tokens.len()
                &&& wallet.tokens[i].token.payload.serial == serial
                &&& forall|j: int|
                    place <= j < i ==> (#[trigger] wallet.tokens[j]).token.payload.serial != serial
            },
            None => forall|j: int|
                place <= j < wallet.tokens.len() ==> (
                #[trigger] wallet.tokens[j]).token.payload.serial != serial,
        },
    decreases wallet.tokens.len() - place,
{
    if place < wallet.tokens.len() && wallet.tokens[place].token.payload.serial != serial {
        lemma_token_is_found_by_its_serial(wallet, serial, place + 1);
    }
}

/// Two wallets whose tokens have the same serials at the same places find the same.
proof fn lemma_same_serials_find_the_same(
    a: TokenWalletView,
    b: TokenWalletView,
    serial: [u8; 16],
)
    requires
        a.tokens.len() == b.tokens.len(),
        forall|j: int|
            0 <= j < a.tokens.len() ==> (#[trigger] a.tokens[j]).token.payload.serial
                == b.tokens[j].token.payload.serial,
    ensures
        a.find(serial, 0) == b.find(serial, 0),
{
    lemma_token_is_found_by_its_serial(a, serial, 0);
    lemma_token_is_found_by_its_serial(b, serial, 0);
    if let Some(i) = a.find(serial, 0) {
        assert(b.tokens[i].token.payload.serial == serial);
        if let Some(j) = b.find(serial, 0) {
            assert(a.tokens[j].token.payload.serial == serial);
        }
    } else if let Some(j) = b.find(serial, 0) {
        assert(a.tokens[j].token.payload.serial == serial);
    }
}

/// A challenge is answered exactly if the wallet holds a token with that serial, the
/// challenge is not zero, and the first such token is unspent or the element cracked.
pub proof fn lemma_token_is_spent_if_it_can_be(
    wallet: TokenWalletView,
    serial: [u8; 16],
    challenge: nat,
    i: int,
)
    requires
        0 <= i < wallet.tokens.len(),
        wallet.tokens[i].token.payload.serial == serial,
        forall|j: int| 0 <= j < i ==> (#[trigger] wallet.tokens[j]).token.payload.serial != serial,
    ensures
        wallet.find(serial, 0) == Some(i),
        wallet.spend_error(serial, challenge) is None <==> challenge != 0 && (
        !wallet.tokens[i].spent || wallet.state == ElementState::Cracked),
        wallet.spend_error(serial, challenge) == Some(Error::DegenerateChallenge) <==> challenge
            == 0,
        wallet.spend_error(serial, challenge) == Some(Error::TokenAlreadySpent) <==> challenge != 0
            && wallet.tokens[i].spent && wallet.state == ElementState::Sealed,
{
    lemma_token_is_found_by_its_serial(wallet, serial, 0);
}

/// A serial that no token has is refused, whatever the challenge.
pub proof fn lemma_unknown_serial_is_refused(
    wallet: TokenWalletView,
    serial: [u8; 16],
    challenge: nat,
)
    ensures
        wallet.spend_error(serial, challenge) == Some(Error::UnknownToken) <==> forall|j: int|
            0 <= j < wallet.tokens.len() ==> (#[trigger] wallet.tokens[j]).token.payload.serial
                != serial,
{
    lemma_token_is_found_by_its_serial(wallet, serial, 0);
}

/// Once a sealed element has spent the token with a serial, it refuses that serial for
/// every other challenge, and whether a token with another serial can be spent is as it
/// was. No token is lost or altered but for its mark.
pub proof fn lemma_token_is_spent_once(
    wallet: TokenWalletView,
    serial: [u8; 16],
    challenge: nat,
    again: nat,
)
    requires
        wallet.spend_error(serial, challenge) is None,
    ensures
        ({
            let after = wallet.after_spend(wallet.find(serial, 0)->0);
            &&& wallet.state == ElementState::Sealed && again != 0 ==> after.spend_error(
                serial,
                again,
            ) == Some(Error::TokenAlreadySpent)
            &&& wallet.state == ElementState::Cracked && again != 0 ==> after.spend_error(
                serial,
                again,
            ) is None
            &&& forall|other: [u8; 16], x: nat|
                other != serial ==> #[trigger] after.spend_error(other, x) == wallet.spend_error(
                    other,
                    x,
                )
            &&& after.identity == wallet.identity
            &&& after.issuer == wallet.issuer
            &&& after.state == wallet.state
            &&& after.tokens.len() == wallet.tokens.len()
            &&& forall|j: int|
                0 <= j < wallet.tokens.len() ==> {
                    &&& (#[trigger] after.tokens[j]).token == wallet.tokens[j].token
                    &&& after.tokens[j].lines == wallet.tokens[j].lines
                    &&& wallet.tokens[j].token.payload.serial != serial ==> after.tokens[j].spent
                        == wallet.tokens[j].spent
                    &&& wallet.tokens[j].spent ==> after.tokens[j].spent
                }
        }),
{
    let i = wallet.find(serial, 0)->0;
    let after = wallet.after_spend(i);
    lemma_token_is_found_by_its_serial(wallet, serial, 0);
    lemma_same_serials_find_the_same(wallet, after, serial);
    assert(after.tokens[i].spent);
    assert forall|other: [u8; 16], x: nat| other != serial implies #[trigger] after.spend_error(
        other,
        x,
    ) == wallet.spend_error(other, x) by {
        lemma_token_is_found_by_its_serial(wallet, other, 0);
        lemma_same_serials_find_the_same(wallet, after, other);
    }
}

// ---------------------------------------------------------------------------
// An honest withdrawal
// ---------------------------------------------------------------------------

/// Every candidate of a session is worth what is asked for, embeds the identity of the
/// wallet, and is offered under its own commitment and blinded message.
pub proof fn lemma_candidates_are_worth_what_is_asked_for(
    identity: WalletId,
    key: PublicKeyView,
    request: WithdrawalRequestView,
    session: Seq<RevealedView>,
    i: int,
)
    requires
        session_matches(identity, key, request, session),
        0 <= i < session.len(),
    ensures
        request.account == identity,
        request.candidates.len() == session.len(),
        session[i].payload.amount_cents == request.amount_cents,
        session[i].payload.expiry_epoch == request.expiry_epoch,
        session[i].payload.commitment@ == crate::ecash::token::lines_commitment(session[i].lines),
        forall|j: int|
            0 <= j < 5 ==> (#[trigger] session[i].lines.coefficients@[j]).0@
                == crate::ecash::identity::limb_of(identity@, j as nat),
        request.candidates[i].commitment == session[i].payload.commitment,
        request.candidates[i].blinded_message == crate::ecash::blind_sig::blinded_value(
            key,
            crate::ecash::token::payload_digest(session[i].payload),
            session[i].blinding_factor,
        ),
        crate::arith::gcd(session[i].blinding_factor, key.n) == 1,
{
    assert forall|j: int| 0 <= j < 5 implies (#[trigger] session[i].lines.coefficients@[j]).0@
        == crate::ecash::identity::limb_of(identity@, j as nat) by {
        assert(crate::ecash::token::slopes(session[i].lines)[j]
            == crate::ecash::identity::limbs_of(identity@)[j]);
    }
}

/// The answer to a cut opens every candidate but the one that is kept, each once, with
/// its place, and as it was made.
pub proof fn lemma_every_candidate_but_one_is_opened(
    session: Seq<RevealedView>,
    keep: int,
    end: int,
    place: int,
)
    requires
        0 <= end <= session.len() <= usize::MAX,
        0 <= place < end,
    ensures
        0 <= keep < end ==> opening_of(session, keep, end).len() == end - 1,
        place < keep < end ==> opening_of(session, keep, end)[place] == (
            place as usize,
            session[place],
        ),
        0 <= keep < place ==> opening_of(session, keep, end)[place - 1] == (
            place as usize,
            session[place],
        ),
        forall|k: int|
            0 <= k < opening_of(session, keep, end).len() ==> (
            #[trigger] opening_of(session, keep, end)[k]).0 != keep,
{
    lemma_opening_len(session, keep, end);
    lemma_opening_skips(session, keep, end);
    if place != keep {
        lemma_opening_place(session, keep, end, place);
    }
}

proof fn lemma_opening_len(session: Seq<RevealedView>, keep: int, end: int)
    requires
        0 <= end <= session.len() <= usize::MAX,
    ensures
        opening_of(session, keep, end).len() == if 0 <= keep < end {
            end - 1
        } else {
            end
        },
    decreases end,
{
    if end > 0 {
        lemma_opening_len(session, keep, end - 1);
    }
}

proof fn lemma_opening_skips(session: Seq<RevealedView>, keep: int, end: int)
    requires
        0 <= end <= session.len() <= usize::MAX,
    ensures
        forall|k: int|
            0 <= k < opening_of(session, keep, end).len() ==> (
            #[trigger] opening_of(session, keep, end)[k]).0 != keep,
    decreases end,
{
    if end > 0 {
        lemma_opening_skips(session, keep, end - 1);
        let rest = opening_of(session, keep, end - 1);
        assert forall|k: int| 0 <= k < opening_of(session, keep, end).len() implies (
        #[trigger] opening_of(session, keep, end)[k]).0 != keep by {
            if k < rest.len() {
                assert(opening_of(session, keep, end)[k] == rest[k]);
            }
        }
    }
}

proof fn lemma_opening_place(session: Seq<RevealedView>, keep: int, end: int, place: int)
    requires
        0 <= end <= session.len() <= usize::MAX,
        0 <= place < end,
        place != keep,
    ensures
        opening_of(session, keep, end)[if 0 <= keep < place {
            place - 1
        } else {
            place
        }] == (place as usize, session[place]),
    decreases end,
{
    lemma_opening_len(session, keep, end - 1);
    if place < end - 1 {
        lemma_opening_place(session, keep, end - 1, place);
    }
}

/// A withdrawal can be finished exactly if what the blinded signature unblinds to is the
/// issuer's signature on the kept payload. A blinding factor that shares a divisor with the
/// modulus unblinds to nothing.
pub proof fn lemma_withdrawal_is_finished_with_a_valid_signature(
    key: PublicKeyView,
    revealed: RevealedView,
    blinded_signature: nat,
    signature: nat,
)
    requires
        key.n > 0,
    ensures
        crate::arith::gcd(revealed.blinding_factor, key.n) == 1
            && crate::ecash::blind_sig::unblinds_to(
            key,
            revealed.blinding_factor,
            blinded_signature,
            signature,
        ) ==> (unblinds_to_valid(key, revealed, blinded_signature)
            <==> crate::signature::signature_valid(
            key,
            crate::ecash::token::payload_digest(revealed.payload),
            signature,
        )),
        crate::arith::gcd(revealed.blinding_factor, key.n) != 1 ==> !unblinds_to_valid(
            key,
            revealed,
            blinded_signature,
        ),
{
    let factor = revealed.blinding_factor;
    if crate::ecash::blind_sig::unblinds_to(key, factor, blinded_signature, signature) {
        crate::ecash::blind_sig::lemma_unblinding_is_unique(
            key,
            factor,
            blinded_signature,
            signature,
        );
        let inverse = choose|inverse: nat|
            (factor * inverse) % key.n == 1nat % key.n && signature == #[trigger] (
            blinded_signature * inverse) % key.n;
        assert(signature == (blinded_signature * inverse) % key.n);
    }
}

/// What a candidate offers is the commitment of its payload, and the hash of the payload times
/// the blinding factor to the issuer's exponent.
pub proof fn lemma_offer_is_the_blinded_payload(key: PublicKeyView, revealed: RevealedView)
    requires
        key.n > 0,
    ensures
        offered(key, revealed).commitment == revealed.payload.commitment,
        offered(key, revealed).blinded_message < key.n,
        offered(key, revealed).blinded_message == (crate::signature::fdh(
            key.n,
            crate::ecash::token::payload_digest(revealed.payload),
        ) * vstd::arithmetic::power::pow(revealed.blinding_factor as int, key.e)) % (key.n as int),
{
    vstd::arithmetic::div_mod::lemma_mod_bound(
        crate::signature::fdh(key.n, crate::ecash::token::payload_digest(revealed.payload))
            * vstd::arithmetic::power::pow(revealed.blinding_factor as int, key.e),
        key.n as int,
    );
}

} // verus!
