//! The three-move withdrawal protocol between a wallet and an issuer.

use crate::ecash::issuer::{openings_error, revealed_error, Issuer, IssuerView};
use crate::ecash::token::Token;
use crate::ecash::wallet::{
    honest_candidate, offered, opening_of, session_matches, unblinds_to_valid, TokenWallet,
    TokenWalletView,
};
use crate::ecash::withdrawal::{RevealedView, WithdrawalRequestView};
use crate::error::Error;
use crate::signature::PublicKeyView;
use rand::rngs::StdRng;
use vstd::prelude::*;

verus! {

/// The place of the `k`-th candidate that is opened.
pub open spec fn opened_place(keep: int, k: int) -> int {
    if k < keep {
        k
    } else {
        k + 1
    }
}

proof fn lemma_opening_of(session: Seq<RevealedView>, keep: int, end: int)
    requires
        0 <= keep < session.len(),
        0 <= end <= session.len() <= usize::MAX,
    ensures
        opening_of(session, keep, end).len() == if keep < end {
            end - 1
        } else {
            end
        },
        forall|k: int|
            0 <= k < opening_of(session, keep, end).len() ==> {
                let place = opened_place(keep, k);
                &&& (#[trigger] opening_of(session, keep, end)[k]).0 == place
                &&& 0 <= place < end
                &&& opening_of(session, keep, end)[k].1 == session[place]
            },
    decreases end,
{
    if end > 0 {
        lemma_opening_of(session, keep, end - 1);
    }
}

proof fn lemma_honest_openings(
    key: PublicKeyView,
    request: WithdrawalRequestView,
    session: Seq<RevealedView>,
    keep: usize,
    place: int,
)
    requires
        session_matches(request.account, key, request, session),
        keep < session.len() <= usize::MAX,
        0 <= place < session.len(),
    ensures
        openings_error(
            key,
            request,
            keep,
            opening_of(session, keep as int, session.len() as int),
            place,
        ) is None,
    decreases session.len() - place,
{
    let openings = opening_of(session, keep as int, session.len() as int);
    lemma_opening_of(session, keep as int, session.len() as int);
    if place < openings.len() {
        let (index, revealed) = openings[place];
        assert(index == opened_place(keep as int, place));
        assert(revealed == session[index as int]);
        assert forall|j: int| 0 <= j < place implies (#[trigger] openings[j]).0 != index by {
            assert(openings[j].0 == opened_place(keep as int, j));
        }
        assert(honest_candidate(
            request.account@,
            request.amount_cents,
            request.expiry_epoch,
            session[index as int],
        ));
        assert(request.candidates[index as int] == offered(key, session[index as int]));
        crate::ecash::identity::lemma_identity_len(request.account);
        crate::ecash::identity::lemma_limbs_reassemble(request.account@);
        assert(revealed_error(key, request, index, revealed) is None);
        lemma_honest_openings(key, request, session, keep, place + 1);
    }
}

/// An honest wallet passes the cut, whichever candidate is kept back: nothing but
/// the account can make the issuer refuse to sign.
pub proof fn lemma_honest_opening_is_accepted(
    issuer: IssuerView,
    request: WithdrawalRequestView,
    session: Seq<RevealedView>,
    keep: usize,
)
    requires
        session_matches(request.account, issuer.key, request, session),
        keep < session.len() <= usize::MAX,
    ensures
        issuer.issue_error(
            request,
            keep,
            opening_of(session, keep as int, session.len() as int),
        ) == issuer.account_error(request),
{
    lemma_opening_of(session, keep as int, session.len() as int);
    lemma_honest_openings(issuer.key, request, session, keep, 0);
}

/// What an issuer with a sound key signs for an honest candidate unblinds to a
/// valid signature.
pub proof fn lemma_issued_signature_unblinds(issuer: IssuerView, revealed: RevealedView)
    requires
        crate::signature::sound_key(issuer.key, issuer.private_exponent),
        crate::arith::gcd(revealed.blinding_factor, issuer.key.n) == 1,
    ensures
        unblinds_to_valid(
            issuer.key,
            revealed,
            crate::ecash::blind_sig::blind_signature_value(
                issuer.key.n,
                issuer.private_exponent,
                offered(issuer.key, revealed).blinded_message,
            ),
        ),
{
    let digest = crate::ecash::token::payload_digest(revealed.payload);
    let blinded_signature = crate::ecash::blind_sig::blind_signature_value(
        issuer.key.n,
        issuer.private_exponent,
        offered(issuer.key, revealed).blinded_message,
    );
    assert forall|inverse: nat|
        (revealed.blinding_factor * inverse) % issuer.key.n == 1nat
            % issuer.key.n implies crate::signature::signature_valid(
        issuer.key,
        digest,
        #[trigger] (blinded_signature * inverse) % issuer.key.n,
    ) by {
        crate::ecash::blind_sig::lemma_unblinded_signature_is_valid(
            issuer.key,
            issuer.private_exponent,
            digest,
            revealed.blinding_factor,
            inverse,
        );
    }
}

/// Why a withdrawal is refused at the cut.
pub open spec fn withdrawal_error(
    wallet: TokenWalletView,
    issuer: IssuerView,
    amount_cents: u64,
    candidate_count: usize,
) -> Option<Error> {
    let account = issuer.accounts[wallet.identity@];
    if candidate_count < 2 {
        Some(Error::BadParameters("cut-and-choose needs at least 2 candidates"))
    } else if !issuer.accounts.contains_key(wallet.identity@) || account.suspended {
        Some(Error::UnknownAccount(wallet.identity))
    } else if account.balance_cents < amount_cents {
        Some(
            Error::InsufficientFunds {
                requested: amount_cents,
                available: account.balance_cents,
            },
        )
    } else {
        None
    }
}

/// The issuer after a withdrawal: the account has the amount less, and that much
/// more is outstanding.
pub open spec fn withdrawn(
    issuer: IssuerView,
    wallet: TokenWalletView,
    amount_cents: u64,
) -> IssuerView {
    let account = issuer.accounts[wallet.identity@];
    IssuerView {
        accounts: issuer.accounts.insert(
            wallet.identity@,
            crate::ecash::accounts::Account {
                balance_cents: (account.balance_cents - amount_cents) as u64,
                suspended: account.suspended,
            },
        ),
        outstanding_cents: (issuer.outstanding_cents + amount_cents) as u64,
        ..issuer
    }
}

/// Runs the three-move withdrawal protocol between a wallet and an issuer. What
/// can go wrong is stated for a wallet that holds the issuer's key.
pub fn withdraw(
    wallet: &mut TokenWallet,
    issuer: &mut Issuer,
    amount_cents: u64,
    expiry_epoch: u64,
    candidate_count: usize,
    issuer_rng: &mut StdRng,
) -> (r: Result<Token, Error>)
    requires
        old(issuer).well_formed(),
        withdrawal_error(old(wallet)@, old(issuer)@, amount_cents, candidate_count) is None ==> old(
            issuer,
        )@.outstanding_cents + amount_cents <= u64::MAX,
    ensures
        final(issuer).well_formed(),
        match r {
            Ok(token) => {
                &&& withdrawal_error(
                    old(wallet)@,
                    old(issuer)@,
                    amount_cents,
                    candidate_count,
                ) is None
                &&& final(issuer)@ == withdrawn(old(issuer)@, old(wallet)@, amount_cents)
                &&& token@.payload.amount_cents == amount_cents
                &&& token@.payload.expiry_epoch == expiry_epoch
                &&& crate::signature::signature_valid(
                    old(wallet)@.issuer,
                    crate::ecash::token::payload_digest(token@.payload),
                    token@.signature,
                )
                &&& final(wallet)@.tokens.len() == old(wallet)@.tokens.len() + 1
                &&& final(wallet)@ == (TokenWalletView {
                    tokens: old(wallet)@.tokens.push(final(wallet)@.tokens.last()),
                    ..old(wallet)@
                })
                &&& final(wallet)@.tokens.last().token == token@
                &&& !final(wallet)@.tokens.last().spent
                &&& crate::ecash::token::slopes(final(wallet)@.tokens.last().lines)
                    == crate::ecash::identity::limbs_of(old(wallet)@.identity@)
            },
            Err(error) => {
                &&& final(wallet)@ == old(wallet)@
                &&& final(issuer)@ == old(issuer)@ || final(issuer)@ == withdrawn(
                    old(issuer)@,
                    old(wallet)@,
                    amount_cents,
                )
                &&& old(wallet)@.issuer == old(issuer)@.key ==> match withdrawal_error(
                    old(wallet)@,
                    old(issuer)@,
                    amount_cents,
                    candidate_count,
                ) {
                    Some(refusal) => final(issuer)@ == old(issuer)@ && (error == refusal || (
                    candidate_count >= 2 && error == Error::EntropyExhausted)),
                    None => {
                        ||| error == Error::EntropyExhausted && final(issuer)@ == old(issuer)@
                        ||| error == Error::InvalidTokenSignature && final(issuer)@ == withdrawn(
                            old(issuer)@,
                            old(wallet)@,
                            amount_cents,
                        ) && !crate::signature::sound_key(
                            old(issuer)@.key,
                            old(issuer)@.private_exponent,
                        )
                    },
                }
            },
        },
{
    let (request, session) = match wallet.begin_withdrawal(
        amount_cents,
        expiry_epoch,
        candidate_count,
    ) {
        Ok(begun) => begun,
        Err(error) => {
            return Err(error);
        },
    };
    let cut = match issuer.cut(&request, issuer_rng) {
        Ok(cut) => cut,
        Err(error) => {
            return Err(error);
        },
    };
    let opening = match wallet.answer_cut(&session, &cut) {
        Ok(opening) => opening,
        Err(error) => {
            return Err(error);
        },
    };
    proof {
        if wallet@.issuer == issuer@.key {
            lemma_honest_opening_is_accepted(issuer@, request@, session@, cut.keep);
        }
    }
    let blinded_signature = match issuer.issue(&request, &cut, &opening) {
        Ok(signature) => signature,
        Err(error) => {
            return Err(error);
        },
    };
    proof {
        let kept = session@[cut.keep as int];
        assert(honest_candidate(
            old(wallet)@.identity@,
            amount_cents,
            expiry_epoch,
            kept,
        ));
        if old(wallet)@.issuer == old(issuer)@.key && crate::signature::sound_key(
            old(issuer)@.key,
            old(issuer)@.private_exponent,
        ) {
            lemma_issued_signature_unblinds(old(issuer)@, kept);
        }
    }
    wallet.finish_withdrawal(session, &cut, &blinded_signature)
}

/// A withdrawal is refused for nothing but too few candidates, an account that is unknown
/// or suspended, or an amount above the balance: the whole balance can be withdrawn.
pub proof fn lemma_withdrawal_is_limited_by_the_balance(
    wallet: TokenWalletView,
    issuer: IssuerView,
    amount_cents: u64,
    candidate_count: usize,
)
    ensures
        ({
            let error = withdrawal_error(wallet, issuer, amount_cents, candidate_count);
            let account = issuer.accounts[wallet.identity@];
            let known = issuer.accounts.contains_key(wallet.identity@) && !account.suspended;
            let enough = candidate_count >= 2;
            &&& error is None <==> enough && known && amount_cents <= account.balance_cents
            &&& error == Some(
                Error::BadParameters("cut-and-choose needs at least 2 candidates"),
            ) <==> !enough
            &&& error == Some(Error::UnknownAccount(wallet.identity)) <==> enough && !known
            &&& error == Some(
                Error::InsufficientFunds {
                    requested: amount_cents,
                    available: account.balance_cents,
                },
            ) <==> enough && known && amount_cents > account.balance_cents
        }),
{
}

/// A withdrawal moves the amount from the account to what is outstanding, cent for cent,
/// and changes nothing else.
pub proof fn lemma_withdrawn_amount_is_outstanding(
    wallet: TokenWalletView,
    issuer: IssuerView,
    amount_cents: u64,
    candidate_count: usize,
)
    requires
        withdrawal_error(wallet, issuer, amount_cents, candidate_count) is None,
        issuer.outstanding_cents + amount_cents <= u64::MAX,
    ensures
        ({
            let after = withdrawn(issuer, wallet, amount_cents);
            let id = wallet.identity@;
            &&& after.accounts[id].balance_cents == issuer.accounts[id].balance_cents
                - amount_cents
            &&& !after.accounts[id].suspended
            &&& after.outstanding_cents == issuer.outstanding_cents + amount_cents
            &&& after.accounts.dom() == issuer.accounts.dom()
            &&& forall|other: Seq<u8>|
                other != id ==> #[trigger] after.accounts[other] == issuer.accounts[other]
            &&& after.ledger == issuer.ledger
            &&& after.key == issuer.key
            &&& after.private_exponent == issuer.private_exponent
        }),
{
    assert(withdrawn(issuer, wallet, amount_cents).accounts.dom() =~= issuer.accounts.dom());
}

} // verus!
