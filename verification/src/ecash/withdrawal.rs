//! The messages of a withdrawal: the wallet offers candidates, the issuer keeps
//! one back, and the wallet opens all others.

use crate::ecash::identity::WalletId;
use crate::ecash::token::{SecretLines, TokenPayload};
use crate::natural::Natural;
use vstd::prelude::*;

verus! {

/// A token that the wallet offers for signature, hidden behind a commitment and
/// a blinding factor.
#[derive(Debug, PartialEq, Eq)]
pub struct Candidate {
    pub commitment: [u8; 32],
    pub blinded_message: Natural,
}

/// A candidate as plain values.
pub struct CandidateView {
    pub commitment: [u8; 32],
    pub blinded_message: nat,
}

impl View for Candidate {
    type V = CandidateView;

    open spec fn view(&self) -> CandidateView {
        CandidateView { commitment: self.commitment, blinded_message: self.blinded_message@ }
    }
}

/// Wallet to issuer: "sign one of these".
#[derive(Debug, PartialEq, Eq)]
pub struct WithdrawalRequest {
    pub account: WalletId,
    pub amount_cents: u64,
    pub expiry_epoch: u64,
    pub candidates: Vec<Candidate>,
}

/// A withdrawal request as plain values.
pub struct WithdrawalRequestView {
    pub account: WalletId,
    pub amount_cents: u64,
    pub expiry_epoch: u64,
    pub candidates: Seq<CandidateView>,
}

impl View for WithdrawalRequest {
    type V = WithdrawalRequestView;

    open spec fn view(&self) -> WithdrawalRequestView {
        WithdrawalRequestView {
            account: self.account,
            amount_cents: self.amount_cents,
            expiry_epoch: self.expiry_epoch,
            candidates: self.candidates@.map_values(|c: Candidate| c@),
        }
    }
}

/// Issuer to wallet: the candidate that stays closed.
#[derive(Clone, Copy, Debug, PartialEq, Eq)]
pub struct CutChallenge {
    pub keep: usize,
}

/// Everything that went into a candidate.
#[derive(Debug, PartialEq, Eq)]
pub struct Revealed {
    pub lines: SecretLines,
    pub payload: TokenPayload,
    pub blinding_factor: Natural,
}

/// What went into a candidate, as plain values.
pub struct RevealedView {
    pub lines: SecretLines,
    pub payload: TokenPayload,
    pub blinding_factor: nat,
}

impl View for Revealed {
    type V = RevealedView;

    open spec fn view(&self) -> RevealedView {
        RevealedView {
            lines: self.lines,
            payload: self.payload,
            blinding_factor: self.blinding_factor@,
        }
    }
}

impl Clone for Revealed {
    fn clone(&self) -> (r: Self)
        ensures
            r@ == self@,
    {
        Revealed {
            lines: self.lines.clone(),
            payload: self.payload.clone(),
            blinding_factor: self.blinding_factor.clone(),
        }
    }
}

/// Wallet to issuer: all candidates but one, with their places.
#[derive(Debug, PartialEq, Eq)]
pub struct Opening {
    pub openings: Vec<(usize, Revealed)>,
}

impl View for Opening {
    type V = Seq<(usize, RevealedView)>;

    open spec fn view(&self) -> Seq<(usize, RevealedView)> {
        self.openings@.map_values(|o: (usize, Revealed)| (o.0, o.1@))
    }
}

} // verus!
