//! Protocol errors.

use crate::ecash::identity::WalletId;
use crate::id::{AccountId, DeviceId};
use crate::text::{spells, spells_bytes};
use vstd::prelude::*;

verus! {

#[derive(Debug, Clone, Copy, PartialEq, Eq)]
pub enum Error {
    // Devices and the online accounts behind them.
    /// The issuer's signature on a device certificate does not verify, or the
    /// certificate is for another key.
    InvalidCertificate,
    /// A message is not signed by the key that it should be signed by.
    InvalidSignature,
    /// The message is addressed to another device.
    NotForThisDevice,
    /// The message was credited before.
    AlreadyCredited,
    /// The message answers no open request.
    UnknownRequest,
    /// A device cannot pay itself.
    SelfPayment,
    /// Nothing is to be moved.
    ZeroAmount,
    /// The amount does not fit under the holding limit.
    HoldingLimitExceeded { requested: u64, headroom: u64 },
    /// The issuer has acted on this message, or on a later one, before.
    Replay,
    /// Account that the issuer does not hold.
    UnregisteredAccount(AccountId),
    /// Device that the issuer did not certify.
    UnknownDevice(DeviceId),
    /// A sum of money is too large to be represented.
    AmountOverflow,
    /// The source of randomness gave nothing usable.
    EntropyExhausted,
    // Tokens.
    /// The bank's blind signature on the token does not verify.
    InvalidTokenSignature,
    /// The payer answered a challenge other than the one the merchant issued.
    ChallengeMismatch,
    /// A merchant tried to issue the degenerate challenge `x = 0`, which would
    /// leak nothing on a double-spend (`f(0) = s`), so it is refused.
    DegenerateChallenge,
    /// Face value does not match the amount being paid.
    AmountMismatch { expected: u64, found: u64 },
    /// Token is past its expiry epoch.
    Expired { expiry: u64, now: u64 },
    /// The secure element refuses to spend a token it has already spent.
    TokenAlreadySpent,
    /// No such token in the wallet.
    UnknownToken,
    /// Cut-and-choose: an opened candidate does not match its commitment.
    CommitmentMismatch { index: usize },
    /// Cut-and-choose: an opened candidate does not embed the account's real
    /// identity, i.e. the wallet tried to hide behind a forged `I`.
    IdentityNotEmbedded { index: usize },
    /// Cut-and-choose: the blinded message does not correspond to the opened
    /// payload and blinding factor.
    BlindingMismatch { index: usize },
    /// The withdrawal opening does not cover exactly the requested indices.
    BadOpening,
    /// Recovered slopes are not a well-formed wallet identity.
    MalformedIdentity { limb: usize, value: u64, budget: u32 },
    /// Account unknown to the issuer.
    UnknownAccount(WalletId),
    /// Not enough funds to cover the requested amount.
    InsufficientFunds { requested: u64, available: u64 },
    /// A sanity bound on the cut-and-choose parameter.
    BadParameters(&'static str),
}

/// The text shown for an error.
pub open spec fn error_text(error: Error) -> Seq<char> {
    match error {
        Error::InvalidCertificate => "invalid device certificate"@,
        Error::InvalidSignature => "invalid signature on message"@,
        Error::NotForThisDevice => "message is for another device"@,
        Error::AlreadyCredited => "message was already credited"@,
        Error::UnknownRequest => "no open request for this message"@,
        Error::SelfPayment => "a device cannot pay itself"@,
        Error::ZeroAmount => "amount is zero"@,
        Error::HoldingLimitExceeded { requested, headroom } => "holding limit exceeded: need "@
            + crate::text::decimal_text(requested as nat) + ", room for "@
            + crate::text::decimal_text(headroom as nat),
        Error::Replay => "message was already acted on"@,
        Error::UnregisteredAccount(id) => "unknown account "@ + crate::text::hex_text(id@.take(4)),
        Error::UnknownDevice(id) => "unknown device "@ + crate::text::hex_text(id@.take(4)),
        Error::AmountOverflow => "amount too large"@,
        Error::EntropyExhausted => "no usable randomness"@,
        Error::InvalidTokenSignature => "invalid bank signature on token"@,
        Error::ChallengeMismatch => "payer answered the wrong challenge"@,
        Error::DegenerateChallenge => "challenge x = 0 is not allowed"@,
        Error::AmountMismatch { expected, found } => "amount mismatch: expected "@
            + crate::text::decimal_text(expected as nat) + " cents, token is "@
            + crate::text::decimal_text(found as nat),
        Error::Expired { expiry, now } => "token expired at "@ + crate::text::decimal_text(
            expiry as nat,
        ) + " (now "@ + crate::text::decimal_text(now as nat) + ")"@,
        Error::TokenAlreadySpent => "secure element refused: token already spent"@,
        Error::UnknownToken => "unknown token"@,
        Error::CommitmentMismatch { index } => "candidate "@ + crate::text::decimal_text(
            index as nat,
        ) + ": commitment does not match opened values"@,
        Error::IdentityNotEmbedded { index } => "candidate "@ + crate::text::decimal_text(
            index as nat,
        ) + ": slopes do not encode the account identity"@,
        Error::BlindingMismatch { index } => "candidate "@ + crate::text::decimal_text(
            index as nat,
        ) + ": blinded message inconsistent with opening"@,
        Error::BadOpening => "opening does not match the requested indices"@,
        Error::MalformedIdentity { limb, value, budget } => "recovered limb "@
            + crate::text::decimal_text(limb as nat) + " = "@ + crate::text::decimal_text(
            value as nat,
        ) + " exceeds its "@ + crate::text::decimal_text(budget as nat) + "-bit budget"@,
        Error::UnknownAccount(id) => "unknown account "@ + crate::text::hex_text(id@.take(6)),
        Error::InsufficientFunds { requested, available } => "insufficient funds: need "@
            + crate::text::decimal_text(requested as nat) + ", have "@ + crate::text::decimal_text(
            available as nat,
        ),
        Error::BadParameters(message) => "bad parameters: "@ + message@,
    }
}

/// The name of an error.
pub open spec fn error_name(error: Error) -> Seq<char> {
    match error {
        Error::InvalidCertificate => "InvalidCertificate"@,
        Error::InvalidSignature => "InvalidSignature"@,
        Error::NotForThisDevice => "NotForThisDevice"@,
        Error::AlreadyCredited => "AlreadyCredited"@,
        Error::UnknownRequest => "UnknownRequest"@,
        Error::SelfPayment => "SelfPayment"@,
        Error::ZeroAmount => "ZeroAmount"@,
        Error::HoldingLimitExceeded { .. } => "HoldingLimitExceeded"@,
        Error::Replay => "Replay"@,
        Error::UnregisteredAccount(_) => "UnregisteredAccount"@,
        Error::UnknownDevice(_) => "UnknownDevice"@,
        Error::AmountOverflow => "AmountOverflow"@,
        Error::EntropyExhausted => "EntropyExhausted"@,
        Error::InvalidTokenSignature => "InvalidTokenSignature"@,
        Error::ChallengeMismatch => "ChallengeMismatch"@,
        Error::DegenerateChallenge => "DegenerateChallenge"@,
        Error::AmountMismatch { .. } => "AmountMismatch"@,
        Error::Expired { .. } => "Expired"@,
        Error::TokenAlreadySpent => "TokenAlreadySpent"@,
        Error::UnknownToken => "UnknownToken"@,
        Error::CommitmentMismatch { .. } => "CommitmentMismatch"@,
        Error::IdentityNotEmbedded { .. } => "IdentityNotEmbedded"@,
        Error::BlindingMismatch { .. } => "BlindingMismatch"@,
        Error::BadOpening => "BadOpening"@,
        Error::MalformedIdentity { .. } => "MalformedIdentity"@,
        Error::UnknownAccount(_) => "UnknownAccount"@,
        Error::InsufficientFunds { .. } => "InsufficientFunds"@,
        Error::BadParameters(_) => "BadParameters"@,
    }
}

/// An error with its name and its fields, for debugging.
pub open spec fn error_debug(error: Error) -> Seq<char> {
    match error {
        Error::HoldingLimitExceeded { requested, headroom } => "HoldingLimitExceeded { requested: "@
            + crate::text::decimal_text(requested as nat) + ", headroom: "@
            + crate::text::decimal_text(headroom as nat) + " }"@,
        Error::UnregisteredAccount(id) => "UnregisteredAccount("@ + ("AccountId("@
            + crate::text::hex_text(id@.take(4)) + "\u{2026})"@) + ")"@,
        Error::UnknownDevice(id) => "UnknownDevice("@ + ("DeviceId("@ + crate::text::hex_text(
            id@.take(4),
        ) + "\u{2026})"@) + ")"@,
        Error::AmountMismatch { expected, found } => "AmountMismatch { expected: "@
            + crate::text::decimal_text(expected as nat) + ", found: "@
            + crate::text::decimal_text(found as nat) + " }"@,
        Error::Expired { expiry, now } => "Expired { expiry: "@
            + crate::text::decimal_text(expiry as nat) + ", now: "@
            + crate::text::decimal_text(now as nat) + " }"@,
        Error::CommitmentMismatch { index } => "CommitmentMismatch { index: "@
            + crate::text::decimal_text(index as nat) + " }"@,
        Error::IdentityNotEmbedded { index } => "IdentityNotEmbedded { index: "@
            + crate::text::decimal_text(index as nat) + " }"@,
        Error::BlindingMismatch { index } => "BlindingMismatch { index: "@
            + crate::text::decimal_text(index as nat) + " }"@,
        Error::MalformedIdentity { limb, value, budget } => "MalformedIdentity { limb: "@
            + crate::text::decimal_text(limb as nat) + ", value: "@ + crate::text::decimal_text(
            value as nat,
        ) + ", budget: "@ + crate::text::decimal_text(budget as nat) + " }"@,
        Error::UnknownAccount(id) => "UnknownAccount("@ + ("WalletId("@ + crate::text::hex_text(
            id@.take(6),
        ) + "\u{2026})"@) + ")"@,
        Error::InsufficientFunds { requested, available } => "InsufficientFunds { requested: "@
            + crate::text::decimal_text(requested as nat) + ", available: "@
            + crate::text::decimal_text(available as nat) + " }"@,
        Error::BadParameters(message) => "BadParameters(\""@ + message@ + "\")"@,
        _ => error_name(error),
    }
}

/// A text with a number in the middle of it.
fn around(before: &str, n: u64, after: &str) -> (r: String)
    ensures
        r@ == before@ + crate::text::decimal_text(n as nat) + after@,
{
    let mut r: String = String::from_str(before);
    crate::text::push_decimal(&mut r, n as u128);
    r.append(after);
    r
}

/// A text with two numbers in it.
fn around_two(before: &str, n: u64, between: &str, m: u64) -> (r: String)
    ensures
        r@ == before@ + crate::text::decimal_text(n as nat) + between@ + crate::text::decimal_text(
            m as nat,
        ),
{
    let mut r: String = around(before, n, between);
    crate::text::push_decimal(&mut r, m as u128);
    r
}

fn joined(before: &str, after: &str) -> (r: String)
    ensures
        r@ == before@ + after@,
{
    let mut r: String = String::from_str(before);
    r.append(after);
    r
}

impl Error {
    /// The error in words.
    pub fn message(&self) -> (r: String)
        ensures
            r@ == error_text(*self),
    {
        match self {
            Error::InvalidCertificate => String::from_str("invalid device certificate"),
            Error::InvalidSignature => String::from_str("invalid signature on message"),
            Error::NotForThisDevice => String::from_str("message is for another device"),
            Error::AlreadyCredited => String::from_str("message was already credited"),
            Error::UnknownRequest => String::from_str("no open request for this message"),
            Error::SelfPayment => String::from_str("a device cannot pay itself"),
            Error::ZeroAmount => String::from_str("amount is zero"),
            Error::HoldingLimitExceeded { requested, headroom } => around_two(
                "holding limit exceeded: need ",
                *requested,
                ", room for ",
                *headroom,
            ),
            Error::Replay => String::from_str("message was already acted on"),
            Error::UnregisteredAccount(id) => joined("unknown account ", id.short().as_str()),
            Error::UnknownDevice(id) => joined("unknown device ", id.short().as_str()),
            Error::AmountOverflow => String::from_str("amount too large"),
            Error::EntropyExhausted => String::from_str("no usable randomness"),
            Error::InvalidTokenSignature => String::from_str("invalid bank signature on token"),
            Error::ChallengeMismatch => String::from_str("payer answered the wrong challenge"),
            Error::DegenerateChallenge => String::from_str("challenge x = 0 is not allowed"),
            Error::AmountMismatch { expected, found } => around_two(
                "amount mismatch: expected ",
                *expected,
                " cents, token is ",
                *found,
            ),
            Error::Expired { expiry, now } => {
                let mut r: String = around_two("token expired at ", *expiry, " (now ", *now);
                r.append(")");
                r
            },
            Error::TokenAlreadySpent => String::from_str(
                "secure element refused: token already spent",
            ),
            Error::UnknownToken => String::from_str("unknown token"),
            Error::CommitmentMismatch { index } => around(
                "candidate ",
                *index as u64,
                ": commitment does not match opened values",
            ),
            Error::IdentityNotEmbedded { index } => around(
                "candidate ",
                *index as u64,
                ": slopes do not encode the account identity",
            ),
            Error::BlindingMismatch { index } => around(
                "candidate ",
                *index as u64,
                ": blinded message inconsistent with opening",
            ),
            Error::BadOpening => String::from_str("opening does not match the requested indices"),
            Error::MalformedIdentity { limb, value, budget } => {
                let mut r: String = around_two("recovered limb ", *limb as u64, " = ", *value);
                r.append(" exceeds its ");
                crate::text::push_decimal(&mut r, *budget as u128);
                r.append("-bit budget");
                r
            },
            Error::UnknownAccount(id) => joined("unknown account ", id.short().as_str()),
            Error::InsufficientFunds { requested, available } => around_two(
                "insufficient funds: need ",
                *requested,
                ", have ",
                *available,
            ),
            Error::BadParameters(message) => joined("bad parameters: ", message),
        }
    }

    /// The name of the error.
    pub fn name(&self) -> (r: &'static str)
        ensures
            r@ == error_name(*self),
    {
        match self {
            Error::InvalidCertificate => "InvalidCertificate",
            Error::InvalidSignature => "InvalidSignature",
            Error::NotForThisDevice => "NotForThisDevice",
            Error::AlreadyCredited => "AlreadyCredited",
            Error::UnknownRequest => "UnknownRequest",
            Error::SelfPayment => "SelfPayment",
            Error::ZeroAmount => "ZeroAmount",
            Error::HoldingLimitExceeded { .. } => "HoldingLimitExceeded",
            Error::Replay => "Replay",
            Error::UnregisteredAccount(_) => "UnregisteredAccount",
            Error::UnknownDevice(_) => "UnknownDevice",
            Error::AmountOverflow => "AmountOverflow",
            Error::EntropyExhausted => "EntropyExhausted",
            Error::InvalidTokenSignature => "InvalidTokenSignature",
            Error::ChallengeMismatch => "ChallengeMismatch",
            Error::DegenerateChallenge => "DegenerateChallenge",
            Error::AmountMismatch { .. } => "AmountMismatch",
            Error::Expired { .. } => "Expired",
            Error::TokenAlreadySpent => "TokenAlreadySpent",
            Error::UnknownToken => "UnknownToken",
            Error::CommitmentMismatch { .. } => "CommitmentMismatch",
            Error::IdentityNotEmbedded { .. } => "IdentityNotEmbedded",
            Error::BlindingMismatch { .. } => "BlindingMismatch",
            Error::BadOpening => "BadOpening",
            Error::MalformedIdentity { .. } => "MalformedIdentity",
            Error::UnknownAccount(_) => "UnknownAccount",
            Error::InsufficientFunds { .. } => "InsufficientFunds",
            Error::BadParameters(_) => "BadParameters",
        }
    }

    /// The error with its name and its fields, for debugging.
    pub fn debug(&self) -> (r: String)
        ensures
            r@ == error_debug(*self),
    {
        match self {
            Error::HoldingLimitExceeded { requested, headroom } => {
                let mut r: String = around_two(
                    "HoldingLimitExceeded { requested: ",
                    *requested,
                    ", headroom: ",
                    *headroom,
                );
                r.append(" }");
                r
            },
            Error::UnregisteredAccount(id) => {
                let mut r: String = joined("UnregisteredAccount(", id.label().as_str());
                r.append(")");
                r
            },
            Error::UnknownDevice(id) => {
                let mut r: String = joined("UnknownDevice(", id.label().as_str());
                r.append(")");
                r
            },
            Error::AmountMismatch { expected, found } => {
                let mut r: String = around_two(
                    "AmountMismatch { expected: ",
                    *expected,
                    ", found: ",
                    *found,
                );
                r.append(" }");
                r
            },
            Error::Expired { expiry, now } => {
                let mut r: String = around_two("Expired { expiry: ", *expiry, ", now: ", *now);
                r.append(" }");
                r
            },
            Error::CommitmentMismatch { index } => around(
                "CommitmentMismatch { index: ",
                *index as u64,
                " }",
            ),
            Error::IdentityNotEmbedded { index } => around(
                "IdentityNotEmbedded { index: ",
                *index as u64,
                " }",
            ),
            Error::BlindingMismatch { index } => around(
                "BlindingMismatch { index: ",
                *index as u64,
                " }",
            ),
            Error::MalformedIdentity { limb, value, budget } => {
                let mut r: String = around_two(
                    "MalformedIdentity { limb: ",
                    *limb as u64,
                    ", value: ",
                    *value,
                );
                r.append(", budget: ");
                crate::text::push_decimal(&mut r, *budget as u128);
                r.append(" }");
                r
            },
            Error::UnknownAccount(id) => {
                let mut r: String = joined("UnknownAccount(", id.label().as_str());
                r.append(")");
                r
            },
            Error::InsufficientFunds { requested, available } => {
                let mut r: String = around_two(
                    "InsufficientFunds { requested: ",
                    *requested,
                    ", available: ",
                    *available,
                );
                r.append(" }");
                r
            },
            Error::BadParameters(message) => {
                let mut r: String = joined("BadParameters(\"", message);
                r.append("\")");
                r
            },
            _ => String::from_str(self.name()),
        }
    }
}

// ---------------------------------------------------------------------------
// What an error says
// ---------------------------------------------------------------------------

/// A message about numbers spells them, in their order, and one about an account or a device
/// spells the leading bytes of its identifier.
pub proof fn lemma_message_spells_its_numbers(error: Error) -> (r: Seq<Seq<char>>)
    ensures
        match error {
            Error::HoldingLimitExceeded { requested, headroom } => {
                &&& error_text(error) == "holding limit exceeded: need "@ + r[0] + ", room for "@
                    + r[1]
                &&& spells(r[0], requested as nat)
                &&& spells(r[1], headroom as nat)
            },
            Error::UnregisteredAccount(id) => {
                &&& error_text(error) == "unknown account "@ + r[0]
                &&& spells_bytes(r[0], id@.take(4))
            },
            Error::UnknownDevice(id) => {
                &&& error_text(error) == "unknown device "@ + r[0]
                &&& spells_bytes(r[0], id@.take(4))
            },
            Error::AmountMismatch { expected, found } => {
                &&& error_text(error) == "amount mismatch: expected "@ + r[0]
                    + " cents, token is "@ + r[1]
                &&& spells(r[0], expected as nat)
                &&& spells(r[1], found as nat)
            },
            Error::Expired { expiry, now } => {
                &&& error_text(error) == "token expired at "@ + r[0] + " (now "@ + r[1] + ")"@
                &&& spells(r[0], expiry as nat)
                &&& spells(r[1], now as nat)
            },
            Error::CommitmentMismatch { index } => {
                &&& error_text(error) == "candidate "@ + r[0]
                    + ": commitment does not match opened values"@
                &&& spells(r[0], index as nat)
            },
            Error::IdentityNotEmbedded { index } => {
                &&& error_text(error) == "candidate "@ + r[0]
                    + ": slopes do not encode the account identity"@
                &&& spells(r[0], index as nat)
            },
            Error::BlindingMismatch { index } => {
                &&& error_text(error) == "candidate "@ + r[0]
                    + ": blinded message inconsistent with opening"@
                &&& spells(r[0], index as nat)
            },
            Error::MalformedIdentity { limb, value, budget } => {
                &&& error_text(error) == "recovered limb "@ + r[0] + " = "@ + r[1]
                    + " exceeds its "@ + r[2] + "-bit budget"@
                &&& spells(r[0], limb as nat)
                &&& spells(r[1], value as nat)
                &&& spells(r[2], budget as nat)
            },
            Error::UnknownAccount(id) => {
                &&& error_text(error) == "unknown account "@ + r[0]
                &&& spells_bytes(r[0], id@.take(6))
            },
            Error::InsufficientFunds { requested, available } => {
                &&& error_text(error) == "insufficient funds: need "@ + r[0] + ", have "@ + r[1]
                &&& spells(r[0], requested as nat)
                &&& spells(r[1], available as nat)
            },
            Error::BadParameters(message) => error_text(error) == "bad parameters: "@ + message@,
            _ => true,
        },
{
    match error {
        Error::HoldingLimitExceeded { requested, headroom } => lemma_spelled(requested, headroom),
        Error::UnregisteredAccount(id) => lemma_spelled_bytes(id@.take(4)),
        Error::UnknownDevice(id) => lemma_spelled_bytes(id@.take(4)),
        Error::AmountMismatch { expected, found } => lemma_spelled(expected, found),
        Error::Expired { expiry, now } => lemma_spelled(expiry, now),
        Error::CommitmentMismatch { index } => lemma_spelled(index as u64, 0),
        Error::IdentityNotEmbedded { index } => lemma_spelled(index as u64, 0),
        Error::BlindingMismatch { index } => lemma_spelled(index as u64, 0),
        Error::MalformedIdentity { limb, value, budget } => {
            let rest = lemma_spelled(value, budget as u64);
            let first = lemma_spelled(limb as u64, 0);
            seq![first[0], rest[0], rest[1]]
        },
        Error::UnknownAccount(id) => lemma_spelled_bytes(id@.take(6)),
        Error::InsufficientFunds { requested, available } => lemma_spelled(requested, available),
        _ => Seq::empty(),
    }
}

/// What is shown for debugging names the error and spells its fields, each after its name.
pub proof fn lemma_debug_text_spells_its_fields(error: Error) -> (r: Seq<Seq<char>>)
    ensures
        match error {
            Error::HoldingLimitExceeded { requested, headroom } => {
                &&& error_debug(error) == "HoldingLimitExceeded { requested: "@ + r[0]
                    + ", headroom: "@ + r[1] + " }"@
                &&& spells(r[0], requested as nat)
                &&& spells(r[1], headroom as nat)
            },
            Error::AmountMismatch { expected, found } => {
                &&& error_debug(error) == "AmountMismatch { expected: "@ + r[0] + ", found: "@
                    + r[1] + " }"@
                &&& spells(r[0], expected as nat)
                &&& spells(r[1], found as nat)
            },
            Error::Expired { expiry, now } => {
                &&& error_debug(error) == "Expired { expiry: "@ + r[0] + ", now: "@ + r[1] + " }"@
                &&& spells(r[0], expiry as nat)
                &&& spells(r[1], now as nat)
            },
            Error::CommitmentMismatch { index } => {
                &&& error_debug(error) == "CommitmentMismatch { index: "@ + r[0] + " }"@
                &&& spells(r[0], index as nat)
            },
            Error::IdentityNotEmbedded { index } => {
                &&& error_debug(error) == "IdentityNotEmbedded { index: "@ + r[0] + " }"@
                &&& spells(r[0], index as nat)
            },
            Error::BlindingMismatch { index } => {
                &&& error_debug(error) == "BlindingMismatch { index: "@ + r[0] + " }"@
                &&& spells(r[0], index as nat)
            },
            Error::MalformedIdentity { limb, value, budget } => {
                &&& error_debug(error) == "MalformedIdentity { limb: "@ + r[0] + ", value: "@
                    + r[1] + ", budget: "@ + r[2] + " }"@
                &&& spells(r[0], limb as nat)
                &&& spells(r[1], value as nat)
                &&& spells(r[2], budget as nat)
            },
            Error::InsufficientFunds { requested, available } => {
                &&& error_debug(error) == "InsufficientFunds { requested: "@ + r[0]
                    + ", available: "@ + r[1] + " }"@
                &&& spells(r[0], requested as nat)
                &&& spells(r[1], available as nat)
            },
            Error::UnregisteredAccount(id) => {
                &&& error_debug(error) == "UnregisteredAccount("@ + ("AccountId("@ + r[0]
                    + "\u{2026})"@) + ")"@
                &&& spells_bytes(r[0], id@.take(4))
            },
            Error::UnknownDevice(id) => {
                &&& error_debug(error) == "UnknownDevice("@ + ("DeviceId("@ + r[0]
                    + "\u{2026})"@) + ")"@
                &&& spells_bytes(r[0], id@.take(4))
            },
            Error::UnknownAccount(id) => {
                &&& error_debug(error) == "UnknownAccount("@ + ("WalletId("@ + r[0]
                    + "\u{2026})"@) + ")"@
                &&& spells_bytes(r[0], id@.take(6))
            },
            Error::BadParameters(message) => error_debug(error) == "BadParameters(\""@ + message@
                + "\")"@,
            _ => error_debug(error) == error_name(error),
        },
{
    match error {
        Error::HoldingLimitExceeded { requested, headroom } => lemma_spelled(requested, headroom),
        Error::UnregisteredAccount(id) => lemma_spelled_bytes(id@.take(4)),
        Error::UnknownDevice(id) => lemma_spelled_bytes(id@.take(4)),
        Error::AmountMismatch { expected, found } => lemma_spelled(expected, found),
        Error::Expired { expiry, now } => lemma_spelled(expiry, now),
        Error::CommitmentMismatch { index } => lemma_spelled(index as u64, 0),
        Error::IdentityNotEmbedded { index } => lemma_spelled(index as u64, 0),
        Error::BlindingMismatch { index } => lemma_spelled(index as u64, 0),
        Error::MalformedIdentity { limb, value, budget } => {
            let rest = lemma_spelled(value, budget as u64);
            let first = lemma_spelled(limb as u64, 0);
            seq![first[0], rest[0], rest[1]]
        },
        Error::UnknownAccount(id) => lemma_spelled_bytes(id@.take(6)),
        Error::InsufficientFunds { requested, available } => lemma_spelled(requested, available),
        _ => Seq::empty(),
    }
}

proof fn lemma_spelled(first: u64, second: u64) -> (r: Seq<Seq<char>>)
    ensures
        r.len() == 2,
        r[0] == crate::text::decimal_text(first as nat),
        r[1] == crate::text::decimal_text(second as nat),
        spells(r[0], first as nat),
        spells(r[1], second as nat),
{
    crate::text::lemma_texts_spell(first as nat, Seq::empty());
    crate::text::lemma_texts_spell(second as nat, Seq::empty());
    seq![crate::text::decimal_text(first as nat), crate::text::decimal_text(second as nat)]
}

proof fn lemma_spelled_bytes(bytes: Seq<u8>) -> (r: Seq<Seq<char>>)
    ensures
        r.len() == 1,
        r[0] == crate::text::hex_text(bytes),
        spells_bytes(r[0], bytes),
{
    crate::text::lemma_texts_spell(0, bytes);
    seq![crate::text::hex_text(bytes)]
}

} // verus!
