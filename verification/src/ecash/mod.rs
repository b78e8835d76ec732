//! Offline tokens: payments that are anonymous like cash, but where spending the
//! same token twice mathematically discloses the payer's device identity.
//!
//! ```text
//!   online funding        offline payment            settlement
//!   --------------        ---------------            ----------
//!   wallet --n candidates--> issuer
//!   wallet <---- cut ------- issuer     merchant --x--> wallet
//!   wallet --n-1 openings--> issuer     merchant <(x,y)- wallet
//!   wallet <-blind signature- issuer    merchant --receipt--> issuer
//! ```
//!
//! 1. **Funding.** The wallet builds `n` candidate tokens. Each embeds the
//!    wallet identity `I`, split into 52-bit limbs, as the *slopes* of lines
//!    `f_j(x) = I_j * x + s_j (mod p)`, with fresh random intercepts `s_j`. The
//!    issuer opens `n - 1` of them, checks that the real identity is embedded,
//!    and blindly signs the one left ([`issuer::Issuer::issue`]).
//!
//! 2. **Payment.** The merchant derives a challenge `x` from the transaction
//!    data ([`token::derive_challenge`]) and the wallet answers with one point
//!    `y_j = f_j(x)` per line. One point per line is perfect secrecy: every
//!    slope remains equally possible.
//!
//! 3. **Settlement.** If the same serial arrives twice with different
//!    challenges, the backend holds two points per line and solves for the
//!    slopes, reassembling `I` ([`token::recover_identity`]).

pub mod accounts;
pub mod blind_sig;
pub mod digits;
pub mod field;
pub mod identity;
pub mod issuer;
pub mod merchant;
pub mod token;
pub mod wallet;
pub mod withdraw;
pub mod withdrawal;
