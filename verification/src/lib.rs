//! A model of the offline digital euro.
//!
//! Value is held as a balance on a secure element, paid directly from one
//! certified device to another, settled locally, and immediately re-spendable
//! offline:
//!
//! ```text
//!   online                            offline, device to device
//!   ------                            -------------------------
//!   account --funding---> device A    device B --PaymentRequest--> device A
//!   account <-defunding-- device A    device B <------Transfer---- device A
//! ```
//!
//! Every operation states what it does in its contract: which inputs it refuses
//! and with which error, and how it changes each party's books. What holds
//! across operations is stated by proof functions: that value is conserved, that
//! a message is acted on once, that a refused operation changes nothing, that a
//! paid transfer is credited.
//!
//! [`ecash`] holds the other way to pay offline, with tokens: anonymous like
//! cash, but spending one twice discloses the payer's device identity.

pub mod arith;
pub mod bytes;
pub mod certificate;
pub mod ecash;
pub mod error;
pub mod harness;
pub mod hash;
pub mod id;
pub mod issuer;
pub mod mersenne;
pub mod message;
pub mod natural;
pub mod protocol;
pub mod random;
pub mod scenarios;
pub mod script;
pub mod signature;
pub mod text;
pub mod totals;
pub mod wallet;

pub use certificate::DeviceCertificate;
pub use ecash::field::Fp;
pub use ecash::identity::WalletId;
pub use ecash::issuer::{FraudReport, Settlement};
pub use ecash::merchant::Merchant;
pub use ecash::token::{
    recover_identity, Receipt, SecretLines, SpendProof, Token, TokenPayload,
};
pub use ecash::wallet::TokenWallet;
pub use ecash::withdraw::withdraw;
pub use ecash::withdrawal::WithdrawalRequest;
pub use error::Error;
pub use id::{AccountId, DeviceId};
pub use issuer::Issuer;
pub use message::{Defunding, Funding, FundingRequest, PaymentRequest, Transfer};
pub use natural::Natural;
pub use protocol::{defund, enrol, fund, pay};
pub use signature::{Keypair, PublicKey};
pub use text::euros;
pub use wallet::{ElementState, Wallet};
