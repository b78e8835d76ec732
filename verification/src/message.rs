//! Messages exchanged between devices (offline) and between a device and the
//! issuer (online, for funding and defunding).
//!
//! The ECB has not published a wire protocol for offline payments; these
//! messages are this model's own. What they are built to respect is what the
//! ECB has said: value moves between certified devices, settles locally, and
//! is re-spendable at once.
//!
//! ```text
//!   offline payment                      funding / defunding (online)
//!   ---------------                      ----------------------------
//!   payee --PaymentRequest--> payer      device --FundingRequest--> issuer
//!   payee <----Transfer------ payer      device <-----Funding------ issuer
//!                                        device ------Defunding---> issuer
//! ```

use crate::certificate::{CertificateView, DeviceCertificate};
use crate::id::DeviceId;
use crate::natural::Natural;
use vstd::prelude::*;

verus! {

/// A payment request as plain values.
pub struct PaymentRequestView {
    pub payee: CertificateView,
    pub amount_cents: u64,
    pub nonce: [u8; 16],
}

/// Payee to payer. Issued only once the payee's element has reserved room for
/// the amount under its holding limit, so the credit cannot fail later.
#[derive(Debug, PartialEq, Eq)]
pub struct PaymentRequest {
    pub payee: DeviceCertificate,
    pub amount_cents: u64,
    /// Fresh per request. The payee credits each nonce at most once, which is
    /// what makes a replayed transfer worthless.
    pub nonce: [u8; 16],
}

impl View for PaymentRequest {
    type V = PaymentRequestView;

    open spec fn view(&self) -> PaymentRequestView {
        PaymentRequestView {
            payee: self.payee@,
            amount_cents: self.amount_cents,
            nonce: self.nonce,
        }
    }
}

impl Clone for PaymentRequest {
    fn clone(&self) -> (r: Self)
        ensures
            r@ == self@,
    {
        PaymentRequest {
            payee: self.payee.clone(),
            amount_cents: self.amount_cents,
            nonce: self.nonce,
        }
    }
}

/// A transfer as plain values.
pub struct TransferView {
    pub payer: CertificateView,
    pub payee: DeviceId,
    pub amount_cents: u64,
    pub nonce: [u8; 16],
    pub counter: u64,
    pub signature: nat,
}

/// Payer to payee. The payer's element has already debited itself when it
/// produces this; the payee's element credits on receipt. Settlement is final
/// at that point, and nothing is reported to anyone.
#[derive(Debug, PartialEq, Eq)]
pub struct Transfer {
    pub payer: DeviceCertificate,
    pub payee: DeviceId,
    pub amount_cents: u64,
    pub nonce: [u8; 16],
    /// The payer element's monotonic counter at the time of the debit.
    pub counter: u64,
    /// Signed by the payer's device key.
    pub signature: Natural,
}

impl View for Transfer {
    type V = TransferView;

    open spec fn view(&self) -> TransferView {
        TransferView {
            payer: self.payer@,
            payee: self.payee,
            amount_cents: self.amount_cents,
            nonce: self.nonce,
            counter: self.counter,
            signature: self.signature@,
        }
    }
}

impl Clone for Transfer {
    fn clone(&self) -> (r: Self)
        ensures
            r@ == self@,
    {
        Transfer {
            payer: self.payer.clone(),
            payee: self.payee,
            amount_cents: self.amount_cents,
            nonce: self.nonce,
            counter: self.counter,
            signature: self.signature.clone(),
        }
    }
}

/// The fields that are signed in a transfer.
pub open spec fn transfer_parts(
    payer: DeviceId,
    payee: DeviceId,
    amount_cents: u64,
    nonce: Seq<u8>,
    counter: u64,
) -> Seq<Seq<u8>> {
    seq![
        payer@,
        payee@,
        crate::bytes::be_bytes(amount_cents as nat, 8),
        nonce,
        crate::bytes::be_bytes(counter as nat, 8),
    ]
}

/// What is signed in a transfer.
pub open spec fn transfer_digest(
    payer: DeviceId,
    payee: DeviceId,
    amount_cents: u64,
    nonce: Seq<u8>,
    counter: u64,
) -> Seq<u8> {
    crate::hash::tagged_digest(
        "euro/transfer"@,
        transfer_parts(payer, payee, amount_cents, nonce, counter),
    )
}

/// A transfer with its fields, for debugging.
pub open spec fn transfer_debug(transfer: TransferView) -> Seq<char> {
    "Transfer { payer: "@ + crate::certificate::certificate_debug(transfer.payer) + ", payee: "@
        + crate::id::device_label(transfer.payee) + ", amount_cents: "@
        + crate::text::decimal_text(transfer.amount_cents as nat) + ", nonce: ["@
        + crate::text::list_text(transfer.nonce@) + "], counter: "@ + crate::text::decimal_text(
        transfer.counter as nat,
    ) + ", signature: "@ + crate::text::decimal_text(transfer.signature) + " }"@
}

impl Transfer {
    /// The transfer with its fields, for debugging.
    pub fn debug(&self) -> (r: String)
        ensures
            r@ == transfer_debug(self@),
    {
        let mut r: String = String::from_str("Transfer { payer: ");
        r.append(self.payer.debug().as_str());
        r.append(", payee: ");
        r.append(self.payee.label().as_str());
        r.append(", amount_cents: ");
        crate::text::push_decimal(&mut r, self.amount_cents as u128);
        r.append(", nonce: [");
        crate::text::push_list(&mut r, self.nonce.as_slice());
        r.append("], counter: ");
        crate::text::push_decimal(&mut r, self.counter as u128);
        r.append(", signature: ");
        r.append(crate::natural::to_decimal(&self.signature).as_str());
        r.append(" }");
        r
    }

    pub fn digest(&self) -> (r: [u8; 32])
        ensures
            r@ == transfer_digest(
                self.payer.device,
                self.payee,
                self.amount_cents,
                self.nonce@,
                self.counter,
            ),
    {
        let amount_cents_bytes: [u8; 8] = crate::bytes::u64_to_be_bytes(self.amount_cents);
        let counter_bytes: [u8; 8] = crate::bytes::u64_to_be_bytes(self.counter);
        let mut parts: Vec<&[u8]> = Vec::new();
        parts.push(self.payer.device.0.as_slice());
        parts.push(self.payee.0.as_slice());
        parts.push(amount_cents_bytes.as_slice());
        parts.push(self.nonce.as_slice());
        parts.push(counter_bytes.as_slice());
        proof {
            assert(
                crate::hash::part_bytes(parts@) =~= transfer_parts(
                    self.payer.device,
                    self.payee,
                    self.amount_cents,
                    self.nonce@,
                    self.counter,
                )
            );
        }
        crate::hash::tagged("euro/transfer", parts.as_slice())
    }
}

/// A funding request as plain values.
pub struct FundingRequestView {
    pub device: DeviceId,
    pub amount_cents: u64,
    pub nonce: [u8; 16],
    pub signature: nat,
}

/// Device to issuer: "move this much from my account onto me". Issued only once
/// the element has reserved room for it under the holding limit.
#[derive(Debug, PartialEq, Eq)]
pub struct FundingRequest {
    pub device: DeviceId,
    pub amount_cents: u64,
    pub nonce: [u8; 16],
    /// Signed by the device key, so the issuer knows the request came from
    /// the element that holds the reservation.
    pub signature: Natural,
}

impl View for FundingRequest {
    type V = FundingRequestView;

    open spec fn view(&self) -> FundingRequestView {
        FundingRequestView {
            device: self.device,
            amount_cents: self.amount_cents,
            nonce: self.nonce,
            signature: self.signature@,
        }
    }
}

impl Clone for FundingRequest {
    fn clone(&self) -> (r: Self)
        ensures
            r@ == self@,
    {
        FundingRequest {
            device: self.device,
            amount_cents: self.amount_cents,
            nonce: self.nonce,
            signature: self.signature.clone(),
        }
    }
}

/// The fields that are signed in a funding request.
pub open spec fn funding_request_parts(
    device: DeviceId,
    amount_cents: u64,
    nonce: Seq<u8>,
) -> Seq<Seq<u8>> {
    seq![
        device@,
        crate::bytes::be_bytes(amount_cents as nat, 8),
        nonce,
    ]
}

/// What is signed in a funding request.
pub open spec fn funding_request_digest(
    device: DeviceId,
    amount_cents: u64,
    nonce: Seq<u8>,
) -> Seq<u8> {
    crate::hash::tagged_digest(
        "euro/funding-request"@,
        funding_request_parts(device, amount_cents, nonce),
    )
}

impl FundingRequest {
    pub fn digest(&self) -> (r: [u8; 32])
        ensures
            r@ == funding_request_digest(self.device, self.amount_cents, self.nonce@),
    {
        let amount_cents_bytes: [u8; 8] = crate::bytes::u64_to_be_bytes(self.amount_cents);
        let mut parts: Vec<&[u8]> = Vec::new();
        parts.push(self.device.0.as_slice());
        parts.push(amount_cents_bytes.as_slice());
        parts.push(self.nonce.as_slice());
        proof {
            assert(
                crate::hash::part_bytes(parts@) =~= funding_request_parts(
                    self.device,
                    self.amount_cents,
                    self.nonce@,
                )
            );
        }
        crate::hash::tagged("euro/funding-request", parts.as_slice())
    }
}

/// A funding message as plain values.
pub struct FundingView {
    pub device: DeviceId,
    pub amount_cents: u64,
    pub nonce: [u8; 16],
    pub signature: nat,
}

/// Issuer to device: the account has been debited; credit the element.
#[derive(Debug, PartialEq, Eq)]
pub struct Funding {
    pub device: DeviceId,
    pub amount_cents: u64,
    pub nonce: [u8; 16],
    /// Signed by the issuer.
    pub signature: Natural,
}

impl View for Funding {
    type V = FundingView;

    open spec fn view(&self) -> FundingView {
        FundingView {
            device: self.device,
            amount_cents: self.amount_cents,
            nonce: self.nonce,
            signature: self.signature@,
        }
    }
}

impl Clone for Funding {
    fn clone(&self) -> (r: Self)
        ensures
            r@ == self@,
    {
        Funding {
            device: self.device,
            amount_cents: self.amount_cents,
            nonce: self.nonce,
            signature: self.signature.clone(),
        }
    }
}

/// The fields that are signed in a funding message.
pub open spec fn funding_parts(
    device: DeviceId,
    amount_cents: u64,
    nonce: Seq<u8>,
) -> Seq<Seq<u8>> {
    seq![
        device@,
        crate::bytes::be_bytes(amount_cents as nat, 8),
        nonce,
    ]
}

/// What is signed in a funding message.
pub open spec fn funding_digest(
    device: DeviceId,
    amount_cents: u64,
    nonce: Seq<u8>,
) -> Seq<u8> {
    crate::hash::tagged_digest("euro/funding"@, funding_parts(device, amount_cents, nonce))
}

impl Funding {
    pub fn digest(&self) -> (r: [u8; 32])
        ensures
            r@ == funding_digest(self.device, self.amount_cents, self.nonce@),
    {
        let amount_cents_bytes: [u8; 8] = crate::bytes::u64_to_be_bytes(self.amount_cents);
        let mut parts: Vec<&[u8]> = Vec::new();
        parts.push(self.device.0.as_slice());
        parts.push(amount_cents_bytes.as_slice());
        parts.push(self.nonce.as_slice());
        proof {
            assert(
                crate::hash::part_bytes(parts@) =~= funding_parts(
                    self.device,
                    self.amount_cents,
                    self.nonce@,
                )
            );
        }
        crate::hash::tagged("euro/funding", parts.as_slice())
    }
}

/// A defunding order as plain values.
pub struct DefundingView {
    pub device: DeviceId,
    pub amount_cents: u64,
    pub counter: u64,
    pub signature: nat,
}

/// Device to issuer: the element has debited itself; credit the account.
#[derive(Debug, PartialEq, Eq)]
pub struct Defunding {
    pub device: DeviceId,
    pub amount_cents: u64,
    /// Must exceed every counter the issuer has seen from this device, so a
    /// defunding message cannot be cashed twice.
    pub counter: u64,
    /// Signed by the device key.
    pub signature: Natural,
}

impl View for Defunding {
    type V = DefundingView;

    open spec fn view(&self) -> DefundingView {
        DefundingView {
            device: self.device,
            amount_cents: self.amount_cents,
            counter: self.counter,
            signature: self.signature@,
        }
    }
}

impl Clone for Defunding {
    fn clone(&self) -> (r: Self)
        ensures
            r@ == self@,
    {
        Defunding {
            device: self.device,
            amount_cents: self.amount_cents,
            counter: self.counter,
            signature: self.signature.clone(),
        }
    }
}

/// The fields that are signed in a defunding order.
pub open spec fn defunding_parts(
    device: DeviceId,
    amount_cents: u64,
    counter: u64,
) -> Seq<Seq<u8>> {
    seq![
        device@,
        crate::bytes::be_bytes(amount_cents as nat, 8),
        crate::bytes::be_bytes(counter as nat, 8),
    ]
}

/// What is signed in a defunding order.
pub open spec fn defunding_digest(
    device: DeviceId,
    amount_cents: u64,
    counter: u64,
) -> Seq<u8> {
    crate::hash::tagged_digest("euro/defunding"@, defunding_parts(device, amount_cents, counter))
}

impl Defunding {
    pub fn digest(&self) -> (r: [u8; 32])
        ensures
            r@ == defunding_digest(self.device, self.amount_cents, self.counter),
    {
        let amount_cents_bytes: [u8; 8] = crate::bytes::u64_to_be_bytes(self.amount_cents);
        let counter_bytes: [u8; 8] = crate::bytes::u64_to_be_bytes(self.counter);
        let mut parts: Vec<&[u8]> = Vec::new();
        parts.push(self.device.0.as_slice());
        parts.push(amount_cents_bytes.as_slice());
        parts.push(counter_bytes.as_slice());
        proof {
            assert(
                crate::hash::part_bytes(parts@) =~= defunding_parts(
                    self.device,
                    self.amount_cents,
                    self.counter,
                )
            );
        }
        crate::hash::tagged("euro/defunding", parts.as_slice())
    }
}

// ---------------------------------------------------------------------------
// A digest covers every signed field
// ---------------------------------------------------------------------------

/// The encoding of a 64-bit number at fixed width is unambiguous.
pub proof fn lemma_u64_bytes_injective(a: u64, b: u64)
    ensures
        crate::bytes::be_bytes(a as nat, 8).len() == 8,
        crate::bytes::be_bytes(a as nat, 8) == crate::bytes::be_bytes(b as nat, 8) ==> a == b,
{
    assert(vstd::arithmetic::power::pow(256, 8) == 0x1_0000_0000_0000_0000) by {
        reveal_with_fuel(vstd::arithmetic::power::pow, 9);
    }
    crate::bytes::lemma_be_value_of_bytes(a as nat, 8);
    crate::bytes::lemma_be_value_of_bytes(b as nat, 8);
}

/// The message that is hashed for a transfer determines every field that is
/// signed.
pub proof fn lemma_transfer_covers_its_fields(
    payer: DeviceId,
    payee: DeviceId,
    amount_cents: u64,
    nonce: [u8; 16],
    counter: u64,
    other_payer: DeviceId,
    other_payee: DeviceId,
    other_amount_cents: u64,
    other_nonce: [u8; 16],
    other_counter: u64,
)
    requires
        crate::hash::frame(
            crate::hash::tags()[2],
            transfer_parts(payer, payee, amount_cents, nonce@, counter),
        ) == crate::hash::frame(
            crate::hash::tags()[2],
            transfer_parts(
                other_payer,
                other_payee,
                other_amount_cents,
                other_nonce@,
                other_counter,
            ),
        ),
    ensures
        payer == other_payer,
        payee == other_payee,
        amount_cents == other_amount_cents,
        nonce == other_nonce,
        counter == other_counter,
{
    let a = transfer_parts(payer, payee, amount_cents, nonce@, counter);
    let b = transfer_parts(
        other_payer,
        other_payee,
        other_amount_cents,
        other_nonce@,
        other_counter,
    );
    crate::hash::lemma_tag_fits(2);
    lemma_u64_bytes_injective(amount_cents, other_amount_cents);
    lemma_u64_bytes_injective(other_amount_cents, amount_cents);
    lemma_u64_bytes_injective(counter, other_counter);
    lemma_u64_bytes_injective(other_counter, counter);
    crate::hash::lemma_framing_is_unambiguous(crate::hash::tags()[2], a, crate::hash::tags()[2], b);
    assert(a[0] == b[0]);
    assert(a[1] == b[1]);
    assert(a[2] == b[2]);
    assert(a[3] == b[3]);
    assert(a[4] == b[4]);
    assert(payer.0 =~= other_payer.0);
    assert(payee.0 =~= other_payee.0);
    assert(nonce =~= other_nonce);
}

/// The message that is hashed for a funding request determines every field that is
/// signed.
pub proof fn lemma_funding_request_covers_its_fields(
    device: DeviceId,
    amount_cents: u64,
    nonce: [u8; 16],
    other_device: DeviceId,
    other_amount_cents: u64,
    other_nonce: [u8; 16],
)
    requires
        crate::hash::frame(
            crate::hash::tags()[3],
            funding_request_parts(device, amount_cents, nonce@),
        ) == crate::hash::frame(
            crate::hash::tags()[3],
            funding_request_parts(other_device, other_amount_cents, other_nonce@),
        ),
    ensures
        device == other_device,
        amount_cents == other_amount_cents,
        nonce == other_nonce,
{
    let a = funding_request_parts(device, amount_cents, nonce@);
    let b = funding_request_parts(other_device, other_amount_cents, other_nonce@);
    crate::hash::lemma_tag_fits(3);
    lemma_u64_bytes_injective(amount_cents, other_amount_cents);
    lemma_u64_bytes_injective(other_amount_cents, amount_cents);
    crate::hash::lemma_framing_is_unambiguous(crate::hash::tags()[3], a, crate::hash::tags()[3], b);
    assert(a[0] == b[0]);
    assert(a[1] == b[1]);
    assert(a[2] == b[2]);
    assert(device.0 =~= other_device.0);
    assert(nonce =~= other_nonce);
}

/// The message that is hashed for a funding message determines every field that is
/// signed.
pub proof fn lemma_funding_covers_its_fields(
    device: DeviceId,
    amount_cents: u64,
    nonce: [u8; 16],
    other_device: DeviceId,
    other_amount_cents: u64,
    other_nonce: [u8; 16],
)
    requires
        crate::hash::frame(
            crate::hash::tags()[4],
            funding_parts(device, amount_cents, nonce@),
        ) == crate::hash::frame(
            crate::hash::tags()[4],
            funding_parts(other_device, other_amount_cents, other_nonce@),
        ),
    ensures
        device == other_device,
        amount_cents == other_amount_cents,
        nonce == other_nonce,
{
    let a = funding_parts(device, amount_cents, nonce@);
    let b = funding_parts(other_device, other_amount_cents, other_nonce@);
    crate::hash::lemma_tag_fits(4);
    lemma_u64_bytes_injective(amount_cents, other_amount_cents);
    lemma_u64_bytes_injective(other_amount_cents, amount_cents);
    crate::hash::lemma_framing_is_unambiguous(crate::hash::tags()[4], a, crate::hash::tags()[4], b);
    assert(a[0] == b[0]);
    assert(a[1] == b[1]);
    assert(a[2] == b[2]);
    assert(device.0 =~= other_device.0);
    assert(nonce =~= other_nonce);
}

/// The message that is hashed for a defunding order determines every field that is
/// signed.
pub proof fn lemma_defunding_covers_its_fields(
    device: DeviceId,
    amount_cents: u64,
    counter: u64,
    other_device: DeviceId,
    other_amount_cents: u64,
    other_counter: u64,
)
    requires
        crate::hash::frame(
            crate::hash::tags()[5],
            defunding_parts(device, amount_cents, counter),
        ) == crate::hash::frame(
            crate::hash::tags()[5],
            defunding_parts(other_device, other_amount_cents, other_counter),
        ),
    ensures
        device == other_device,
        amount_cents == other_amount_cents,
        counter == other_counter,
{
    let a = defunding_parts(device, amount_cents, counter);
    let b = defunding_parts(other_device, other_amount_cents, other_counter);
    crate::hash::lemma_tag_fits(5);
    lemma_u64_bytes_injective(amount_cents, other_amount_cents);
    lemma_u64_bytes_injective(other_amount_cents, amount_cents);
    lemma_u64_bytes_injective(counter, other_counter);
    lemma_u64_bytes_injective(other_counter, counter);
    crate::hash::lemma_framing_is_unambiguous(crate::hash::tags()[5], a, crate::hash::tags()[5], b);
    assert(a[0] == b[0]);
    assert(a[1] == b[1]);
    assert(a[2] == b[2]);
    assert(device.0 =~= other_device.0);
}

/// Two transfers that differ in the payer, the payee, the amount, the nonce or the counter
/// have different digests, unless SHA-256 collides.
pub proof fn lemma_transfer_digest_covers_its_fields(
    payer: DeviceId,
    payee: DeviceId,
    amount_cents: u64,
    nonce: [u8; 16],
    counter: u64,
    other_payer: DeviceId,
    other_payee: DeviceId,
    other_amount_cents: u64,
    other_nonce: [u8; 16],
    other_counter: u64,
) -> (r: (Seq<u8>, Seq<u8>))
    requires
        payer != other_payer || payee != other_payee || amount_cents != other_amount_cents || nonce
            != other_nonce || counter != other_counter,
        transfer_digest(payer, payee, amount_cents, nonce@, counter) == transfer_digest(
            other_payer,
            other_payee,
            other_amount_cents,
            other_nonce@,
            other_counter,
        ),
    ensures
        r.0 != r.1,
        crate::hash::sha256(r.0) == crate::hash::sha256(r.1),
{
    let a = transfer_parts(payer, payee, amount_cents, nonce@, counter);
    let b = transfer_parts(
        other_payer,
        other_payee,
        other_amount_cents,
        other_nonce@,
        other_counter,
    );
    let tag = crate::hash::tags()[2];
    crate::hash::lemma_tag_fits(2);
    lemma_u64_bytes_injective(amount_cents, other_amount_cents);
    lemma_u64_bytes_injective(other_amount_cents, amount_cents);
    lemma_u64_bytes_injective(counter, other_counter);
    lemma_u64_bytes_injective(other_counter, counter);
    if a == b {
        assert(a[0] == b[0]);
        assert(a[1] == b[1]);
        assert(a[2] == b[2]);
        assert(a[3] == b[3]);
        assert(a[4] == b[4]);
        assert(payer.0 =~= other_payer.0);
        assert(payee.0 =~= other_payee.0);
        assert(nonce =~= other_nonce);
    }
    crate::hash::lemma_digest_covers_the_message(tag, a, tag, b)
}

/// Two funding requests that differ in the device, the amount or the nonce have different
/// digests, unless SHA-256 collides.
pub proof fn lemma_funding_request_digest_covers_its_fields(
    device: DeviceId,
    amount_cents: u64,
    nonce: [u8; 16],
    other_device: DeviceId,
    other_amount_cents: u64,
    other_nonce: [u8; 16],
) -> (r: (Seq<u8>, Seq<u8>))
    requires
        device != other_device || amount_cents != other_amount_cents || nonce != other_nonce,
        funding_request_digest(device, amount_cents, nonce@) == funding_request_digest(
            other_device,
            other_amount_cents,
            other_nonce@,
        ),
    ensures
        r.0 != r.1,
        crate::hash::sha256(r.0) == crate::hash::sha256(r.1),
{
    let a = funding_request_parts(device, amount_cents, nonce@);
    let b = funding_request_parts(other_device, other_amount_cents, other_nonce@);
    let tag = crate::hash::tags()[3];
    crate::hash::lemma_tag_fits(3);
    lemma_u64_bytes_injective(amount_cents, other_amount_cents);
    lemma_u64_bytes_injective(other_amount_cents, amount_cents);
    if a == b {
        assert(a[0] == b[0]);
        assert(a[1] == b[1]);
        assert(a[2] == b[2]);
        assert(device.0 =~= other_device.0);
        assert(nonce =~= other_nonce);
    }
    crate::hash::lemma_digest_covers_the_message(tag, a, tag, b)
}

/// Two funding messages that differ in the device, the amount or the nonce have different
/// digests, unless SHA-256 collides.
pub proof fn lemma_funding_digest_covers_its_fields(
    device: DeviceId,
    amount_cents: u64,
    nonce: [u8; 16],
    other_device: DeviceId,
    other_amount_cents: u64,
    other_nonce: [u8; 16],
) -> (r: (Seq<u8>, Seq<u8>))
    requires
        device != other_device || amount_cents != other_amount_cents || nonce != other_nonce,
        funding_digest(device, amount_cents, nonce@) == funding_digest(
            other_device,
            other_amount_cents,
            other_nonce@,
        ),
    ensures
        r.0 != r.1,
        crate::hash::sha256(r.0) == crate::hash::sha256(r.1),
{
    let a = funding_parts(device, amount_cents, nonce@);
    let b = funding_parts(other_device, other_amount_cents, other_nonce@);
    let tag = crate::hash::tags()[4];
    crate::hash::lemma_tag_fits(4);
    lemma_u64_bytes_injective(amount_cents, other_amount_cents);
    lemma_u64_bytes_injective(other_amount_cents, amount_cents);
    if a == b {
        assert(a[0] == b[0]);
        assert(a[1] == b[1]);
        assert(a[2] == b[2]);
        assert(device.0 =~= other_device.0);
        assert(nonce =~= other_nonce);
    }
    crate::hash::lemma_digest_covers_the_message(tag, a, tag, b)
}

/// Two defunding orders that differ in the device, the amount or the counter have different
/// digests, unless SHA-256 collides.
pub proof fn lemma_defunding_digest_covers_its_fields(
    device: DeviceId,
    amount_cents: u64,
    counter: u64,
    other_device: DeviceId,
    other_amount_cents: u64,
    other_counter: u64,
) -> (r: (Seq<u8>, Seq<u8>))
    requires
        device != other_device || amount_cents != other_amount_cents || counter != other_counter,
        defunding_digest(device, amount_cents, counter) == defunding_digest(
            other_device,
            other_amount_cents,
            other_counter,
        ),
    ensures
        r.0 != r.1,
        crate::hash::sha256(r.0) == crate::hash::sha256(r.1),
{
    let a = defunding_parts(device, amount_cents, counter);
    let b = defunding_parts(other_device, other_amount_cents, other_counter);
    let tag = crate::hash::tags()[5];
    crate::hash::lemma_tag_fits(5);
    lemma_u64_bytes_injective(amount_cents, other_amount_cents);
    lemma_u64_bytes_injective(other_amount_cents, amount_cents);
    lemma_u64_bytes_injective(counter, other_counter);
    lemma_u64_bytes_injective(other_counter, counter);
    if a == b {
        assert(a[0] == b[0]);
        assert(a[1] == b[1]);
        assert(a[2] == b[2]);
        assert(device.0 =~= other_device.0);
    }
    crate::hash::lemma_digest_covers_the_message(tag, a, tag, b)
}

/// What is hashed for each kind of message: its tag, and its fields in order, numbers in
/// eight bytes.
pub proof fn lemma_message_layouts(
    payer: DeviceId,
    payee: DeviceId,
    amount_cents: u64,
    nonce: Seq<u8>,
    counter: u64,
)
    ensures
        ({
            let amount = crate::bytes::be_bytes(amount_cents as nat, 8);
            let count = crate::bytes::be_bytes(counter as nat, 8);
            &&& transfer_digest(payer, payee, amount_cents, nonce, counter) == crate::hash::sha256(
                crate::hash::frame(
                    "euro/transfer"@,
                    seq![payer.0@, payee.0@, amount, nonce, count],
                ),
            )
            &&& funding_request_digest(payer, amount_cents, nonce) == crate::hash::sha256(
                crate::hash::frame("euro/funding-request"@, seq![payer.0@, amount, nonce]),
            )
            &&& funding_digest(payer, amount_cents, nonce) == crate::hash::sha256(
                crate::hash::frame("euro/funding"@, seq![payer.0@, amount, nonce]),
            )
            &&& defunding_digest(payer, amount_cents, counter) == crate::hash::sha256(
                crate::hash::frame("euro/defunding"@, seq![payer.0@, amount, count]),
            )
        }),
{
}

/// What is shown of a transfer names both parties, lists its nonce, and spells its amount, its
/// counter and its signature.
pub proof fn lemma_shown_transfer_spells_its_numbers(transfer: TransferView) -> (r: Seq<Seq<char>>)
    ensures
        transfer_debug(transfer) == "Transfer { payer: "@ + crate::certificate::certificate_debug(
            transfer.payer,
        ) + ", payee: "@ + crate::id::device_label(transfer.payee) + ", amount_cents: "@ + r[0]
            + ", nonce: ["@ + crate::text::list_text(transfer.nonce@) + "], counter: "@ + r[1]
            + ", signature: "@ + r[2] + " }"@,
        crate::text::spells(r[0], transfer.amount_cents as nat),
        crate::text::spells(r[1], transfer.counter as nat),
        crate::text::spells(r[2], transfer.signature),
{
    crate::text::lemma_texts_spell(transfer.amount_cents as nat, Seq::empty());
    crate::text::lemma_texts_spell(transfer.counter as nat, Seq::empty());
    crate::text::lemma_texts_spell(transfer.signature, Seq::empty());
    seq![
        crate::text::decimal_text(transfer.amount_cents as nat),
        crate::text::decimal_text(transfer.counter as nat),
        crate::text::decimal_text(transfer.signature),
    ]
}

} // verus!
