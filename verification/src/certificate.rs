//! Device certificates: the Eurosystem's statement that a public key belongs
//! to a genuine secure element, and what that element may hold.
//!
//! Offline payments only move between certified devices. A payer's element
//! checks the payee's certificate before debiting, and a payee's element
//! checks the payer's before crediting, so value never enters or leaves the
//! offline circuit through a device the issuer has not vouched for.

use crate::id::DeviceId;
use crate::natural::Natural;
use crate::signature::{PublicKey, PublicKeyView};
use vstd::prelude::*;

verus! {

/// A certificate as plain values.
pub struct CertificateView {
    pub device: DeviceId,
    pub public_key: PublicKeyView,
    pub holding_limit_cents: u64,
    pub signature: nat,
}

#[derive(Debug, PartialEq, Eq)]
pub struct DeviceCertificate {
    pub device: DeviceId,
    pub public_key: PublicKey,
    /// Most value the device may hold offline. A parameter of the model,
    /// set per device by the issuer; not a figure published by the ECB.
    pub holding_limit_cents: u64,
    /// The issuer's signature over the fields above.
    pub signature: Natural,
}

impl View for DeviceCertificate {
    type V = CertificateView;

    open spec fn view(&self) -> CertificateView {
        CertificateView {
            device: self.device,
            public_key: self.public_key@,
            holding_limit_cents: self.holding_limit_cents,
            signature: self.signature@,
        }
    }
}

impl Clone for DeviceCertificate {
    fn clone(&self) -> (r: Self)
        ensures
            r@ == self@,
    {
        DeviceCertificate {
            device: self.device,
            public_key: self.public_key.clone(),
            holding_limit_cents: self.holding_limit_cents,
            signature: self.signature.clone(),
        }
    }
}

/// The fields that the issuer signs.
pub open spec fn certificate_parts(
    device: DeviceId,
    key: PublicKeyView,
    holding_limit_cents: u64,
) -> Seq<Seq<u8>> {
    seq![
        device@,
        crate::bytes::be_minimal(key.n),
        crate::bytes::be_minimal(key.e),
        crate::bytes::be_bytes(holding_limit_cents as nat, 8),
    ]
}

/// What the issuer signs.
pub open spec fn certificate_digest(
    device: DeviceId,
    key: PublicKeyView,
    holding_limit_cents: u64,
) -> Seq<u8> {
    crate::hash::tagged_digest(
        "euro/device-certificate"@,
        certificate_parts(device, key, holding_limit_cents),
    )
}

/// Whether a certificate is signed by this issuer.
pub open spec fn certificate_valid(certificate: CertificateView, issuer: PublicKeyView) -> bool {
    crate::signature::signature_valid(
        issuer,
        certificate_digest(
            certificate.device,
            certificate.public_key,
            certificate.holding_limit_cents,
        ),
        certificate.signature,
    )
}

/// A certificate with its fields, for debugging.
pub open spec fn certificate_debug(certificate: CertificateView) -> Seq<char> {
    "DeviceCertificate { device: "@ + crate::id::device_label(certificate.device)
        + ", public_key: "@ + crate::signature::key_debug(certificate.public_key)
        + ", holding_limit_cents: "@ + crate::text::decimal_text(
        certificate.holding_limit_cents as nat,
    ) + ", signature: "@ + crate::text::decimal_text(certificate.signature) + " }"@
}

impl DeviceCertificate {
    /// The certificate with its fields, for debugging.
    pub fn debug(&self) -> (r: String)
        ensures
            r@ == certificate_debug(self@),
    {
        let mut r: String = String::from_str("DeviceCertificate { device: ");
        r.append(self.device.label().as_str());
        r.append(", public_key: ");
        r.append(self.public_key.debug().as_str());
        r.append(", holding_limit_cents: ");
        crate::text::push_decimal(&mut r, self.holding_limit_cents as u128);
        r.append(", signature: ");
        r.append(crate::natural::to_decimal(&self.signature).as_str());
        r.append(" }");
        r
    }

    /// What the issuer signs. The owning account is deliberately left out:
    /// the certificate travels with every payment, and the counterparty has
    /// no business learning whose device it is.
    pub fn digest(&self) -> (r: [u8; 32])
        ensures
            r@ == certificate_digest(self.device, self.public_key@, self.holding_limit_cents),
    {
        let n: Vec<u8> = self.public_key.n.to_bytes_be();
        let e: Vec<u8> = self.public_key.e.to_bytes_be();
        let limit: [u8; 8] = crate::bytes::u64_to_be_bytes(self.holding_limit_cents);
        let mut parts: Vec<&[u8]> = Vec::new();
        parts.push(self.device.0.as_slice());
        parts.push(n.as_slice());
        parts.push(e.as_slice());
        parts.push(limit.as_slice());
        proof {
            assert(crate::hash::part_bytes(parts@) =~= certificate_parts(
                self.device,
                self.public_key@,
                self.holding_limit_cents,
            ));
        }
        crate::hash::tagged("euro/device-certificate", parts.as_slice())
    }

    pub fn verify(&self, issuer: &PublicKey) -> (r: bool)
        ensures
            r == certificate_valid(self@, issuer@),
    {
        issuer.verify(&self.digest(), &self.signature)
    }
}

/// The message that is hashed for a certificate determines the device, its key
/// and its holding limit.
pub proof fn lemma_certificate_covers_its_fields(
    device: DeviceId,
    key: PublicKeyView,
    limit: u64,
    other_device: DeviceId,
    other_key: PublicKeyView,
    other_limit: u64,
)
    requires
        crate::hash::frameable(crate::hash::tags()[1], certificate_parts(device, key, limit)),
        crate::hash::frameable(
            crate::hash::tags()[1],
            certificate_parts(other_device, other_key, other_limit),
        ),
        crate::hash::frame(crate::hash::tags()[1], certificate_parts(device, key, limit))
            == crate::hash::frame(
            crate::hash::tags()[1],
            certificate_parts(other_device, other_key, other_limit),
        ),
    ensures
        device == other_device,
        key == other_key,
        limit == other_limit,
{
    let a = certificate_parts(device, key, limit);
    let b = certificate_parts(other_device, other_key, other_limit);
    crate::hash::lemma_framing_is_unambiguous(crate::hash::tags()[1], a, crate::hash::tags()[1], b);
    assert(a[0] == b[0]);
    assert(a[1] == b[1]);
    assert(a[2] == b[2]);
    assert(a[3] == b[3]);
    assert(device.0 =~= other_device.0);
    crate::bytes::lemma_be_minimal_value(key.n);
    crate::bytes::lemma_be_minimal_value(other_key.n);
    crate::bytes::lemma_be_minimal_value(key.e);
    crate::bytes::lemma_be_minimal_value(other_key.e);
    crate::message::lemma_u64_bytes_injective(limit, other_limit);
}

/// Two certificates that differ in the device, its key or its holding limit have different
/// digests, unless SHA-256 collides.
pub proof fn lemma_certificate_digest_covers_its_fields(
    device: DeviceId,
    key: PublicKeyView,
    limit: u64,
    other_device: DeviceId,
    other_key: PublicKeyView,
    other_limit: u64,
) -> (r: (Seq<u8>, Seq<u8>))
    requires
        crate::hash::frameable(crate::hash::tags()[1], certificate_parts(device, key, limit)),
        crate::hash::frameable(
            crate::hash::tags()[1],
            certificate_parts(other_device, other_key, other_limit),
        ),
        device != other_device || key != other_key || limit != other_limit,
        certificate_digest(device, key, limit) == certificate_digest(
            other_device,
            other_key,
            other_limit,
        ),
    ensures
        r.0 != r.1,
        crate::hash::sha256(r.0) == crate::hash::sha256(r.1),
{
    let a = certificate_parts(device, key, limit);
    let b = certificate_parts(other_device, other_key, other_limit);
    let tag = crate::hash::tags()[1];
    if a == b {
        lemma_certificate_covers_its_fields(
            device,
            key,
            limit,
            other_device,
            other_key,
            other_limit,
        );
    }
    crate::hash::lemma_digest_covers_the_message(tag, a, tag, b)
}

/// A certificate is valid exactly if its signature is one by the issuer on the digest of
/// its device, key and holding limit, which are hashed in that order.
pub proof fn lemma_certificate_is_signed_by_the_issuer(
    certificate: CertificateView,
    issuer: PublicKeyView,
)
    ensures
        certificate_valid(certificate, issuer) <==> crate::signature::signature_valid(
            issuer,
            crate::hash::sha256(
                crate::hash::frame(
                    "euro/device-certificate"@,
                    seq![
                        certificate.device.0@,
                        crate::bytes::be_minimal(certificate.public_key.n),
                        crate::bytes::be_minimal(certificate.public_key.e),
                        crate::bytes::be_bytes(certificate.holding_limit_cents as nat, 8),
                    ],
                ),
            ),
            certificate.signature,
        ),
{
}

/// What is shown of a certificate names its device and its key, and spells its limit and its
/// signature.
pub proof fn lemma_shown_certificate_spells_its_numbers(certificate: CertificateView) -> (r: (
    Seq<char>,
    Seq<char>,
))
    ensures
        certificate_debug(certificate) == "DeviceCertificate { device: "@
            + crate::id::device_label(certificate.device) + ", public_key: "@
            + crate::signature::key_debug(certificate.public_key) + ", holding_limit_cents: "@ + r.0
            + ", signature: "@ + r.1 + " }"@,
        crate::text::spells(r.0, certificate.holding_limit_cents as nat),
        crate::text::spells(r.1, certificate.signature),
{
    let limit = certificate.holding_limit_cents as nat;
    crate::text::lemma_texts_spell(limit, Seq::empty());
    crate::text::lemma_texts_spell(certificate.signature, Seq::empty());
    (crate::text::decimal_text(limit), crate::text::decimal_text(certificate.signature))
}

} // verus!
