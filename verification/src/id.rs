//! Identifiers for online accounts and certified devices.

use vstd::prelude::*;

verus! {

/// An online digital euro account, held with an intermediary. Funding and
/// defunding move value between this account and a device.
#[derive(Clone, Copy, PartialEq, Eq, Hash, PartialOrd, Ord, Debug)]
pub struct AccountId(pub [u8; 16]);

/// A certified secure element.
///
/// This is all a counterparty learns about the other side of an offline
/// payment: a pseudonym for the device, not the account or the person behind
/// it. Only the issuer, which certified the device, can map it to an account.
#[derive(Clone, Copy, PartialEq, Eq, Hash, PartialOrd, Ord, Debug)]
pub struct DeviceId(pub [u8; 16]);

impl View for AccountId {
    type V = Seq<u8>;

    open spec fn view(&self) -> Seq<u8> {
        self.0@
    }
}

impl View for DeviceId {
    type V = Seq<u8>;

    open spec fn view(&self) -> Seq<u8> {
        self.0@
    }
}

impl AccountId {
    /// Short form for logs.
    pub fn short(&self) -> (r: String)
        ensures
            r@ == crate::text::hex_text(self@.take(4)),
    {
        let r: String = crate::text::hex(&self.0.as_slice()[0..4]);
        proof {
            assert(self.0@.subrange(0, 4) =~= self.0@.take(4));
        }
        r
    }

    /// All bytes in hexadecimal.
    pub fn to_hex(&self) -> (r: String)
        ensures
            r@ == crate::text::hex_text(self@),
    {
        crate::text::hex(self.0.as_slice())
    }

    /// Kind and short form, for debugging.
    pub fn label(&self) -> (r: String)
        ensures
            r@ == "AccountId("@ + crate::text::hex_text(self@.take(4)) + "\u{2026})"@,
    {
        let mut r: String = String::from_str("AccountId(");
        r.append(self.short().as_str());
        r.append("\u{2026})");
        r
    }

    /// Whether two identifiers are the same.
    pub fn equals(&self, other: &AccountId) -> (r: bool)
        ensures
            r == (*self == *other),
            r == (self@ == other@),
    {
        let r: bool = crate::bytes::bytes_equal(self.0.as_slice(), other.0.as_slice());
        proof {
            if r {
                assert(self.0 =~= other.0);
            }
        }
        r
    }
}

/// A device in short form, for debugging.
pub open spec fn device_label(device: DeviceId) -> Seq<char> {
    "DeviceId("@ + crate::text::hex_text(device@.take(4)) + "\u{2026})"@
}

impl DeviceId {
    /// Short form for logs.
    pub fn short(&self) -> (r: String)
        ensures
            r@ == crate::text::hex_text(self@.take(4)),
    {
        let r: String = crate::text::hex(&self.0.as_slice()[0..4]);
        proof {
            assert(self.0@.subrange(0, 4) =~= self.0@.take(4));
        }
        r
    }

    /// All bytes in hexadecimal.
    pub fn to_hex(&self) -> (r: String)
        ensures
            r@ == crate::text::hex_text(self@),
    {
        crate::text::hex(self.0.as_slice())
    }

    /// Kind and short form, for debugging.
    pub fn label(&self) -> (r: String)
        ensures
            r@ == device_label(*self),
    {
        let mut r: String = String::from_str("DeviceId(");
        r.append(self.short().as_str());
        r.append("\u{2026})");
        r
    }

    /// Whether two identifiers are the same.
    pub fn equals(&self, other: &DeviceId) -> (r: bool)
        ensures
            r == (*self == *other),
            r == (self@ == other@),
    {
        let r: bool = crate::bytes::bytes_equal(self.0.as_slice(), other.0.as_slice());
        proof {
            if r {
                assert(self.0 =~= other.0);
            }
        }
        r
    }
}

/// What is shown of a device spells the first four bytes of its identifier.
pub proof fn lemma_label_spells_the_device(device: DeviceId) -> (r: Seq<char>)
    ensures
        device_label(device) == "DeviceId("@ + r + "\u{2026})"@,
        crate::text::spells_bytes(r, device@.take(4)),
{
    crate::text::lemma_texts_spell(0, device@.take(4));
    crate::text::hex_text(device@.take(4))
}

} // verus!
