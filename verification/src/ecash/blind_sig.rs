//! Blind RSA signatures: the issuer signs a message that it cannot read.
//!
//! The wallet multiplies the hash of its message by `r^e` for a random factor
//! `r`, the issuer raises the product to its private exponent, and the wallet
//! divides the result by `r`. What is left is an ordinary signature.

use crate::error::Error;
use crate::natural::Natural;
use crate::signature::{Keypair, PublicKey, PublicKeyView};
use rand::rngs::StdRng;
use vstd::prelude::*;
use vstd::arithmetic::div_mod::*;
use vstd::arithmetic::mul::*;
use vstd::arithmetic::power::*;

verus! {

/// The key that tokens are verified with.
#[derive(Debug, PartialEq, Eq)]
pub struct IssuerPublicKey {
    key: PublicKey,
}

impl View for IssuerPublicKey {
    type V = PublicKeyView;

    closed spec fn view(&self) -> PublicKeyView {
        self.key@
    }
}

impl Clone for IssuerPublicKey {
    fn clone(&self) -> (r: Self)
        ensures
            r@ == self@,
    {
        proof {
            use_type_invariant(self);
        }
        IssuerPublicKey { key: self.key.clone() }
    }
}

/// A digest hidden behind a factor.
pub open spec fn blinded_value(key: PublicKeyView, digest: Seq<u8>, factor: nat) -> nat {
    ((crate::signature::fdh(key.n, digest) * pow(factor as int, key.e)) % (key.n as int)) as nat
}

/// What the issuer makes of a blinded message.
pub open spec fn blind_signature_value(n: nat, d: nat, blinded: nat) -> nat {
    (pow(blinded as int, d) % (n as int)) as nat
}

/// Whether a signature is what is left of a blind signature when the factor is
/// taken out.
pub open spec fn unblinds_to(
    key: PublicKeyView,
    factor: nat,
    blinded_signature: nat,
    signature: nat,
) -> bool {
    exists|inverse: nat|
        (factor * inverse) % key.n == 1nat % key.n && signature == #[trigger] (blinded_signature
            * inverse) % key.n
}

impl IssuerPublicKey {
    #[verifier::type_invariant]
    spec fn usable(self) -> bool {
        self.key@.n > 0
    }

    pub fn new(key: PublicKey) -> (r: Self)
        requires
            key@.n > 0,
        ensures
            r@ == key@,
    {
        IssuerPublicKey { key }
    }

    pub fn verify(&self, digest: &[u8; 32], signature: &Natural) -> (r: bool)
        ensures
            r == crate::signature::signature_valid(self@, digest@, signature@),
    {
        self.key.verify(digest, signature)
    }

    /// Hides a digest behind a factor.
    pub fn blind(&self, digest: &[u8; 32], factor: &Natural) -> (r: Natural)
        ensures
            r@ == blinded_value(self@, digest@, factor@),
    {
        proof {
            use_type_invariant(self);
        }
        let hashed: Natural = self.key.full_domain_hash(digest);
        let mask: Natural = crate::natural::modpow(factor, &self.key.e, &self.key.n);
        proof {
            lemma_mul_mod_noop_right(
                hashed@ as int,
                pow(factor@ as int, self.key.e@),
                self.key.n@ as int,
            );
        }
        crate::natural::mod_floor(&crate::natural::multiply(&hashed, &mask), &self.key.n)
    }

    /// Takes the factor out of a blind signature. A factor that shares a divisor
    /// with the modulus cannot be taken out.
    pub fn unblind(&self, blinded_signature: &Natural, factor: &Natural) -> (r: Option<Natural>)
        ensures
            r is Some <==> crate::arith::gcd(factor@, self@.n) == 1,
            r matches Some(signature) ==> signature@ < self@.n && unblinds_to(
                self@,
                factor@,
                blinded_signature@,
                signature@,
            ),
    {
        proof {
            use_type_invariant(self);
        }
        match crate::signature::mod_inverse(factor, &self.key.n) {
            Some(inverse) => {
                let product: Natural = crate::natural::multiply(blinded_signature, &inverse);
                proof {
                    lemma_mod_bound(product@ as int, self.key.n@ as int);
                    assert(product@ == blinded_signature@ * inverse@);
                }
                Some(crate::natural::mod_floor(&product, &self.key.n))
            },
            None => None,
        }
    }

    /// Draws a factor that can be taken out again. It fails only if none of very
    /// many draws gives one.
    pub fn draw_factor(&self, rng: &mut StdRng) -> (r: Result<Natural, Error>)
        ensures
            r matches Ok(factor) ==> 2 <= factor@ < self@.n && crate::arith::gcd(factor@, self@.n)
                == 1,
            r matches Err(error) ==> error == Error::EntropyExhausted,
    {
        let two: Natural = Natural::from_u32(2);
        if !two.less_than(&self.key.n) {
            return Err(Error::EntropyExhausted);
        }
        let mut attempt: u64 = 0;
        while attempt < u64::MAX
            invariant
                two@ == 2,
                2 < self.key.n@,
            decreases u64::MAX - attempt,
        {
            let factor: Natural = crate::natural::draw_natural_between(rng, &two, &self.key.n);
            if crate::natural::gcd(&factor, &self.key.n).is_one() {
                return Ok(factor);
            }
            attempt = attempt + 1;
        }
        Err(Error::EntropyExhausted)
    }
}

/// The key that tokens are signed with.
#[derive(Debug)]
pub struct IssuerKeypair {
    keypair: Keypair,
}

impl IssuerKeypair {
    #[verifier::type_invariant]
    spec fn usable(self) -> bool {
        self.keypair.verification_key().n > 0
    }

    /// The numbers of the public half.
    pub closed spec fn verification_key(&self) -> PublicKeyView {
        self.keypair.verification_key()
    }

    /// The private exponent.
    pub closed spec fn private_exponent(&self) -> nat {
        self.keypair.private_exponent()
    }

    pub fn new(keypair: Keypair) -> (r: Self)
        requires
            keypair.verification_key().n > 0,
        ensures
            r.verification_key() == keypair.verification_key(),
            r.private_exponent() == keypair.private_exponent(),
    {
        IssuerKeypair { keypair }
    }

    /// The public half.
    pub fn public(&self) -> (r: IssuerPublicKey)
        ensures
            r@ == self.verification_key(),
    {
        proof {
            use_type_invariant(self);
        }
        IssuerPublicKey::new(self.keypair.public_key().clone())
    }

    /// Signs a value that the issuer cannot read.
    pub fn sign_blinded(&self, blinded: &Natural) -> (r: Natural)
        ensures
            r@ == blind_signature_value(
                self.verification_key().n,
                self.private_exponent(),
                blinded@,
            ),
    {
        proof {
            use_type_invariant(self);
        }
        self.keypair.raise(blinded)
    }
}

// ---------------------------------------------------------------------------
// Blinding does not spoil the signature, and hides the message
// ---------------------------------------------------------------------------

/// It does not matter by which inverse a factor is taken out.
pub proof fn lemma_unblinding_is_unique(
    key: PublicKeyView,
    factor: nat,
    blinded_signature: nat,
    signature: nat,
)
    requires
        key.n > 0,
        unblinds_to(key, factor, blinded_signature, signature),
    ensures
        forall|inverse: nat|
            (factor * inverse) % key.n == 1nat % key.n ==> signature == #[trigger] (
            blinded_signature * inverse) % key.n,
{
    let n = key.n as int;
    let r = factor as int;
    let b = blinded_signature as int;
    let i = choose|inverse: nat|
        (factor * inverse) % key.n == 1nat % key.n && signature == #[trigger] (blinded_signature
            * inverse) % key.n;
    assert forall|j: nat| (factor * j) % key.n == 1nat % key.n implies signature == #[trigger] (
    blinded_signature * j) % key.n by {
        let x = i as int;
        let y = j as int;
        // x = x * (r * y) = (x * r) * y = y, modulo n.
        crate::arith::lemma_congruent_mul(x, x, r * y, 1, n);
        crate::arith::lemma_congruent_mul(y, y, r * x, 1, n);
        assert(x * (r * y) == y * (r * x)) by (nonlinear_arith);
        lemma_mul_basics(x);
        lemma_mul_basics(y);
        crate::arith::lemma_congruent_mul(b, b, x, y, n);
    }
}

/// Blinding, signing and unblinding give a valid signature on the digest.
pub proof fn lemma_unblinded_signature_is_valid(
    key: PublicKeyView,
    d: nat,
    digest: Seq<u8>,
    factor: nat,
    inverse: nat,
)
    requires
        crate::signature::sound_key(key, d),
        (factor * inverse) % key.n == 1nat % key.n,
    ensures
        crate::signature::signature_valid(
            key,
            digest,
            (blind_signature_value(key.n, d, blinded_value(key, digest, factor)) * inverse)
                % key.n,
        ),
{
    let n = key.n as int;
    let e = key.e;
    let r = factor as int;
    let i = inverse as int;
    let h = crate::signature::fdh(key.n, digest) as int;
    let b = blinded_value(key, digest, factor) as int;
    let t = blind_signature_value(key.n, d, b as nat) as int;
    let s = (t * i) % n;
    lemma_mod_bound(
        crate::bytes::be_value(
            crate::signature::fdh_bytes(digest, crate::bytes::byte_width(key.n)),
        ) as int,
        n,
    );
    lemma_mod_bound(h * pow(r, e), n);
    lemma_mod_bound(pow(b, d), n);
    lemma_mod_bound(t * i, n);
    // t^e is the blinded message again.
    assert(crate::signature::recovered(key, d, b as nat) == b);
    lemma_mod_bound(pow(t, e), n);
    assert(pow(t, e) % n == (h * pow(r, e)) % n);
    // s^e = t^e * i^e = h * (r * i)^e = h.
    lemma_mod_twice(t * i, n);
    crate::arith::lemma_congruent_pow(s, t * i, e, n);
    lemma_pow_distributes(t, i, e);
    crate::arith::lemma_congruent_mul(pow(t, e), h * pow(r, e), pow(i, e), pow(i, e), n);
    lemma_mul_is_associative(h, pow(r, e), pow(i, e));
    lemma_pow_distributes(r, i, e);
    assert((r * i) % n == 1int % n);
    crate::arith::lemma_congruent_pow(r * i, 1, e, n);
    lemma1_pow(e);
    crate::arith::lemma_congruent_mul(h, h, pow(r * i, e), 1, n);
    lemma_mul_basics(h);
    lemma_small_mod(h as nat, n as nat);
}

/// The issuer learns nothing from a blinded message: whatever digest one has in
/// mind whose hash can be inverted, some factor blinds it to that very message.
pub proof fn lemma_blinded_message_fits_every_digest(
    key: PublicKeyView,
    d: nat,
    digest: Seq<u8>,
    hash_inverse: nat,
    blinded: nat,
)
    requires
        crate::signature::sound_key(key, d),
        (crate::signature::fdh(key.n, digest) * hash_inverse) % key.n == 1nat % key.n,
        blinded < key.n,
    ensures
        blinded_value(
            key,
            digest,
            (pow((blinded * hash_inverse) as int, d) % (key.n as int)) as nat,
        ) == blinded,
{
    let n = key.n as int;
    let h = crate::signature::fdh(key.n, digest) as int;
    let i = hash_inverse as int;
    let x = blinded as int * i;
    let r = pow(x, d) % n;
    lemma_mod_bound(pow(x, d), n);
    let y = x % n;
    lemma_mod_bound(x, n);
    lemma_mod_twice(x, n);
    crate::arith::lemma_congruent_pow(x, y, d, n);
    lemma_mod_bound(pow(r, key.e), n);
    assert(crate::signature::recovered(key, d, y as nat) == y);
    assert(pow(r, key.e) % n == x % n);
    crate::arith::lemma_congruent_mul(h, h, pow(r, key.e), x, n);
    assert(h * x == blinded * (h * i)) by (nonlinear_arith)
        requires
            x == blinded * i,
    ;
    assert((h * i) % n == 1int % n);
    crate::arith::lemma_congruent_mul(blinded as int, blinded as int, h * i, 1, n);
    lemma_mul_basics(blinded as int);
    lemma_small_mod(blinded, key.n);
}

/// What is left when a factor is taken out gives the blind signature back when it is
/// multiplied by the factor again.
pub proof fn lemma_unblinding_multiplies_back(
    key: PublicKeyView,
    factor: nat,
    blinded_signature: nat,
    signature: nat,
)
    requires
        key.n > 0,
        unblinds_to(key, factor, blinded_signature, signature),
    ensures
        signature < key.n,
        (signature * factor) % key.n == blinded_signature % key.n,
{
    let n = key.n as int;
    let i = choose|inverse: nat|
        (factor * inverse) % key.n == 1nat % key.n && signature == #[trigger] (blinded_signature
            * inverse) % key.n;
    let b = blinded_signature as int;
    let f = factor as int;
    lemma_mod_bound(b * i, n);
    lemma_mod_twice(b * i, n);
    crate::arith::lemma_congruent_mul(signature as int, b * i, f, f, n);
    assert((b * i) * f == b * (f * i)) by (nonlinear_arith);
    crate::arith::lemma_congruent_mul(b, b, f * i, 1, n);
    lemma_mul_basics(b);
}

/// A blinded message is the hash of the digest times the factor to the public exponent, and a
/// blind signature is a message to the private exponent, both modulo the modulus.
pub proof fn lemma_blinding_is_multiplication(
    key: PublicKeyView,
    d: nat,
    digest: Seq<u8>,
    factor: nat,
    blinded: nat,
)
    requires
        key.n > 0,
    ensures
        blinded_value(key, digest, factor) < key.n,
        (blinded_value(key, digest, factor) - crate::signature::fdh(key.n, digest) * pow(
            factor as int,
            key.e,
        )) % (key.n as int) == 0,
        blind_signature_value(key.n, d, blinded) < key.n,
        (blind_signature_value(key.n, d, blinded) - pow(blinded as int, d)) % (key.n as int) == 0,
{
    let n = key.n as int;
    let x = crate::signature::fdh(key.n, digest) * pow(factor as int, key.e);
    let y = pow(blinded as int, d);
    lemma_mod_bound(x, n);
    lemma_mod_bound(y, n);
    lemma_mod_twice(x, n);
    lemma_mod_twice(y, n);
    crate::arith::lemma_congruent_difference(x % n, x, n);
    crate::arith::lemma_congruent_difference(y % n, y, n);
}

} // verus!
