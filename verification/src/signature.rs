//! RSA signatures with a full-domain hash, used for device certificates, value
//! transfers, and funding messages.
//!
//! `sign(m) = FDH(m)^d mod n`, `verify(m, s) <=> s^e == FDH(m) mod n`.
//!
//! # Scope
//!
//! This is a readable model: schoolbook modexp, a hash-expansion full-domain
//! hash, and no side-channel hardening. A real secure element would use an
//! elliptic-curve scheme in hardware, with the private key generated on-chip
//! and never exported.

use crate::error::Error;
use crate::natural::Natural;
use rand::rngs::StdRng;
use vstd::prelude::*;
use vstd::arithmetic::div_mod::*;
use vstd::arithmetic::mul::*;
use vstd::arithmetic::power::*;

verus! {

/// The numbers that make up a verification key.
pub struct PublicKeyView {
    pub n: nat,
    pub e: nat,
}

/// A verification key: the Eurosystem's, or a certified device's.
#[derive(Debug, PartialEq, Eq)]
pub struct PublicKey {
    pub n: Natural,
    pub e: Natural,
}

impl View for PublicKey {
    type V = PublicKeyView;

    open spec fn view(&self) -> PublicKeyView {
        PublicKeyView { n: self.n@, e: self.e@ }
    }
}

impl Clone for PublicKey {
    fn clone(&self) -> (r: Self)
        ensures
            r@ == self@,
    {
        PublicKey { n: self.n.clone(), e: self.e.clone() }
    }
}

/// One block of the expanded digest.
pub open spec fn fdh_block(digest: Seq<u8>, i: nat) -> Seq<u8> {
    crate::hash::tagged_digest(
        "euro/fdh"@,
        seq![digest, crate::bytes::be_bytes(i % 0x1_0000_0000, 4)],
    )
}

/// The first blocks of the expanded digest.
pub open spec fn fdh_blocks(digest: Seq<u8>, count: nat) -> Seq<u8>
    decreases count,
{
    if count == 0 {
        Seq::empty()
    } else {
        fdh_blocks(digest, (count - 1) as nat) + fdh_block(digest, (count - 1) as nat)
    }
}

/// The digest expanded to a number of bytes, with the two top bits cleared.
pub open spec fn fdh_bytes(digest: Seq<u8>, width: nat) -> Seq<u8> {
    let expanded = fdh_blocks(digest, (width + 31) / 32).take(width as int);
    expanded.update(0, expanded[0] & 0x3f)
}

/// The full-domain hash of a digest for a modulus.
pub open spec fn fdh(n: nat, digest: Seq<u8>) -> nat {
    crate::bytes::be_value(fdh_bytes(digest, crate::bytes::byte_width(n))) % n
}

/// What a valid signature is.
pub open spec fn signature_valid(key: PublicKeyView, digest: Seq<u8>, signature: nat) -> bool {
    &&& signature < key.n
    &&& pow(signature as int, key.e) % (key.n as int) == fdh(key.n, digest)
}

/// The signature of a digest under a private exponent.
pub open spec fn signature_value(n: nat, d: nat, digest: Seq<u8>) -> nat {
    (pow(fdh(n, digest) as int, d) % (n as int)) as nat
}

/// With the two top bits cleared, a byte string is below every modulus that fills
/// as many bytes to the top.
proof fn lemma_cleared_is_below(bytes: Seq<u8>, n: nat)
    requires
        bytes.len() > 0,
        bytes[0] < 64,
        crate::bytes::bit_length(n) == 8 * bytes.len(),
    ensures
        crate::bytes::be_value(bytes) < n,
{
    let w = (bytes.len() - 1) as nat;
    crate::bytes::lemma_leading_digit(bytes);
    crate::bytes::lemma_be_bytes_of_value(bytes.skip(1));
    crate::bytes::lemma_top_bit(n);
    assert(pow(2, 8) == 256 && pow(2, 7) == 128) by {
        reveal_with_fuel(pow, 9);
    }
    lemma_pow_multiplies(2, 8, w);
    lemma_pow_adds(2, 7, 8 * w);
    lemma_pow_positive(256, w);
    assert(bytes[0] as nat * pow(256, w) + pow(256, w) <= 128 * pow(256, w)) by (nonlinear_arith)
        requires
            bytes[0] < 64,
            pow(256, w) > 0,
    ;
}

/// A verification key with its numbers, for debugging.
pub open spec fn key_debug(key: PublicKeyView) -> Seq<char> {
    "PublicKey { n: "@ + crate::text::decimal_text(key.n) + ", e: "@ + crate::text::decimal_text(
        key.e,
    ) + " }"@
}

impl PublicKey {
    /// The key with its numbers, for debugging.
    pub fn debug(&self) -> (r: String)
        ensures
            r@ == key_debug(self@),
    {
        let mut r: String = String::from_str("PublicKey { n: ");
        r.append(crate::natural::to_decimal(&self.n).as_str());
        r.append(", e: ");
        r.append(crate::natural::to_decimal(&self.e).as_str());
        r.append(" }");
        r
    }

    /// Size of the modulus in bytes.
    pub fn modulus_bytes(&self) -> (r: usize)
        ensures
            r == crate::bytes::byte_width(self.n@),
            r == (crate::bytes::bit_length(self.n@) + 7) / 8,
    {
        proof {
            crate::bytes::lemma_bit_length(self.n@);
        }
        self.n.byte_len()
    }

    /// Full-domain hash: expand the 32-byte message digest to the width of the
    /// modulus and reduce. Prevents the multiplicative forgeries that plain
    /// "sign the raw hash" RSA allows.
    pub fn full_domain_hash(&self, digest: &[u8; 32]) -> (r: Natural)
        requires
            self.n@ > 0,
        ensures
            r@ == fdh(self.n@, digest@),
            r@ < self.n@,
            crate::bytes::bit_length(self.n@) == 8 * crate::bytes::byte_width(self.n@) ==> r@
                == crate::bytes::be_value(
                fdh_bytes(digest@, crate::bytes::byte_width(self.n@)),
            ),
            r@ == crate::bytes::be_value(fdh_bytes(digest@, crate::bytes::byte_width(self.n@)))
                % self.n@,
            fdh_bytes(digest@, crate::bytes::byte_width(self.n@)).len()
                == crate::bytes::byte_width(self.n@),
            forall|j: int|
                0 <= j < crate::bytes::byte_width(self.n@) ==> #[trigger] fdh_bytes(
                    digest@,
                    crate::bytes::byte_width(self.n@),
                )[j] == ({
                    let block = crate::hash::sha256(
                        crate::hash::frame(
                            "euro/fdh"@,
                            seq![
                                digest@,
                                crate::bytes::be_bytes((j / 32) as nat % 0x1_0000_0000, 4),
                            ],
                        ),
                    );
                    if j == 0 {
                        block[0] & 0x3f
                    } else {
                        block[j % 32]
                    }
                }),
    {
        let width: usize = self.modulus_bytes();
        let mut expanded: Vec<u8> = Vec::new();
        let mut counter: u32 = 0;
        let ghost mut blocks: nat = 0;
        while expanded.len() < width
            invariant
                expanded@ == fdh_blocks(digest@, blocks),
                expanded@.len() == 32 * blocks,
                forall|j: int|
                    0 <= j < expanded@.len() ==> #[trigger] expanded@[j] == crate::hash::sha256(
                        crate::hash::frame(
                            "euro/fdh"@,
                            seq![
                                digest@,
                                crate::bytes::be_bytes((j / 32) as nat % 0x1_0000_0000, 4),
                            ],
                        ),
                    )[j % 32],
                counter == blocks % 0x1_0000_0000,
                blocks > 0 ==> 32 * (blocks - 1) < width,
            decreases width + 32 - expanded@.len(),
        {
            let index: [u8; 4] = crate::bytes::u32_to_be_bytes(counter);
            let mut parts: Vec<&[u8]> = Vec::new();
            parts.push(digest.as_slice());
            parts.push(index.as_slice());
            let block: [u8; 32] = crate::hash::tagged("euro/fdh", parts.as_slice());
            proof {
                assert(crate::hash::part_bytes(parts@) =~= seq![
                    digest@,
                    crate::bytes::be_bytes(counter as nat, 4),
                ]);
                assert(block@ == fdh_block(digest@, blocks));
            }
            let ghost before = expanded@;
            crate::bytes::append_bytes(&mut expanded, block.as_slice());
            proof {
                assert forall|j: int| 0 <= j < expanded@.len() implies #[trigger] expanded@[j]
                    == crate::hash::sha256(
                    crate::hash::frame(
                        "euro/fdh"@,
                        seq![
                            digest@,
                            crate::bytes::be_bytes((j / 32) as nat % 0x1_0000_0000, 4),
                        ],
                    ),
                )[j % 32] by {
                    if j < before.len() {
                        assert(expanded@[j] == before[j]);
                    } else {
                        assert(j / 32 == blocks && j % 32 == j - before.len());
                        assert(expanded@[j] == block@[j - before.len()]);
                    }
                }
                blocks = blocks + 1;
            }
            counter = counter.wrapping_add(1);
        }
        proof {
            assert(width > 0);
            assert(blocks == (width + 31) / 32);
        }
        expanded.truncate(width);
        proof {
            assert(expanded@ =~= fdh_blocks(digest@, blocks).take(width as int));
        }
        self.reduce(expanded)
    }

    /// Clears the two top bits of an expanded digest, which keeps it comfortably
    /// below the modulus, and reduces it.
    pub fn reduce(&self, expanded: Vec<u8>) -> (r: Natural)
        requires
            self.n@ > 0,
            expanded@.len() > 0,
        ensures
            r@ == crate::bytes::be_value(expanded@.update(0, expanded@[0] & 0x3f)) % self.n@,
            r@ < self.n@,
            crate::bytes::bit_length(self.n@) == 8 * expanded@.len() ==> r@
                == crate::bytes::be_value(expanded@.update(0, expanded@[0] & 0x3f)),
    {
        let mut bytes: Vec<u8> = expanded;
        let first: u8 = bytes[0] & 0x3f;
        bytes[0] = first;
        proof {
            assert(bytes@ =~= expanded@.update(0, expanded@[0] & 0x3f));
            lemma_mod_bound(crate::bytes::be_value(bytes@) as int, self.n@ as int);
            assert(first < 64) by {
                let b = expanded@[0];
                assert(b & 0x3f < 64) by (bit_vector);
            }
            if crate::bytes::bit_length(self.n@) == 8 * bytes@.len() {
                lemma_cleared_is_below(bytes@, self.n@);
                lemma_small_mod(crate::bytes::be_value(bytes@), self.n@);
            }
        }
        crate::natural::mod_floor(&Natural::from_bytes_be(bytes.as_slice()), &self.n)
    }

    /// `s^e == FDH(m) mod n`.
    pub fn verify(&self, digest: &[u8; 32], signature: &Natural) -> (r: bool)
        ensures
            r == signature_valid(self@, digest@, signature@),
    {
        if !signature.less_than(&self.n) {
            return false;
        }
        self.opens_to(signature, &self.full_domain_hash(digest))
    }

    /// Whether a signature, raised to the public exponent, gives this number.
    pub fn opens_to(&self, signature: &Natural, hashed: &Natural) -> (r: bool)
        requires
            self.n@ > 0,
        ensures
            r == (pow(signature@ as int, self.e@) % (self.n@ as int) == hashed@),
    {
        crate::natural::modpow(signature, &self.e, &self.n).equals(hashed)
    }

    /// Whether two keys are the same.
    pub fn equals(&self, other: &PublicKey) -> (r: bool)
        ensures
            r == (self@ == other@),
    {
        self.n.equals(&other.n) && self.e.equals(&other.e)
    }
}

/// A signing key. The Eurosystem's stays in its backend; a device's never
/// leaves the secure element.
#[derive(Debug)]
pub struct Keypair {
    pub public: PublicKey,
    d: Natural,
}

impl Clone for Keypair {
    fn clone(&self) -> (r: Self)
        ensures
            r.verification_key() == self.verification_key(),
            r.private_exponent() == self.private_exponent(),
    {
        Keypair { public: self.public.clone(), d: self.d.clone() }
    }
}

/// Whether a modulus and a pair of exponents form an RSA key with these factors.
pub open spec fn rsa_key(n: nat, e: nat, d: nat, p: nat, q: nat) -> bool {
    &&& n == p * q
    &&& p != q
    &&& p > 1
    &&& q > 1
    &&& (e * d) % (((p - 1) * (q - 1)) as nat) == 1
}

/// What is left of a number that is raised to the private and then to the public
/// exponent.
pub open spec fn recovered(key: PublicKeyView, d: nat, m: nat) -> nat {
    (pow(pow(m as int, d) % (key.n as int), key.e) % (key.n as int)) as nat
}

/// A key whose public half undoes what its private half does. Every key with prime
/// factors is one.
pub open spec fn sound_key(key: PublicKeyView, d: nat) -> bool {
    &&& key.n > 0
    &&& forall|m: nat| m < key.n ==> #[trigger] recovered(key, d, m) == m
}

impl Keypair {
    /// The numbers of the public half.
    pub closed spec fn verification_key(&self) -> PublicKeyView {
        self.public@
    }

    /// The private exponent.
    pub closed spec fn private_exponent(&self) -> nat {
        self.d@
    }

    /// The public half.
    pub fn public_key(&self) -> (r: &PublicKey)
        ensures
            r@ == self.verification_key(),
    {
        &self.public
    }

    pub fn sign(&self, digest: &[u8; 32]) -> (r: Natural)
        requires
            self.verification_key().n > 0,
        ensures
            r@ == signature_value(self.verification_key().n, self.private_exponent(), digest@),
    {
        self.raise(&self.public.full_domain_hash(digest))
    }

    /// Raises a number to the private exponent.
    pub fn raise(&self, m: &Natural) -> (r: Natural)
        requires
            self.verification_key().n > 0,
        ensures
            r@ == pow(m@ as int, self.private_exponent()) % (self.verification_key().n as int),
            r@ < self.verification_key().n,
    {
        proof {
            lemma_mod_bound(pow(m@ as int, self.d@), self.public.n@ as int);
        }
        crate::natural::modpow(m, &self.d, &self.public.n)
    }
}

/// An RSA key with prime factors is sound.
pub proof fn lemma_prime_factors_make_a_sound_key(key: PublicKeyView, d: nat, p: nat, q: nat)
    requires
        rsa_key(key.n, key.e, d, p, q),
        crate::arith::is_prime(p as int),
        crate::arith::is_prime(q as int),
    ensures
        sound_key(key, d),
{
    lemma_mul_strictly_positive(p as int, q as int);
    assert forall|m: nat| m < key.n implies #[trigger] recovered(key, d, m) == m by {
        crate::arith::lemma_rsa(m as int, p as int, q as int, key.e, d);
        lemma_small_mod(m, key.n);
    }
}

/// What a sound key signs, its public half verifies.
pub proof fn lemma_signature_verifies(key: PublicKeyView, d: nat, digest: Seq<u8>)
    requires
        sound_key(key, d),
    ensures
        signature_valid(key, digest, signature_value(key.n, d, digest)),
{
    let m = fdh(key.n, digest);
    lemma_mod_bound(
        crate::bytes::be_value(fdh_bytes(digest, crate::bytes::byte_width(key.n))) as int,
        key.n as int,
    );
    assert(recovered(key, d, m) == m);
    lemma_mod_bound(pow(m as int, d), key.n as int);
    lemma_mod_bound(
        pow(pow(m as int, d) % (key.n as int), key.e),
        key.n as int,
    );
}

// ---------------------------------------------------------------------------
// Primes
// ---------------------------------------------------------------------------

pub const SMALL_PRIMES: [u32; 20] = [
    3, 5, 7, 11, 13, 17, 19, 23, 29, 31, 37, 41, 43, 47, 53, 59, 61, 67, 71, 73,
];

/// What trial division says of a number, where it decides.
pub open spec fn settled(n: nat) -> Option<bool> {
    if n == 2 || (exists|i: int| 0 <= i < 20 && n == #[trigger] SMALL_PRIMES@[i]) {
        Some(true)
    } else if n < 2 || n % 2 == 0 || (exists|i: int|
        0 <= i < 20 && n % (#[trigger] SMALL_PRIMES@[i] as nat) == 0) {
        Some(false)
    } else {
        None
    }
}

/// Whether a number passes a Miller-Rabin round with this base.
pub open spec fn passes_base(n: nat, base: nat) -> bool {
    crate::arith::strong_probable_prime(
        n as int,
        base as int,
        crate::arith::odd_part((n - 1) as nat),
        crate::arith::twos((n - 1) as nat),
    )
}

/// Whether a number passes a round with each of these bases.
pub open spec fn passes_all(n: nat, bases: Seq<nat>) -> bool {
    forall|i: int|
        0 <= i < bases.len() ==> 2 <= #[trigger] bases[i] < n - 1 && passes_base(n, bases[i])
}

/// Either trial division shows a number to be prime, or it finds no factor and
/// the number passes that many rounds.
pub open spec fn probable_prime(n: nat, rounds: nat) -> bool {
    ||| settled(n) == Some(true)
    ||| settled(n) is None && exists|bases: Seq<nat>|
        bases.len() == rounds && #[trigger] passes_all(n, bases)
}

/// Either trial division shows a number not to be prime, or it finds no factor
/// and the number fails a round.
pub open spec fn shown_composite(n: nat) -> bool {
    ||| settled(n) == Some(false)
    ||| settled(n) is None && exists|base: nat|
        2 <= base < n - 1 && !#[trigger] passes_base(n, base)
}

proof fn lemma_prime_below_81(n: nat)
    requires
        2 <= n < 81,
        n == 2 || n % 2 != 0,
        n == 3 || n % 3 != 0,
        n == 5 || n % 5 != 0,
        n == 7 || n % 7 != 0,
    ensures
        crate::arith::is_prime(n as int),
{
    if !crate::arith::is_prime(n as int) {
        let r = crate::arith::lemma_least_divisor(n as int);
        assert(r < 9) by (nonlinear_arith)
            requires
                r * r < 81,
                r >= 2,
        ;
        assert(r >= 3 ==> r * r >= 9) by (nonlinear_arith);
        assert(r == 2 ==> r * r == 4);
        assert(r == 2 || r == 3 || r == 4 || r == 5 || r == 6 || r == 7 || r == 8);
        assert(r == 3 ==> n % 3 == 0);
        assert(r == 5 ==> n % 5 == 0 && r * r == 25);
        assert(r == 7 ==> n % 7 == 0 && r * r == 49);
        assert(r == 2 || r == 4 || r == 6 || r == 8 ==> n % 2 == 0);
    }
}

proof fn lemma_small_prime(i: int)
    requires
        0 <= i < 20,
    ensures
        crate::arith::is_prime(SMALL_PRIMES@[i] as int),
{
    lemma_prime_below_81(SMALL_PRIMES@[i] as nat);
}

/// Trial division is right wherever it decides.
pub proof fn lemma_trial_division_is_right(n: nat)
    ensures
        settled(n) matches Some(answer) ==> answer == crate::arith::is_prime(n as int),
{
    if settled(n) == Some(true) {
        if n == 2 {
            lemma_prime_below_81(2);
        } else {
            let i = choose|i: int| 0 <= i < 20 && n == #[trigger] SMALL_PRIMES@[i];
            lemma_small_prime(i);
        }
    } else if settled(n) == Some(false) && n >= 2 {
        if n % 2 == 0 {
            assert(n as int % 2 == 0);
        } else {
            let i = choose|i: int| 0 <= i < 20 && n % (#[trigger] SMALL_PRIMES@[i] as nat) == 0;
            let d = SMALL_PRIMES@[i] as int;
            lemma_small_prime(i);
            if n < d {
                lemma_small_mod(n, d as nat);
            }
            assert(n as int % d == 0);
        }
    }
}

/// A number that fails a round is not prime: the test never turns a prime away.
pub proof fn lemma_failed_round_means_composite(n: nat, base: nat)
    requires
        2 <= base < n - 1,
        !passes_base(n, base),
    ensures
        !crate::arith::is_prime(n as int),
{
    if crate::arith::is_prime(n as int) {
        lemma_small_mod(base, n);
        crate::arith::lemma_odd_part((n - 1) as nat);
        crate::arith::lemma_prime_passes(
            n as int,
            base as int,
            crate::arith::odd_part((n - 1) as nat),
            crate::arith::twos((n - 1) as nat),
        );
    }
}

/// What is shown to be composite is not prime.
pub proof fn lemma_shown_composite_is_composite(n: nat)
    requires
        shown_composite(n),
    ensures
        !crate::arith::is_prime(n as int),
{
    lemma_trial_division_is_right(n);
    if settled(n) is None {
        let base = choose|base: nat| 2 <= base < n - 1 && !#[trigger] passes_base(n, base);
        lemma_failed_round_means_composite(n, base);
    }
}

/// One Miller-Rabin round, with `n - 1 = odd * 2^shift`.
pub fn passes_round(
    n: &Natural,
    n_minus_one: &Natural,
    odd: &Natural,
    shift: u64,
    base: &Natural,
) -> (r: bool)
    requires
        n@ > 2,
        n@ % 2 == 1,
        n_minus_one@ == n@ - 1,
        odd@ == crate::arith::odd_part(n_minus_one@),
        shift == crate::arith::twos(n_minus_one@),
    ensures
        r == passes_base(n@, base@),
{
    let two: Natural = Natural::from_u32(2);
    let ghost start = pow(base@ as int, odd@);
    let mut x: Natural = crate::natural::modpow(base, odd, n);
    proof {
        lemma_mod_bound(start, n@ as int);
        assert(crate::arith::squared(start, 0, n@ as int) == x@);
        assert(shift >= 1);
    }
    if x.is_one() || x.equals(n_minus_one) {
        return true;
    }
    let mut i: u64 = 1;
    while i < shift
        invariant
            1 <= i <= shift,
            n@ > 2,
            n_minus_one@ == n@ - 1,
            two@ == 2,
            start == pow(base@ as int, odd@),
            odd@ == crate::arith::odd_part(n_minus_one@),
            shift == crate::arith::twos(n_minus_one@),
            start % (n@ as int) != 1,
            x@ == crate::arith::squared(start, (i - 1) as nat, n@ as int),
            forall|j: nat|
                j < i ==> #[trigger] crate::arith::squared(start, j, n@ as int) != n@ - 1,
        decreases shift - i,
    {
        let ghost y = x@ as int;
        x = crate::natural::modpow(&x, &two, n);
        proof {
            lemma_pow1(y);
            reveal_with_fuel(pow, 3);
            assert(pow(y, 2) == y * y);
            assert(x@ == crate::arith::squared(start, i as nat, n@ as int));
        }
        if x.equals(n_minus_one) {
            return true;
        }
        i = i + 1;
    }
    false
}

/// Miller-Rabin rounds with given bases, until one fails.
pub fn passes_rounds(
    n: &Natural,
    n_minus_one: &Natural,
    odd: &Natural,
    shift: u64,
    bases: &[Natural],
) -> (r: bool)
    requires
        n@ > 2,
        n@ % 2 == 1,
        n_minus_one@ == n@ - 1,
        odd@ == crate::arith::odd_part(n_minus_one@),
        shift == crate::arith::twos(n_minus_one@),
    ensures
        r == forall|i: int| 0 <= i < bases@.len() ==> passes_base(n@, (#[trigger] bases@[i])@),
{
    let mut i: usize = 0;
    while i < bases.len()
        invariant
            i <= bases@.len(),
            n@ > 2,
            n@ % 2 == 1,
            n_minus_one@ == n@ - 1,
            odd@ == crate::arith::odd_part(n_minus_one@),
            shift == crate::arith::twos(n_minus_one@),
            forall|j: int| 0 <= j < i ==> passes_base(n@, (#[trigger] bases@[j])@),
        decreases bases.len() - i,
    {
        if !passes_round(n, n_minus_one, odd, shift, &bases[i]) {
            return false;
        }
        i = i + 1;
    }
    true
}

/// Miller-Rabin with `rounds` random bases, after trial division.
pub fn is_probable_prime(n: &Natural, rounds: u32, rng: &mut StdRng) -> (r: bool)
    ensures
        r ==> probable_prime(n@, rounds as nat),
        !r ==> shown_composite(n@),
        crate::arith::is_prime(n@ as int) ==> r,
        rounds == 0 && settled(n@) is None ==> r,
{
    proof {
        if shown_composite(n@) {
            lemma_shown_composite_is_composite(n@);
        }
    }
    let two: Natural = Natural::from_u32(2);
    if n.less_than(&two) {
        return false;
    }
    if n.equals(&two) {
        return true;
    }
    if n.is_even() {
        proof {
            assert forall|i: int| 0 <= i < 20 implies n@ != #[trigger] SMALL_PRIMES@[i] by {
                assert(SMALL_PRIMES@[i] % 2 == 1);
            }
        }
        return false;
    }
    let mut k: usize = 0;
    while k < 20
        invariant
            k <= 20,
            n@ > 2,
            n@ % 2 == 1,
            forall|i: int| 0 <= i < k ==> n@ != #[trigger] SMALL_PRIMES@[i],
            forall|i: int| 0 <= i < k ==> n@ % (#[trigger] SMALL_PRIMES@[i] as nat) != 0,
            shown_composite(n@) ==> !crate::arith::is_prime(n@ as int),
        decreases 20 - k,
    {
        let small: Natural = Natural::from_u32(SMALL_PRIMES[k]);
        if n.equals(&small) {
            proof {
                assert(n@ == SMALL_PRIMES@[k as int]);
            }
            return true;
        }
        if crate::natural::mod_floor(n, &small).is_zero() {
            proof {
                assert forall|i: int| 0 <= i < 20 implies n@ != #[trigger] SMALL_PRIMES@[i] by {
                    lemma_small_prime(i);
                    lemma_small_prime(k as int);
                    let d = SMALL_PRIMES@[k as int] as int;
                    if n@ < d {
                        lemma_small_mod(n@, d as nat);
                    }
                    assert(n@ as int % d == 0);
                }
                assert(n@ % (SMALL_PRIMES@[k as int] as nat) == 0);
            }
            return false;
        }
        k = k + 1;
    }
    proof {
        assert(settled(n@) is None);
        assert(n@ != SMALL_PRIMES@[0]);
    }

    let n_minus_one: Natural = crate::natural::subtract_u32(n, 1);
    let shift: u64 = match crate::natural::trailing_zeros(&n_minus_one) {
        Some(shift) => shift,
        None => 0,
    };
    let odd: Natural = crate::natural::shift_right(&n_minus_one, shift);
    proof {
        crate::arith::lemma_twos_unique(n_minus_one@, shift as nat);
    }
    let ghost mut bases: Seq<nat> = Seq::empty();
    let mut drawn: Vec<Natural> = Vec::new();
    let mut round: u32 = 0;
    while round < rounds
        invariant
            round <= rounds,
            two@ == 2,
            n@ > 3,
            n@ % 2 == 1,
            settled(n@) is None,
            n_minus_one@ == n@ - 1,
            odd@ == crate::arith::odd_part(n_minus_one@),
            shift == crate::arith::twos(n_minus_one@),
            bases.len() == round,
            passes_all(n@, bases),
            shown_composite(n@) ==> !crate::arith::is_prime(n@ as int),
        decreases rounds - round,
    {
        // One base at a time: no more are drawn once one has failed.
        drawn.clear();
        drawn.push(crate::natural::draw_natural_between(rng, &two, &n_minus_one));
        let ghost base = drawn@[0]@;
        if !passes_rounds(n, &n_minus_one, &odd, shift, drawn.as_slice()) {
            proof {
                assert(!passes_base(n@, base));
            }
            return false;
        }
        proof {
            assert(passes_base(n@, drawn@[0]@));
            bases = bases.push(base);
        }
        round = round + 1;
    }
    true
}

/// The candidate made of a random number: of full size, with the second digit
/// set so that a product of two keeps the target width, and odd.
pub open spec fn candidate_value(raw: nat, bits: nat) -> nat {
    crate::natural::bit_set(
        crate::natural::bit_set(crate::natural::bit_set(raw, (bits - 1) as nat), (bits - 2) as nat),
        0,
    )
}

/// A candidate is odd and lies in the top quarter of the numbers of its width.
pub open spec fn full_width(p: nat, bits: nat) -> bool {
    3 * pow(2, (bits - 2) as nat) <= p < pow(2, bits) && p % 2 == 1
}

#[verifier::rlimit(40)]
proof fn lemma_candidate(raw: nat, bits: nat)
    requires
        bits >= 2,
        raw < pow(2, bits),
    ensures
        full_width(candidate_value(raw, bits), bits),
{
    let w = pow(2, (bits - 2) as nat);
    lemma_pow_positive(2, (bits - 2) as nat);
    lemma_pow_adds(2, 1, (bits - 2) as nat);
    lemma_pow_adds(2, 1, (bits - 1) as nat);
    lemma_pow1(2);
    let a1 = crate::natural::bit_set(raw, (bits - 1) as nat);
    let a2 = crate::natural::bit_set(a1, (bits - 2) as nat);
    assert(pow(2, (bits - 1) as nat) == 2 * w);
    assert(pow(2, bits) == 4 * w);
    lemma_top_bits(raw as int, w);
    assert(3 * w <= a2 < 4 * w);
    lemma_low_bit(a2);
}

/// Setting the two top bits of a number below `4w`.
proof fn lemma_top_bits(a: int, w: int)
    requires
        w > 0,
        0 <= a < 4 * w,
    ensures
        ({
            let a1 = if (a / (2 * w)) % 2 == 1 {
                a
            } else {
                a + 2 * w
            };
            let a2 = if (a1 / w) % 2 == 1 {
                a1
            } else {
                a1 + w
            };
            3 * w <= a2 < 4 * w
        }),
{
    let a1 = if (a / (2 * w)) % 2 == 1 {
        a
    } else {
        a + 2 * w
    };
    if a >= 2 * w {
        lemma_quotient_between(a, 2 * w, 1);
    } else {
        lemma_quotient_between(a, 2 * w, 0);
    }
    if a1 >= 3 * w {
        lemma_quotient_between(a1, w, 3);
    } else {
        lemma_quotient_between(a1, w, 2);
    }
}

/// Setting the lowest bit makes a number odd.
proof fn lemma_low_bit(a: nat)
    ensures
        crate::natural::bit_set(a, 0) == if a % 2 == 1 {
            a
        } else {
            a + 1
        },
{
    lemma_pow0(2);
    lemma_div_basics(a as int);
}

proof fn lemma_quotient_between(a: int, w: int, q: int)
    requires
        w > 0,
        q * w <= a < (q + 1) * w,
    ensures
        a / w == q,
{
    assert(a == q * w + (a - q * w));
    assert((q + 1) * w == q * w + w) by (nonlinear_arith);
    lemma_fundamental_div_mod_converse(a, w, q, a - q * w);
}

/// The product of two numbers of full width has twice that width.
pub proof fn lemma_product_keeps_width(p: nat, q: nat, bits: nat)
    requires
        bits >= 2,
        full_width(p, bits),
        full_width(q, bits),
    ensures
        crate::bytes::bit_length(p * q) == 2 * bits,
{
    let w = pow(2, (bits - 2) as nat);
    reveal_with_fuel(pow, 3);
    assert(pow(2, bits) == 4 * w);
    lemma_pow_adds(2, (bits - 2) as nat, bits);
    lemma_pow_adds(2, bits, bits);
    lemma_pow_adds(2, (2 * bits - 2) as nat, 1);
    lemma_pow1(2);
    lemma_pow_positive(2, (bits - 2) as nat);
    assert(pow(2, (2 * bits - 1) as nat) == 8 * (w * w)) by (nonlinear_arith)
        requires
            pow(2, (2 * bits - 2) as nat) == w * pow(2, bits),
            pow(2, (2 * bits - 1) as nat) == pow(2, (2 * bits - 2) as nat) * 2,
            pow(2, bits) == 4 * w,
    ;
    assert(p * q >= 9 * (w * w)) by (nonlinear_arith)
        requires
            p >= 3 * w,
            q >= 3 * w,
            w > 0,
    ;
    assert(p * q < pow(2, bits) * pow(2, bits)) by (nonlinear_arith)
        requires
            0 <= p < pow(2, bits),
            0 <= q < pow(2, bits),
    ;
    lemma_mul_nonnegative(w, w);
    crate::bytes::lemma_bit_length_range(p * q, (2 * bits - 1) as nat);
}

/// Makes a candidate of a random number.
pub fn prime_candidate(raw: &Natural, bits: u64) -> (r: Natural)
    requires
        bits >= 2,
        bits / 8 + 8 <= isize::MAX,
        raw@ < pow(2, bits as nat),
    ensures
        r@ == candidate_value(raw@, bits as nat),
        full_width(r@, bits as nat),
{
    proof {
        lemma_candidate(raw@, bits as nat);
    }
    let full: Natural = crate::natural::with_bit(raw, bits - 1);
    let wide: Natural = crate::natural::with_bit(&full, bits - 2);
    crate::natural::with_bit(&wide, 0)
}

/// Draws candidates until one is a probable prime.
fn generate_prime(bits: u64, rng: &mut StdRng) -> (r: Result<Natural, Error>)
    requires
        bits >= 2,
        bits / 8 + 8 <= isize::MAX,
    ensures
        r matches Ok(p) ==> full_width(p@, bits as nat) && probable_prime(p@, 40),
        r matches Err(error) ==> error == Error::EntropyExhausted,
{
    let mut attempt: u64 = 0;
    while attempt < u64::MAX
        invariant
            bits >= 2,
            bits / 8 + 8 <= isize::MAX,
        decreases u64::MAX - attempt,
    {
        let raw: Natural = crate::natural::draw_natural(rng, bits);
        let candidate: Natural = prime_candidate(&raw, bits);
        if is_probable_prime(&candidate, 40, rng) {
            return Ok(candidate);
        }
        attempt = attempt + 1;
    }
    Err(Error::EntropyExhausted)
}

/// Extended-Euclid modular inverse.
pub fn mod_inverse(a: &Natural, modulus: &Natural) -> (r: Option<Natural>)
    requires
        modulus@ > 0,
    ensures
        r is Some <==> crate::arith::gcd(a@, modulus@) == 1,
        r matches Some(x) ==> x@ < modulus@ && (a@ * x@) % modulus@ == 1nat % modulus@,
{
    let (gcd, negative, magnitude) = crate::natural::extended_gcd(a, modulus);
    if !gcd.is_one() {
        return None;
    }
    let inverse: Natural = crate::natural::signed_mod_floor(negative, &magnitude, modulus);
    proof {
        let x = crate::natural::signed_value(negative, magnitude@);
        let m = modulus@ as int;
        let y = choose|y: int| a@ * x + #[trigger] (m * y) == 1;
        lemma_mod_bound(x, m);
        lemma_mod_twice(x, m);
        crate::arith::lemma_congruent_mul(a@ as int, a@ as int, inverse@ as int, x, m);
        crate::arith::lemma_multiple(m * y, y, m);
        lemma_mod_multiples_vanish(y, a@ * x, m);
    }
    Some(inverse)
}

/// The factors are usable for a key of this width: they differ, their product
/// has that width, and 65537 can be inverted.
pub open spec fn usable_factors(p: nat, q: nat, bits: nat) -> bool {
    &&& p != q
    &&& crate::bytes::bit_length(p * q) == bits
    &&& crate::arith::gcd(((p - 1) * (q - 1)) as nat, 65537) == 1
}

impl Keypair {
    /// Makes a key with public exponent 65537 of two factors.
    pub fn from_factors(p: &Natural, q: &Natural, bits: u64) -> (r: Option<Keypair>)
        requires
            p@ > 1,
            q@ > 1,
        ensures
            r is Some <==> usable_factors(p@, q@, bits as nat),
            r matches Some(keypair) ==> {
                &&& keypair.verification_key() == (PublicKeyView { n: p@ * q@, e: 65537 })
                &&& rsa_key(p@ * q@, 65537, keypair.private_exponent(), p@, q@)
                &&& keypair.private_exponent() < (p@ - 1) * (q@ - 1)
            },
    {
        if p.equals(q) {
            return None;
        }
        let n: Natural = crate::natural::multiply(p, q);
        if crate::natural::bits(&n) != bits {
            return None;
        }
        let e: Natural = Natural::from_u32(65537);
        let phi: Natural = crate::natural::multiply(
            &crate::natural::subtract_u32(p, 1),
            &crate::natural::subtract_u32(q, 1),
        );
        if !crate::natural::gcd(&phi, &e).is_one() {
            return None;
        }
        proof {
            assert(phi@ > 1) by (nonlinear_arith)
                requires
                    phi@ == (p@ - 1) * (q@ - 1),
                    p@ > 1,
                    q@ > 1,
                    p@ != q@,
            ;
            crate::arith::lemma_gcd_symmetric(phi@, e@);
            lemma_small_mod(1, phi@);
        }
        match mod_inverse(&e, &phi) {
            Some(d) => Some(Keypair { public: PublicKey { n, e }, d }),
            None => None,
        }
    }

    /// Generates a fresh RSA keypair with public exponent 65537.
    ///
    /// `bits` is the modulus size; use >= 2048 for anything but tests. It fails
    /// only if the source of randomness gives no usable primes in any of very
    /// many attempts.
    pub fn generate(bits: u64, rng: &mut StdRng) -> (r: Result<Keypair, Error>)
        requires
            bits >= 512,
            bits % 2 == 0,
            bits / 16 + 8 <= isize::MAX,
        ensures
            r matches Ok(keypair) ==> generated_key(
                keypair.verification_key(),
                keypair.private_exponent(),
                bits as nat,
            ) && keypair.verification_key().n > 0,
            r matches Err(error) ==> error == Error::EntropyExhausted,
    {
        let mut attempt: u64 = 0;
        while attempt < u64::MAX
            invariant
                bits >= 512,
                bits % 2 == 0,
                bits / 16 + 8 <= isize::MAX,
            decreases u64::MAX - attempt,
        {
            let p: Natural = match generate_prime(bits / 2, rng) {
                Ok(p) => p,
                Err(error) => {
                    return Err(error);
                },
            };
            let q: Natural = match generate_prime(bits / 2, rng) {
                Ok(q) => q,
                Err(error) => {
                    return Err(error);
                },
            };
            proof {
                lemma_full_width_exceeds_one(p@, (bits / 2) as nat);
                lemma_full_width_exceeds_one(q@, (bits / 2) as nat);
            }
            if let Some(keypair) = Keypair::from_factors(&p, &q, bits) {
                proof {
                    assert(rsa_key(
                        keypair.verification_key().n,
                        65537,
                        keypair.private_exponent(),
                        p@,
                        q@,
                    ));
                    lemma_mul_strictly_positive(p@ as int, q@ as int);
                }
                return Ok(keypair);
            }
            attempt = attempt + 1;
        }
        Err(Error::EntropyExhausted)
    }
}

/// A key of this width, of public exponent 65537, with two probable primes of
/// half the width for factors.
pub open spec fn generated_key(key: PublicKeyView, d: nat, bits: nat) -> bool {
    &&& crate::bytes::bit_length(key.n) == bits
    &&& key.e == 65537
    &&& exists|p: nat, q: nat|
        #[trigger] rsa_key(key.n, 65537, d, p, q) && full_width(p, bits / 2) && full_width(
            q,
            bits / 2,
        ) && probable_prime(p, 40) && probable_prime(q, 40)
}

/// What a generated key signs verifies, if its factors are prime and not only
/// probably so.
pub proof fn lemma_generated_key_verifies(
    key: PublicKeyView,
    d: nat,
    bits: nat,
    p: nat,
    q: nat,
    digest: Seq<u8>,
)
    requires
        generated_key(key, d, bits),
        rsa_key(key.n, key.e, d, p, q),
        crate::arith::is_prime(p as int),
        crate::arith::is_prime(q as int),
    ensures
        sound_key(key, d),
        signature_valid(key, digest, signature_value(key.n, d, digest)),
{
    lemma_prime_factors_make_a_sound_key(key, d, p, q);
    lemma_signature_verifies(key, d, digest);
}

proof fn lemma_full_width_exceeds_one(p: nat, bits: nat)
    requires
        bits >= 2,
        full_width(p, bits),
    ensures
        p > 1,
{
    lemma_pow_positive(2, (bits - 2) as nat);
}

// ---------------------------------------------------------------------------
// A signature is for one message
// ---------------------------------------------------------------------------

proof fn lemma_expanded_len(digest: Seq<u8>, count: nat)
    requires
        forall|data: Seq<u8>| #[trigger] crate::hash::sha256(data).len() == 32,
    ensures
        fdh_blocks(digest, count).len() == 32 * count,
    decreases count,
{
    if count > 0 {
        lemma_expanded_len(digest, (count - 1) as nat);
    }
}

proof fn lemma_expanded_block(digest: Seq<u8>, count: nat, i: nat)
    requires
        forall|data: Seq<u8>| #[trigger] crate::hash::sha256(data).len() == 32,
        i < count,
    ensures
        fdh_blocks(digest, count).len() == 32 * count,
        fdh_blocks(digest, count).subrange(32 * i as int, 32 * i as int + 32) == fdh_block(
            digest,
            i,
        ),
    decreases count,
{
    let rest = fdh_blocks(digest, (count - 1) as nat);
    lemma_expanded_len(digest, count);
    lemma_expanded_len(digest, (count - 1) as nat);
    if i == count - 1 {
        assert(fdh_blocks(digest, count).subrange(32 * i as int, 32 * i as int + 32) =~= fdh_block(
            digest,
            i,
        ));
    } else {
        lemma_expanded_block(digest, (count - 1) as nat, i);
        let at = 32 * i as int;
        assert(fdh_blocks(digest, count).subrange(at, at + 32) =~= rest.subrange(at, at + 32));
    }
}

/// Whatever the width, every byte of an expanded digest comes from a SHA-256 digest of the
/// whole digest and the number of the block that the byte is in. Only the two top bits of
/// the first byte are cleared. A SHA-256 digest has thirty-two bytes.
pub proof fn lemma_expansion_covers_the_digest(digest: Seq<u8>, width: nat, j: int)
    requires
        forall|data: Seq<u8>| #[trigger] crate::hash::sha256(data).len() == 32,
        0 <= j < width,
        width <= 0x20_0000_0000,
    ensures
        fdh_bytes(digest, width).len() == width,
        ({
            let block = crate::hash::sha256(
                crate::hash::frame(
                    "euro/fdh"@,
                    seq![digest, crate::bytes::be_bytes((j / 32) as nat, 4)],
                ),
            );
            fdh_bytes(digest, width)[j] == if j == 0 {
                block[0] & 0x3f
            } else {
                block[j % 32]
            }
        }),
{
    let i = (j / 32) as nat;
    let count = (width + 31) / 32;
    lemma_expanded_block(digest, count, i);
    lemma_expanded_block(digest, count, 0);
    lemma_small_mod(i, 0x1_0000_0000);
    let all = fdh_blocks(digest, count);
    assert(all.subrange(32 * i as int, 32 * i as int + 32)[j % 32] == all[j]);
}

/// Two different digests are expanded from differently framed messages in every block. If
/// they expand to the same bytes, SHA-256 agrees on the two messages in every bit of the
/// block that is kept; in every whole block after the first, it collides.
pub proof fn lemma_digests_expand_differently(
    a: Seq<u8>,
    b: Seq<u8>,
    width: nat,
    i: nat,
) -> (r: (Seq<u8>, Seq<u8>))
    requires
        forall|data: Seq<u8>| #[trigger] crate::hash::sha256(data).len() == 32,
        a.len() == 32,
        b.len() == 32,
        a != b,
        32 * i < width <= 0x20_0000_0000,
        fdh_bytes(a, width) == fdh_bytes(b, width),
    ensures
        r.0 != r.1,
        forall|k: int|
            0 <= k < 32 && 32 * i + k < width && 32 * i + k > 0 ==> (
            #[trigger] crate::hash::sha256(r.0)[k]) == crate::hash::sha256(r.1)[k],
        i == 0 ==> crate::hash::sha256(r.0)[0] & 0x3f == crate::hash::sha256(r.1)[0] & 0x3f,
        i > 0 && 32 * i + 32 <= width ==> crate::hash::sha256(r.0) == crate::hash::sha256(r.1),
{
    let index = crate::bytes::be_bytes(i, 4);
    let tag = crate::hash::tags()[0];
    let x = crate::hash::frame(tag, seq![a, index]);
    let y = crate::hash::frame(tag, seq![b, index]);
    crate::hash::lemma_tag_fits(0);
    crate::bytes::lemma_be_bytes_len(i, 4);
    if x == y {
        crate::hash::lemma_framing_is_unambiguous(tag, seq![a, index], tag, seq![b, index]);
        assert(seq![a, index][0] == seq![b, index][0]);
    }
    assert forall|k: int| 0 <= k < 32 && 32 * i + k < width && 32 * i + k > 0 implies (
    #[trigger] crate::hash::sha256(x)[k]) == crate::hash::sha256(y)[k] by {
        let j = 32 * i + k;
        assert(j / 32 == i && j % 32 == k);
        lemma_expansion_covers_the_digest(a, width, j);
        lemma_expansion_covers_the_digest(b, width, j);
    }
    if i == 0 {
        lemma_expansion_covers_the_digest(a, width, 0);
        lemma_expansion_covers_the_digest(b, width, 0);
    }
    if i > 0 && 32 * i + 32 <= width {
        assert(crate::hash::sha256(x) =~= crate::hash::sha256(y));
    }
    (x, y)
}

/// The full-domain hash is the number that the expanded digest stands for, reduced by the
/// modulus. A signature is what that number gives when it is raised to the private exponent,
/// and it is accepted exactly if it is below the modulus and gives that number when it is
/// raised to the public exponent.
pub proof fn lemma_signature_is_rsa_on_the_expanded_digest(
    key: PublicKeyView,
    d: nat,
    digest: Seq<u8>,
    expanded: Seq<u8>,
    signature: nat,
)
    requires
        forall|data: Seq<u8>| #[trigger] crate::hash::sha256(data).len() == 32,
        0 < key.n < pow(256, 0x20_0000_0000),
        expanded.len() == crate::bytes::byte_width(key.n),
        forall|j: int|
            0 <= j < expanded.len() ==> #[trigger] expanded[j] == ({
                let block = crate::hash::sha256(
                    crate::hash::frame(
                        "euro/fdh"@,
                        seq![digest, crate::bytes::be_bytes((j / 32) as nat, 4)],
                    ),
                );
                if j == 0 {
                    block[0] & 0x3f
                } else {
                    block[j % 32]
                }
            }),
    ensures
        fdh(key.n, digest) == crate::bytes::be_value(expanded) % key.n,
        signature_value(key.n, d, digest) == pow(
            (crate::bytes::be_value(expanded) % key.n) as int,
            d,
        ) % (key.n as int),
        signature_valid(key, digest, signature) <==> signature < key.n && pow(
            signature as int,
            key.e,
        ) % (key.n as int) == crate::bytes::be_value(expanded) % key.n,
{
    let width = crate::bytes::byte_width(key.n);
    crate::bytes::lemma_byte_width(key.n, 0x20_0000_0000);
    assert(width > 0);
    lemma_expansion_covers_the_digest(digest, width, 0);
    assert forall|j: int| 0 <= j < width implies fdh_bytes(digest, width)[j] == expanded[j] by {
        lemma_expansion_covers_the_digest(digest, width, j);
    }
    assert(fdh_bytes(digest, width) =~= expanded);
    lemma_mod_bound(pow(fdh(key.n, digest) as int, d), key.n as int);
}

/// A signature on one message does not verify for another: if it did, the two digests would
/// expand to the same number modulo the modulus; and for a modulus that fills its bytes, of
/// at least two blocks, SHA-256 would collide.
pub proof fn lemma_signature_is_for_one_message(
    key: PublicKeyView,
    a: Seq<u8>,
    b: Seq<u8>,
    signature: nat,
) -> (r: (Seq<u8>, Seq<u8>))
    requires
        forall|data: Seq<u8>| #[trigger] crate::hash::sha256(data).len() == 32,
        a.len() == 32,
        b.len() == 32,
        a != b,
        signature_valid(key, a, signature),
        signature_valid(key, b, signature),
        64 <= crate::bytes::byte_width(key.n) <= 0x20_0000_0000,
        crate::bytes::bit_length(key.n) == 8 * crate::bytes::byte_width(key.n),
    ensures
        r.0 != r.1,
        crate::hash::sha256(r.0) == crate::hash::sha256(r.1),
{
    let width = crate::bytes::byte_width(key.n);
    let x = fdh_bytes(a, width);
    let y = fdh_bytes(b, width);
    lemma_expansion_covers_the_digest(a, width, 0);
    lemma_expansion_covers_the_digest(b, width, 0);
    let p = crate::hash::sha256(
        crate::hash::frame("euro/fdh"@, seq![a, crate::bytes::be_bytes(0, 4)]),
    )[0];
    let q = crate::hash::sha256(
        crate::hash::frame("euro/fdh"@, seq![b, crate::bytes::be_bytes(0, 4)]),
    )[0];
    assert(p & 0x3f < 64) by (bit_vector);
    assert(q & 0x3f < 64) by (bit_vector);
    lemma_cleared_is_below(x, key.n);
    lemma_cleared_is_below(y, key.n);
    lemma_small_mod(crate::bytes::be_value(x), key.n);
    lemma_small_mod(crate::bytes::be_value(y), key.n);
    crate::bytes::lemma_be_value_injective(x, y);
    lemma_digests_expand_differently(a, b, width, 1)
}

/// The residues below a modulus.
spec fn residues(n: nat) -> Set<int> {
    vstd::set_lib::set_int_range(0, n as int)
}

/// With a sound key there is one signature on a digest and no other: whatever verifies is
/// what the private half gives.
pub proof fn lemma_signature_is_unique(key: PublicKeyView, d: nat, digest: Seq<u8>, signature: nat)
    requires
        sound_key(key, d),
    ensures
        signature_valid(key, digest, signature) <==> signature == signature_value(key.n, d, digest),
{
    let n = key.n as int;
    let f = |m: int| pow(m, d) % n;
    lemma_signature_verifies(key, d, digest);
    if signature_valid(key, digest, signature) {
        // Raising to the private exponent permutes the residues.
        let all = residues(key.n);
        vstd::set_lib::lemma_int_range(0, n);
        let image = all.map(f);
        assert forall|x: int, y: int| all.contains(x) && all.contains(y) && #[trigger] f(x)
            == #[trigger] f(y) implies x == y by {
            assert(recovered(key, d, x as nat) == x);
            assert(recovered(key, d, y as nat) == y);
        }
        assert forall|x: int| #[trigger] all.contains(x) implies image.contains(f(x)) by {}
        vstd::set_lib::lemma_map_size(all, image, f);
        assert(image.subset_of(all)) by {
            assert forall|y: int| image.contains(y) implies all.contains(y) by {
                let x = choose|x: int| all.contains(x) && y == f(x);
                lemma_mod_bound(pow(x, d), n);
            }
        }
        vstd::set_lib::lemma_subset_equality(image, all);
        assert(image.contains(signature as int));
        let m = choose|m: int| all.contains(m) && signature as int == f(m);
        assert(recovered(key, d, m as nat) == m);
        lemma_mod_bound(pow(signature as int, key.e), n);
        assert(m == fdh(key.n, digest));
    }
}

// ---------------------------------------------------------------------------
// What the primality test and key generation promise
// ---------------------------------------------------------------------------

proof fn lemma_primes_below_79(r: int)
    requires
        2 <= r < 79,
        crate::arith::is_prime(r),
    ensures
        r == 2 || exists|i: int| 0 <= i < 20 && r == #[trigger] SMALL_PRIMES@[i],
{
    assert(r > 2 ==> r % 2 != 0);
    assert(r > 3 ==> r % 3 != 0);
    assert(r > 5 ==> r % 5 != 0);
    assert(r > 7 ==> r % 7 != 0);
    assert(SMALL_PRIMES@[0] == 3 && SMALL_PRIMES@[1] == 5 && SMALL_PRIMES@[2] == 7
        && SMALL_PRIMES@[3] == 11 && SMALL_PRIMES@[4] == 13 && SMALL_PRIMES@[5] == 17
        && SMALL_PRIMES@[6] == 19 && SMALL_PRIMES@[7] == 23 && SMALL_PRIMES@[8] == 29
        && SMALL_PRIMES@[9] == 31 && SMALL_PRIMES@[10] == 37 && SMALL_PRIMES@[11] == 41
        && SMALL_PRIMES@[12] == 43 && SMALL_PRIMES@[13] == 47 && SMALL_PRIMES@[14] == 53
        && SMALL_PRIMES@[15] == 59 && SMALL_PRIMES@[16] == 61 && SMALL_PRIMES@[17] == 67
        && SMALL_PRIMES@[18] == 71 && SMALL_PRIMES@[19] == 73);
    assert(r == 2 || r == 3 || r == 5 || r == 7 || r == 11 || r == 13 || r == 17 || r == 19 || r
        == 23 || r == 29 || r == 31 || r == 37 || r == 41 || r == 43 || r == 47 || r == 53 || r
        == 59 || r == 61 || r == 67 || r == 71 || r == 73);
}

/// Trial division decides every number below 79, and of the others exactly those that have
/// a divisor below 79.
pub proof fn lemma_trial_division_finds_every_small_divisor(n: nat)
    ensures
        settled(n) is None <==> n >= 79 && forall|d: int| 2 <= d < 79 ==> #[trigger] (n as int % d)
            != 0,
{
    if settled(n) is None {
        assert forall|d: int| 2 <= d < 79 implies #[trigger] (n as int % d) != 0 by {
            if n as int % d == 0 {
                let r = if crate::arith::is_prime(d) {
                    d
                } else {
                    crate::arith::lemma_least_divisor(d)
                };
                lemma_mod_self_0(d);
                if r > d {
                    lemma_small_mod(d as nat, r as nat);
                }
                let j = crate::arith::lemma_quotient(d, r);
                let k = crate::arith::lemma_quotient(n as int, d);
                assert(n as int == (k * j) * r) by (nonlinear_arith)
                    requires
                        n as int == k * d,
                        d == j * r,
                ;
                crate::arith::lemma_multiple(n as int, k * j, r);
                lemma_primes_below_79(r);
                if r != 2 {
                    let i = choose|i: int| 0 <= i < 20 && r == #[trigger] SMALL_PRIMES@[i];
                    assert(n % (SMALL_PRIMES@[i] as nat) == 0);
                }
            }
        }
        if n < 79 {
            lemma_mod_self_0(n as int);
            assert(n as int % (n as int) != 0);
        }
    } else if n >= 79 {
        if n % 2 == 0 {
            assert(n as int % 2 == 0);
        } else {
            let i = choose|i: int| 0 <= i < 20 && n % (#[trigger] SMALL_PRIMES@[i] as nat) == 0;
            lemma_small_prime(i);
            assert(SMALL_PRIMES@[i] < 79);
            assert(n as int % (SMALL_PRIMES@[i] as int) == 0);
        }
    }
}

proof fn lemma_squares_of_one(x: int, i: nat, k: nat, n: int)
    requires
        n > 2,
        i < k,
        crate::arith::squared(x, i, n) == n - 1 || crate::arith::squared(x, i, n) == 1,
    ensures
        crate::arith::squared(x, k, n) == 1,
    decreases k,
{
    let j = (k - 1) as nat;
    let y = crate::arith::squared(x, j, n);
    if i < j {
        lemma_squares_of_one(x, i, j, n);
    }
    lemma_small_mod(1, n as nat);
    if y == n - 1 {
        assert(y * y == n * (n - 2) + 1) by (nonlinear_arith)
            requires
                y == n - 1,
        ;
        lemma_mod_multiples_vanish(n - 2, 1, n);
    } else {
        assert(y == 1);
        assert(y * y == 1);
    }
}

/// A round is what Miller and Rabin made it: with `n - 1` written as an odd number times a
/// power of two, the base raised to the odd number is one, or reaches minus one by fewer
/// squarings than would give the power `n - 1`. A number that passes meets Fermat's little
/// theorem for the base.
pub proof fn lemma_round_is_miller_rabin(n: nat, base: nat, odd: nat, shift: nat)
    requires
        n > 2,
        n % 2 == 1,
        odd % 2 == 1,
        n - 1 == odd * pow(2, shift),
    ensures
        passes_base(n, base) <==> pow(base as int, odd) % (n as int) == 1 || exists|i: nat|
            i < shift && #[trigger] pow(base as int, odd * pow(2, i) as nat) % (n as int) == n - 1,
        passes_base(n, base) ==> pow(base as int, (n - 1) as nat) % (n as int) == 1,
{
    let m = (n - 1) as nat;
    let b = base as int;
    let x = pow(b, odd);
    lemma_pow_positive(2, shift);
    crate::arith::lemma_multiple(m as int, odd as int, pow(2, shift));
    lemma_div_multiples_vanish(odd as int, pow(2, shift));
    lemma_mul_is_commutative(odd as int, pow(2, shift));
    crate::arith::lemma_twos_unique(m, shift);
    assert forall|i: nat| i < shift implies #[trigger] crate::arith::squared(x, i, n as int)
        == #[trigger] pow(b, odd * pow(2, i) as nat) % (n as int) by {
        crate::arith::lemma_squared_is_pow(b, odd, i, n as int);
    }
    if passes_base(n, base) && x % (n as int) != 1 {
        let i = choose|i: nat|
            i < shift && #[trigger] crate::arith::squared(x, i, n as int) == n - 1;
        assert(pow(b, odd * pow(2, i) as nat) % (n as int) == n - 1);
    }
    if exists|i: nat|
        i < shift && #[trigger] pow(b, odd * pow(2, i) as nat) % (n as int) == n - 1 {
        let i = choose|i: nat|
            i < shift && #[trigger] pow(b, odd * pow(2, i) as nat) % (n as int) == n - 1;
        crate::arith::lemma_squared_is_pow(b, odd, i, n as int);
        assert(crate::arith::squared(x, i, n as int) == n - 1);
    }
    if passes_base(n, base) {
        crate::arith::lemma_squared_is_pow(b, odd, shift, n as int);
        assert(odd * pow(2, shift) as nat == m);
        if x % (n as int) == 1 {
            assert(crate::arith::squared(x, 0, n as int) == 1);
            if shift > 0 {
                lemma_squares_of_one(x, 0, shift, n as int);
            }
        } else {
            let i = choose|i: nat|
                i < shift && #[trigger] crate::arith::squared(x, i, n as int) == n - 1;
            lemma_squares_of_one(x, i, shift, n as int);
        }
    }
}

/// What passes for prime is a prime below 79, or has no divisor below 79 and meets Fermat's
/// little theorem for as many bases as there were rounds. Every prime passes.
pub proof fn lemma_probable_prime_passed_its_rounds(n: nat, rounds: nat)
    ensures
        probable_prime(n, rounds) && n < 79 ==> crate::arith::is_prime(n as int),
        probable_prime(n, rounds) && n >= 79 ==> {
            &&& forall|d: int| 2 <= d < 79 ==> #[trigger] (n as int % d) != 0
            &&& exists|bases: Seq<nat>|
                #![trigger bases.len()]
                bases.len() == rounds && forall|i: int|
                    0 <= i < rounds ==> 2 <= #[trigger] bases[i] < n - 1 && passes_base(n, bases[i])
                        && pow(bases[i] as int, (n - 1) as nat) % (n as int) == 1
        },
        shown_composite(n) ==> !crate::arith::is_prime(n as int),
{
    lemma_trial_division_is_right(n);
    lemma_trial_division_finds_every_small_divisor(n);
    if shown_composite(n) {
        lemma_shown_composite_is_composite(n);
    }
    if probable_prime(n, rounds) && n >= 79 {
        if settled(n) == Some(true) {
            assert(n == 2 || exists|i: int| 0 <= i < 20 && n == #[trigger] SMALL_PRIMES@[i]);
        }
        assert(settled(n) is None);
        let bases = choose|bases: Seq<nat>|
            bases.len() == rounds && #[trigger] passes_all(n, bases);
        assert forall|i: int| 0 <= i < rounds implies 2 <= #[trigger] bases[i] < n - 1
            && passes_base(n, bases[i]) && pow(bases[i] as int, (n - 1) as nat) % (n as int)
            == 1 by {
            crate::arith::lemma_odd_part((n - 1) as nat);
            assert(n as int % 2 != 0);
            lemma_round_is_miller_rabin(
                n,
                bases[i],
                crate::arith::odd_part((n - 1) as nat),
                crate::arith::twos((n - 1) as nat),
            );
        }
    }
}

/// A generated key has a modulus of exactly the width that was asked for, public exponent
/// 65537, and two different odd factors of half the width; its exponents are inverse to each
/// other modulo the product of the factors less one.
pub proof fn lemma_generated_key_has_its_width(key: PublicKeyView, d: nat, bits: nat) -> (r: (
    nat,
    nat,
))
    requires
        generated_key(key, d, bits),
        bits >= 4,
    ensures
        pow(2, (bits - 1) as nat) <= key.n < pow(2, bits),
        key.e == 65537,
        key.n == r.0 * r.1,
        r.0 != r.1,
        r.0 % 2 == 1 && r.1 % 2 == 1,
        3 * pow(2, (bits / 2 - 2) as nat) <= r.0 < pow(2, bits / 2),
        3 * pow(2, (bits / 2 - 2) as nat) <= r.1 < pow(2, bits / 2),
        (65537 * d) % (((r.0 - 1) * (r.1 - 1)) as nat) == 1,
        probable_prime(r.0, 40) && probable_prime(r.1, 40),
{
    let (p, q) = choose|p: nat, q: nat|
        #[trigger] rsa_key(key.n, 65537, d, p, q) && full_width(p, bits / 2) && full_width(
            q,
            bits / 2,
        ) && probable_prime(p, 40) && probable_prime(q, 40);
    crate::bytes::lemma_bit_length_bounds(key.n);
    (p, q)
}

/// Two factors make a key exactly if they differ, their product has the width that was asked
/// for, and no number above one divides both 65537 and the product of the factors less one.
pub proof fn lemma_factors_make_a_key(p: nat, q: nat, bits: nat)
    requires
        p > 1,
        q > 1,
        bits > 0,
    ensures
        usable_factors(p, q, bits) <==> {
            &&& p != q
            &&& pow(2, (bits - 1) as nat) <= p * q < pow(2, bits)
            &&& forall|c: int|
                c > 1 ==> (#[trigger] ((p - 1) * (q - 1) % c) != 0 || 65537int % c != 0)
        },
{
    let phi = ((p - 1) * (q - 1)) as nat;
    let n = p * q;
    lemma_mul_strictly_positive(p - 1, q - 1);
    lemma_mul_strictly_positive(p as int, q as int);
    crate::bytes::lemma_bit_length_bounds(n);
    if pow(2, (bits - 1) as nat) <= n < pow(2, bits) {
        crate::bytes::lemma_bit_length_range(n, (bits - 1) as nat);
    }
    let g = crate::arith::gcd(phi, 65537);
    crate::arith::lemma_gcd_divides(phi, 65537);
    if g == 1 {
        assert forall|c: int| c > 1 implies (#[trigger] ((p - 1) * (q - 1) % c) != 0 || 65537int % c
            != 0) by {
            if (p - 1) * (q - 1) % c == 0 && 65537int % c == 0 {
                crate::arith::lemma_gcd_is_greatest(phi, 65537, c as nat);
                lemma_small_mod(1, c as nat);
            }
        }
    } else {
        assert((p - 1) * (q - 1) % (g as int) == 0);
        assert(65537int % (g as int) == 0);
    }
}

/// What is shown of a key spells its modulus and its exponent.
pub proof fn lemma_shown_key_spells_its_numbers(key: PublicKeyView) -> (r: (Seq<char>, Seq<char>))
    ensures
        key_debug(key) == "PublicKey { n: "@ + r.0 + ", e: "@ + r.1 + " }"@,
        crate::text::spells(r.0, key.n),
        crate::text::spells(r.1, key.e),
{
    crate::text::lemma_texts_spell(key.n, Seq::empty());
    crate::text::lemma_texts_spell(key.e, Seq::empty());
    (crate::text::decimal_text(key.n), crate::text::decimal_text(key.e))
}

} // verus!
