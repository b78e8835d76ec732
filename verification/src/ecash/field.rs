//! Arithmetic in the prime field `F_p` with `p = 2^61 - 1` (a Mersenne prime).
//!
//! The whole double-spending trap is linear algebra over this field, so every
//! operation here must be exact and constant-modulus. `p` is small enough that
//! a product of two elements fits in a `u128`, which keeps the code free of a
//! bignum dependency on the hot path. It is *not* large enough to hold a
//! 256-bit wallet identity, so [`crate::ecash::identity`] splits the identity
//! into several 52-bit limbs and runs one line per limb.

use crate::error::Error;
use rand::rngs::StdRng;
use vstd::prelude::*;
use vstd::arithmetic::div_mod::*;
use vstd::arithmetic::mul::*;

verus! {

/// The field modulus, `2^61 - 1`.
pub const P: u64 = 0x1fff_ffff_ffff_ffff;

/// An element of `F_p`, always kept in canonical form (`0 <= value < P`).
#[derive(Clone, Copy, PartialEq, Eq, Hash, Structural, Debug)]
pub struct Fp(u64);

impl View for Fp {
    type V = nat;

    closed spec fn view(&self) -> nat {
        self.0 as nat
    }
}

impl Default for Fp {
    fn default() -> (r: Fp)
        ensures
            r@ == 0,
    {
        Fp(0)
    }
}

/// The sum of two field elements.
pub open spec fn field_add(a: nat, b: nat) -> nat {
    (a + b) % (P as nat)
}

/// The difference of two field elements.
pub open spec fn field_sub(a: nat, b: nat) -> nat {
    ((a - b) % (P as int)) as nat
}

/// The product of two field elements.
pub open spec fn field_mul(a: nat, b: nat) -> nat {
    (a * b) % (P as nat)
}

/// The power of a field element.
pub open spec fn field_pow(a: nat, e: nat) -> nat {
    (vstd::arithmetic::power::pow(a as int, e) % (P as int)) as nat
}

impl Fp {
    #[verifier::type_invariant]
    spec fn canonical(self) -> bool {
        self.0 < P
    }

    /// The neutral element of addition.
    pub fn zero() -> (r: Fp)
        ensures
            r@ == 0,
    {
        Fp(0)
    }

    /// The neutral element of multiplication.
    pub fn one() -> (r: Fp)
        ensures
            r@ == 1,
    {
        Fp(1)
    }

    /// Reduces an arbitrary `u64` into the field.
    pub fn new(v: u64) -> (r: Self)
        ensures
            r@ == v as nat % P as nat,
    {
        Fp(v % P)
    }

    /// Reduces an arbitrary `u128` into the field (used after multiplication
    /// and when deriving challenges from hashes).
    pub fn from_u128(v: u128) -> (r: Self)
        ensures
            r@ == v as nat % P as nat,
    {
        Fp((v % P as u128) as u64)
    }

    /// The canonical representative in `[0, P)`.
    pub fn value(self) -> (r: u64)
        ensures
            r == self@,
            r < P,
    {
        proof {
            use_type_invariant(self);
        }
        self.0
    }

    pub fn is_zero(self) -> (r: bool)
        ensures
            r == (self@ == 0),
    {
        self.0 == 0
    }

    /// Whether two elements are the same.
    pub fn equals(self, other: Fp) -> (r: bool)
        ensures
            r == (self@ == other@),
            r == (self == other),
    {
        self.0 == other.0
    }

    /// Big-endian encoding, for hashing and commitments.
    pub fn to_bytes(self) -> (r: [u8; 8])
        ensures
            r@ == crate::bytes::be_bytes(self@, 8),
    {
        crate::bytes::u64_to_be_bytes(self.0)
    }

    /// The canonical representative in base ten.
    pub fn to_text(self) -> (r: String)
        ensures
            r@ == crate::text::decimal_text(self@),
    {
        let mut r: String = String::new();
        crate::text::push_decimal(&mut r, self.0 as u128);
        proof {
            assert(r@ =~= crate::text::decimal_text(self@));
        }
        r
    }

    /// Kind and representative, for debugging.
    pub fn label(self) -> (r: String)
        ensures
            r@ == "Fp("@ + crate::text::decimal_text(self@) + ")"@,
    {
        let mut r: String = String::from_str("Fp(");
        crate::text::push_decimal(&mut r, self.0 as u128);
        r.append(")");
        r
    }

    /// The low 61 bits of a random number, unless they are all set.
    pub fn from_random(raw: u64) -> (r: Option<Self>)
        ensures
            r is None <==> raw as nat % 0x2000_0000_0000_0000 == P,
            r matches Some(x) ==> x@ == raw as nat % 0x2000_0000_0000_0000,
    {
        let candidate: u64 = raw % 0x2000_0000_0000_0000;
        if candidate < P {
            Some(Fp(candidate))
        } else {
            None
        }
    }

    /// Uniform sampling by rejection: modulo bias would leak a sliver of the
    /// blinding factor `s`, which is exactly what must stay perfectly secret.
    /// It fails only if every one of very many draws is rejected.
    pub fn random(rng: &mut StdRng) -> (r: Result<Self, Error>)
        ensures
            r matches Ok(x) ==> exists|raw: u64|
                x@ == (#[trigger] (raw as nat % 0x2000_0000_0000_0000)) && x@ < P,
            r matches Err(error) ==> error == Error::EntropyExhausted,
    {
        let mut attempt: u64 = 0;
        while attempt < u64::MAX
            decreases u64::MAX - attempt,
        {
            let raw: u64 = crate::random::draw_u64(rng);
            if let Some(x) = Fp::from_random(raw) {
                proof {
                    use_type_invariant(x);
                    assert(x@ == (raw as nat % 0x2000_0000_0000_0000));
                }
                return Ok(x);
            }
            attempt = attempt + 1;
        }
        Err(Error::EntropyExhausted)
    }

    pub fn add(self, other: Fp) -> (r: Fp)
        ensures
            r@ == field_add(self@, other@),
    {
        proof {
            use_type_invariant(self);
            use_type_invariant(other);
        }
        let sum: u64 = self.0 + other.0;
        Fp(if sum >= P { sum - P } else { sum })
    }

    pub fn sub(self, other: Fp) -> (r: Fp)
        ensures
            r@ == field_sub(self@, other@),
    {
        proof {
            use_type_invariant(self);
            use_type_invariant(other);
            if self.0 < other.0 {
                lemma_mod_add_multiples_vanish(self.0 - other.0, P as int);
            }
        }
        Fp(
            if self.0 >= other.0 {
                self.0 - other.0
            } else {
                self.0 + P - other.0
            },
        )
    }

    pub fn neg(self) -> (r: Fp)
        ensures
            r@ == field_sub(0, self@),
    {
        proof {
            use_type_invariant(self);
            lemma_mod_add_multiples_vanish(-(self.0 as int), P as int);
        }
        if self.0 == 0 {
            self
        } else {
            Fp(P - self.0)
        }
    }

    pub fn mul(self, other: Fp) -> (r: Fp)
        ensures
            r@ == field_mul(self@, other@),
    {
        proof {
            use_type_invariant(self);
            use_type_invariant(other);
            assert(self.0 as int * other.0 as int <= u128::MAX) by (nonlinear_arith)
                requires
                    0 <= self.0 < P,
                    0 <= other.0 < P,
            ;
        }
        Fp(((self.0 as u128 * other.0 as u128) % P as u128) as u64)
    }

    /// Square-and-multiply exponentiation.
    pub fn pow(self, exp: u64) -> (r: Fp)
        ensures
            r@ == field_pow(self@, exp as nat),
    {
        let mut exp: u64 = exp;
        let mut base: Fp = self;
        let mut acc: Fp = Fp(1);
        let ghost whole = exp as nat;
        proof {
            lemma_mul_basics(vstd::arithmetic::power::pow(self@ as int, whole));
        }
        while exp > 0
            invariant
                (acc@ * vstd::arithmetic::power::pow(base@ as int, exp as nat)) % (P as int)
                    == field_pow(self@, whole),
            decreases exp,
        {
            let ghost a = acc@ as int;
            let ghost b = base@ as int;
            if exp % 2 == 1 {
                acc = acc.mul(base);
            }
            base = base.mul(base);
            proof {
                lemma_power_step(a, b, exp as nat, acc@ as int, base@ as int);
            }
            exp = exp / 2;
        }
        proof {
            use_type_invariant(acc);
            vstd::arithmetic::power::lemma_pow0(base@ as int);
            lemma_mul_basics(acc@ as int);
            lemma_small_mod(acc@, P as nat);
        }
        acc
    }

    /// Multiplicative inverse via Fermat's little theorem: `a^(p-2) = a^-1`.
    ///
    /// Returns `None` for zero. The double-spend solver calls this on
    /// `x1 - x2`, which is non-zero precisely when the two merchants issued
    /// distinct challenges.
    pub fn inv(self) -> (r: Option<Fp>)
        ensures
            r is None <==> self@ == 0,
            r matches Some(x) ==> x@ == field_pow(self@, (P - 2) as nat) && field_mul(self@, x@)
                == 1,
    {
        if self.is_zero() {
            None
        } else {
            proof {
                use_type_invariant(self);
                lemma_field_inverse(self@);
            }
            Some(self.pow(P - 2))
        }
    }
}

/// One step of square-and-multiply keeps `acc * base^exp`.
proof fn lemma_power_step(a: int, b: int, exp: nat, acc: int, base: int)
    requires
        exp > 0,
        acc == if exp % 2 == 1 {
            (a * b) % (P as int)
        } else {
            a
        },
        base == (b * b) % (P as int),
    ensures
        (acc * vstd::arithmetic::power::pow(base, exp / 2)) % (P as int) == (a
            * vstd::arithmetic::power::pow(b, exp)) % (P as int),
{
    let p = P as int;
    let half = exp / 2;
    let w = vstd::arithmetic::power::pow(b, half);
    lemma_mod_twice(b * b, p);
    lemma_mod_twice(a * b, p);
    crate::arith::lemma_congruent_pow(base, b * b, half, p);
    vstd::arithmetic::power::lemma_pow_distributes(b, b, half);
    vstd::arithmetic::power::lemma_pow_adds(b, half, half);
    let square = vstd::arithmetic::power::pow(b * b, half);
    assert(square == vstd::arithmetic::power::pow(b, half + half));
    if exp % 2 == 1 {
        vstd::arithmetic::power::lemma_pow_adds(b, 1, half + half);
        vstd::arithmetic::power::lemma_pow1(b);
        crate::arith::lemma_congruent_mul(
            acc,
            a * b,
            vstd::arithmetic::power::pow(base, half),
            square,
            p,
        );
        lemma_mul_is_associative(a, b, square);
    } else {
        crate::arith::lemma_congruent_mul(
            a,
            a,
            vstd::arithmetic::power::pow(base, half),
            square,
            p,
        );
    }
}

/// Every element but zero has an inverse.
pub proof fn lemma_field_inverse(a: nat)
    requires
        0 < a < P,
    ensures
        field_mul(a, field_pow(a, (P - 2) as nat)) == 1,
{
    let p = P as int;
    let e = (P - 2) as nat;
    crate::mersenne::lemma_p_is_prime();
    lemma_small_mod(a, P as nat);
    crate::arith::lemma_fermat(a as int, p);
    vstd::arithmetic::power::lemma_pow_adds(a as int, 1, e);
    vstd::arithmetic::power::lemma_pow1(a as int);
    lemma_mul_mod_noop_right(a as int, vstd::arithmetic::power::pow(a as int, e), p);
    lemma_mod_bound(vstd::arithmetic::power::pow(a as int, e), p);
}

/// Adding an element and taking it away again changes nothing, in either order.
pub proof fn lemma_field_add_sub(a: nat, b: nat)
    requires
        a < P,
        b < P,
    ensures
        field_sub(field_add(a, b), b) == a,
        field_add(field_sub(a, b), b) == a,
        field_add(a, field_sub(0, a)) == 0,
{
    lemma_mod_add_multiples_vanish(a - b, P as int);
    lemma_mod_add_multiples_vanish(-(a as int), P as int);
}

/// What the operations of the field are: they agree with those on whole numbers up to a
/// multiple of `2^61 - 1`, and give the least residue.
pub proof fn lemma_field_is_arithmetic_modulo_p(a: nat, b: nat)
    ensures
        P == 0x1fff_ffff_ffff_ffff,
        field_add(a, b) < P,
        field_sub(a, b) < P,
        field_mul(a, b) < P,
        (a + b - field_add(a, b)) % (P as int) == 0,
        (a - b - field_sub(a, b)) % (P as int) == 0,
        (a * b - field_mul(a, b)) % (P as int) == 0,
{
    let p = P as int;
    lemma_mod_bound((a + b) as int, p);
    lemma_mod_bound(a - b, p);
    lemma_mod_bound((a * b) as int, p);
    lemma_mod_twice((a + b) as int, p);
    lemma_mod_twice(a - b, p);
    lemma_mod_twice((a * b) as int, p);
    crate::arith::lemma_congruent_difference((a + b) as int, field_add(a, b) as int, p);
    crate::arith::lemma_congruent_difference(a - b, field_sub(a, b) as int, p);
    crate::arith::lemma_congruent_difference((a * b) as int, field_mul(a, b) as int, p);
}

/// A power is a product: the empty one is one, and a further factor multiplies.
pub proof fn lemma_field_power_is_repeated_product(a: nat, e: nat)
    requires
        a < P,
    ensures
        field_pow(a, 0) == 1,
        field_pow(a, 1) == a,
        field_pow(a, e + 1) == field_mul(a, field_pow(a, e)),
{
    let p = P as int;
    let w = vstd::arithmetic::power::pow(a as int, e);
    vstd::arithmetic::power::lemma_pow0(a as int);
    vstd::arithmetic::power::lemma_pow1(a as int);
    vstd::arithmetic::power::lemma_pow_adds(a as int, 1, e);
    lemma_small_mod(a, P as nat);
    lemma_mul_mod_noop_right(a as int, w, p);
    lemma_mod_bound(w, p);
}

} // verus!
