//! Natural numbers of any size.
//!
//! A number is held as its shortest big-endian encoding. Comparing and encoding
//! are done here; the arithmetic is that of the `num-bigint` crate.

use num_bigint::{BigInt, BigUint, RandBigInt, Sign};
use num_integer::Integer;
use rand::rngs::StdRng;
use vstd::prelude::*;
use vstd::arithmetic::mul::*;
use vstd::arithmetic::power::*;

verus! {

/// A natural number.
#[derive(Debug, PartialEq, Eq)]
pub struct Natural {
    bytes: Vec<u8>,
}

impl View for Natural {
    type V = nat;

    closed spec fn view(&self) -> nat {
        crate::bytes::be_value(self.bytes@)
    }
}

impl Clone for Natural {
    fn clone(&self) -> (r: Self)
        ensures
            r@ == self@,
    {
        proof {
            use_type_invariant(self);
        }
        Natural { bytes: crate::bytes::to_vec(self.bytes.as_slice()) }
    }
}

/// The value of a signed number given by sign and magnitude.
pub open spec fn signed_value(negative: bool, magnitude: nat) -> int {
    if negative {
        -(magnitude as int)
    } else {
        magnitude as int
    }
}

/// A number with one binary digit set.
pub open spec fn bit_set(a: nat, bit: nat) -> nat {
    if (a as int / pow(2, bit)) % 2 == 1 {
        a
    } else {
        (a + pow(2, bit)) as nat
    }
}

/// A byte string splits into a high and a low part.
proof fn lemma_split(s: Seq<u8>, i: int)
    requires
        0 <= i <= s.len(),
    ensures
        crate::bytes::be_value(s) == crate::bytes::be_value(s.take(i)) * pow(
            256,
            (s.len() - i) as nat,
        ) + crate::bytes::be_value(s.skip(i)),
    decreases s.len() - i,
{
    reveal(pow);
    if i == s.len() {
        assert(s.take(i) =~= s);
        assert(s.skip(i) =~= Seq::<u8>::empty());
        assert(pow(256, 0) == 1);
        lemma_mul_basics(crate::bytes::be_value(s) as int);
    } else {
        lemma_split(s, i + 1);
        crate::bytes::lemma_leading_digit(s.skip(i));
        assert(s.skip(i).skip(1) =~= s.skip(i + 1));
        assert(s.take(i + 1).drop_last() =~= s.take(i));
        let hi = crate::bytes::be_value(s.take(i));
        let w = pow(256, (s.len() - i - 1) as nat);
        assert(pow(256, (s.len() - i) as nat) == 256 * w);
        assert((hi * 256 + s[i] as nat) * w == hi * (256 * w) + s[i] as nat * w)
            by (nonlinear_arith);
    }
}

impl Natural {
    /// The encoding has no leading zero byte, except that zero is one zero byte.
    #[verifier::type_invariant]
    spec fn canonical(self) -> bool {
        self.bytes@.len() > 0 && (self.bytes@.len() > 1 ==> self.bytes@[0] != 0)
    }

    /// Reads a number from its big-endian encoding, which may have leading
    /// zero bytes.
    pub fn from_bytes_be(bytes: &[u8]) -> (r: Natural)
        ensures
            r@ == crate::bytes::be_value(bytes@),
    {
        let mut start: usize = 0;
        proof {
            assert(bytes@.skip(0) =~= bytes@);
        }
        while start < bytes.len() && bytes[start] == 0
            invariant
                start <= bytes.len(),
                crate::bytes::be_value(bytes@) == crate::bytes::be_value(bytes@.skip(start as int)),
            decreases bytes.len() - start,
        {
            proof {
                crate::bytes::lemma_leading_digit(bytes@.skip(start as int));
                assert(bytes@.skip(start as int).skip(1) =~= bytes@.skip(start + 1));
                lemma_mul_basics(pow(256, (bytes@.len() - start - 1) as nat));
            }
            start = start + 1;
        }
        if start == bytes.len() {
            proof {
                assert(bytes@.skip(start as int) =~= Seq::<u8>::empty());
                crate::bytes::lemma_be_minimal(seq![0u8]);
            }
            let mut zero: Vec<u8> = Vec::new();
            zero.push(0u8);
            proof {
                assert(zero@ =~= seq![0u8]);
            }
            return Natural { bytes: zero };
        }
        let kept = crate::bytes::to_vec(&bytes[start..bytes.len()]);
        proof {
            assert(kept@ =~= bytes@.skip(start as int));
        }
        Natural { bytes: kept }
    }

    /// The shortest big-endian encoding.
    pub fn to_bytes_be(&self) -> (r: Vec<u8>)
        ensures
            r@ == crate::bytes::be_minimal(self@),
    {
        proof {
            use_type_invariant(self);
            crate::bytes::lemma_be_minimal(self.bytes@);
        }
        crate::bytes::to_vec(self.bytes.as_slice())
    }

    /// How many bytes the number takes; none for zero.
    pub fn byte_len(&self) -> (r: usize)
        ensures
            r == crate::bytes::byte_width(self@),
    {
        proof {
            use_type_invariant(self);
            crate::bytes::lemma_be_minimal(self.bytes@);
            if self.bytes@[0] == 0 {
                assert(self.bytes@ =~= seq![0u8]);
            }
        }
        if self.bytes[0] == 0 {
            0
        } else {
            self.bytes.len()
        }
    }

    pub fn from_u32(x: u32) -> (r: Natural)
        ensures
            r@ == x,
    {
        let bytes = crate::bytes::u32_to_be_bytes(x);
        proof {
            assert(pow(256, 4) == 0x1_0000_0000) by {
                reveal_with_fuel(pow, 5);
            }
            crate::bytes::lemma_be_value_of_bytes(x as nat, 4);
        }
        Natural::from_bytes_be(&bytes)
    }

    pub fn zero() -> (r: Natural)
        ensures
            r@ == 0,
    {
        Natural::from_u32(0)
    }

    pub fn is_zero(&self) -> (r: bool)
        ensures
            r == (self@ == 0),
    {
        proof {
            use_type_invariant(self);
            crate::bytes::lemma_be_minimal(self.bytes@);
            assert(self.bytes@.len() == 1 && self.bytes@[0] == 0 ==> self.bytes@ =~= seq![0u8]);
        }
        self.bytes.len() == 1 && self.bytes[0] == 0
    }

    pub fn is_one(&self) -> (r: bool)
        ensures
            r == (self@ == 1),
    {
        proof {
            use_type_invariant(self);
            crate::bytes::lemma_leading_digit(self.bytes@);
            if self.bytes@.len() == 1 {
                lemma_pow0(256);
                assert(self.bytes@.skip(1) =~= Seq::<u8>::empty());
            } else {
                let w = pow(256, (self.bytes@.len() - 2) as nat);
                reveal(pow);
                lemma_pow_positive(256, (self.bytes@.len() - 2) as nat);
                assert(self.bytes@[0] as nat * (256 * w) >= 256) by (nonlinear_arith)
                    requires
                        self.bytes@[0] >= 1,
                        w >= 1,
                ;
            }
        }
        self.bytes.len() == 1 && self.bytes[0] == 1
    }

    pub fn is_even(&self) -> (r: bool)
        ensures
            r == (self@ % 2 == 0),
    {
        proof {
            use_type_invariant(self);
        }
        self.bytes[self.bytes.len() - 1] % 2 == 0
    }

    pub fn equals(&self, other: &Natural) -> (r: bool)
        ensures
            r == (self@ == other@),
    {
        proof {
            use_type_invariant(self);
            use_type_invariant(other);
            crate::bytes::lemma_be_minimal(self.bytes@);
            crate::bytes::lemma_be_minimal(other.bytes@);
        }
        crate::bytes::bytes_equal(self.bytes.as_slice(), other.bytes.as_slice())
    }

    pub fn less_than(&self, other: &Natural) -> (r: bool)
        ensures
            r == (self@ < other@),
    {
        proof {
            use_type_invariant(self);
            use_type_invariant(other);
            lemma_longer_is_greater(self.bytes@, other.bytes@);
            lemma_longer_is_greater(other.bytes@, self.bytes@);
        }
        if self.bytes.len() != other.bytes.len() {
            return self.bytes.len() < other.bytes.len();
        }
        let mut i: usize = 0;
        while i < self.bytes.len()
            invariant
                i <= self.bytes@.len(),
                self.bytes@.len() == other.bytes@.len(),
                self.bytes@.take(i as int) == other.bytes@.take(i as int),
            decreases self.bytes.len() - i,
        {
            if self.bytes[i] != other.bytes[i] {
                proof {
                    if self.bytes@[i as int] < other.bytes@[i as int] {
                        lemma_first_difference(self.bytes@, other.bytes@, i as int);
                    } else {
                        lemma_first_difference(other.bytes@, self.bytes@, i as int);
                    }
                }
                return self.bytes[i] < other.bytes[i];
            }
            proof {
                assert(self.bytes@.take(i + 1) =~= self.bytes@.take(i as int).push(
                    self.bytes@[i as int],
                ));
                assert(other.bytes@.take(i + 1) =~= other.bytes@.take(i as int).push(
                    other.bytes@[i as int],
                ));
            }
            i = i + 1;
        }
        proof {
            assert(self.bytes@.take(i as int) =~= self.bytes@);
            assert(other.bytes@.take(i as int) =~= other.bytes@);
        }
        false
    }
}

proof fn lemma_longer_is_greater(a: Seq<u8>, b: Seq<u8>)
    requires
        a.len() > 0,
        b.len() > 1 ==> b[0] != 0,
    ensures
        a.len() < b.len() ==> crate::bytes::be_value(a) < crate::bytes::be_value(b),
{
    if a.len() < b.len() {
        crate::bytes::lemma_be_bytes_of_value(a);
        crate::bytes::lemma_leading_digit(b);
        let w = pow(256, (b.len() - 1) as nat);
        lemma_pow_increases(256, a.len(), (b.len() - 1) as nat);
        lemma_pow_positive(256, (b.len() - 1) as nat);
        lemma_mul_inequality(1, b[0] as int, w);
    }
}

proof fn lemma_first_difference(a: Seq<u8>, b: Seq<u8>, i: int)
    requires
        a.len() == b.len(),
        0 <= i < a.len(),
        a.take(i) == b.take(i),
        a[i] < b[i],
    ensures
        crate::bytes::be_value(a) < crate::bytes::be_value(b),
{
    lemma_split(a, i);
    lemma_split(b, i);
    crate::bytes::lemma_leading_digit(a.skip(i));
    crate::bytes::lemma_leading_digit(b.skip(i));
    crate::bytes::lemma_be_bytes_of_value(a.skip(i).skip(1));
    let w = pow(256, (a.len() - i - 1) as nat);
    assert(a.skip(i)[0] == a[i] && b.skip(i)[0] == b[i]);
    assert(a[i] as nat * w + w <= b[i] as nat * w) by (nonlinear_arith)
        requires
            a[i] + 1 <= b[i],
            w >= 0,
    ;
}

// ---------------------------------------------------------------------------
// Arithmetic of the num-bigint and num-integer crates
//
// Numbers go in by `from_bytes_be` and come out by `to_bytes_be`, which gives the
// shortest encoding, with a single zero byte for zero.
// ---------------------------------------------------------------------------

/// `BigUint::modpow`: a power reduced by the modulus. It panics on a zero
/// modulus.
#[verifier::external_body]
pub(crate) fn modpow(base: &Natural, exponent: &Natural, modulus: &Natural) -> (r: Natural)
    requires
        modulus@ > 0,
    ensures
        r@ == pow(base@ as int, exponent@) % (modulus@ as int),
{
    let base = BigUint::from_bytes_be(&base.bytes);
    let exponent = BigUint::from_bytes_be(&exponent.bytes);
    let modulus = BigUint::from_bytes_be(&modulus.bytes);
    Natural { bytes: base.modpow(&exponent, &modulus).to_bytes_be() }
}

/// `Integer::mod_floor` for `BigUint`: the remainder of a division. It panics on
/// a zero divisor.
#[verifier::external_body]
pub(crate) fn mod_floor(a: &Natural, modulus: &Natural) -> (r: Natural)
    requires
        modulus@ > 0,
    ensures
        r@ == a@ % modulus@,
{
    let a = BigUint::from_bytes_be(&a.bytes);
    let modulus = BigUint::from_bytes_be(&modulus.bytes);
    Natural { bytes: a.mod_floor(&modulus).to_bytes_be() }
}

/// Multiplication of two `BigUint`.
#[verifier::external_body]
pub(crate) fn multiply(a: &Natural, b: &Natural) -> (r: Natural)
    ensures
        r@ == a@ * b@,
{
    let a = BigUint::from_bytes_be(&a.bytes);
    let b = BigUint::from_bytes_be(&b.bytes);
    Natural { bytes: (a * b).to_bytes_be() }
}

/// Subtraction of a `u32` from a `BigUint`. It panics where the result would be
/// negative.
#[verifier::external_body]
pub(crate) fn subtract_u32(a: &Natural, b: u32) -> (r: Natural)
    requires
        b <= a@,
    ensures
        r@ == a@ - b,
{
    Natural { bytes: (BigUint::from_bytes_be(&a.bytes) - b).to_bytes_be() }
}

/// `BigUint::bits`: the number of binary digits.
#[verifier::external_body]
pub(crate) fn bits(a: &Natural) -> (r: u64)
    ensures
        r == crate::bytes::bit_length(a@),
{
    BigUint::from_bytes_be(&a.bytes).bits()
}

/// `BigUint::to_str_radix` with base ten: the number in base ten, without leading
/// zeros.
#[verifier::external_body]
pub(crate) fn to_decimal(a: &Natural) -> (r: String)
    ensures
        r@ == crate::text::decimal_text(a@),
{
    BigUint::from_bytes_be(&a.bytes).to_str_radix(10)
}

/// `BigUint::set_bit` with `true`: the number with that binary digit set. A
/// digit beyond what memory can hold panics.
#[verifier::external_body]
pub(crate) fn with_bit(a: &Natural, bit: u64) -> (r: Natural)
    requires
        bit / 8 + 8 <= isize::MAX,
    ensures
        r@ == bit_set(a@, bit as nat),
{
    let mut a = BigUint::from_bytes_be(&a.bytes);
    a.set_bit(bit, true);
    Natural { bytes: a.to_bytes_be() }
}

/// `BigUint::trailing_zeros`: how often two divides the number; zero has no
/// such count.
#[verifier::external_body]
pub(crate) fn trailing_zeros(a: &Natural) -> (r: Option<u64>)
    ensures
        r is None <==> a@ == 0,
        r matches Some(k) ==> a@ as int % pow(2, k as nat) == 0 && (a@ as int / pow(2, k as nat))
            % 2 == 1,
{
    BigUint::from_bytes_be(&a.bytes).trailing_zeros()
}

/// `>>` of a `BigUint`: division by a power of two, rounded down.
#[verifier::external_body]
pub(crate) fn shift_right(a: &Natural, shift: u64) -> (r: Natural)
    ensures
        r@ == a@ as int / pow(2, shift as nat),
{
    Natural { bytes: (BigUint::from_bytes_be(&a.bytes) >> shift).to_bytes_be() }
}

/// `Integer::gcd` for `BigUint`.
#[verifier::external_body]
pub(crate) fn gcd(a: &Natural, b: &Natural) -> (r: Natural)
    ensures
        r@ == crate::arith::gcd(a@, b@),
{
    let a = BigUint::from_bytes_be(&a.bytes);
    let b = BigUint::from_bytes_be(&b.bytes);
    Natural { bytes: a.gcd(&b).to_bytes_be() }
}

/// `Integer::extended_gcd` for `BigInt`, on two numbers that are not negative:
/// the greatest common divisor, and sign and magnitude of the first Bezout
/// coefficient.
#[verifier::external_body]
pub(crate) fn extended_gcd(a: &Natural, b: &Natural) -> (r: (Natural, bool, Natural))
    ensures
        r.0@ == crate::arith::gcd(a@, b@),
        exists|y: int| a@ * signed_value(r.1, r.2@) + #[trigger] (b@ * y) == r.0@,
{
    let a = BigInt::from_bytes_be(Sign::Plus, &a.bytes);
    let b = BigInt::from_bytes_be(Sign::Plus, &b.bytes);
    let found = a.extended_gcd(&b);
    let (sign, magnitude) = found.x.into_parts();
    let negative = match sign {
        Sign::Minus => true,
        Sign::NoSign => false,
        Sign::Plus => false,
    };
    let gcd = found.gcd.into_parts().1.to_bytes_be();
    (Natural { bytes: gcd }, negative, Natural { bytes: magnitude.to_bytes_be() })
}

/// `Integer::mod_floor` for `BigInt`, by a positive modulus: the residue that is
/// not negative. It panics on a zero modulus.
#[verifier::external_body]
pub(crate) fn signed_mod_floor(
    negative: bool,
    magnitude: &Natural,
    modulus: &Natural,
) -> (r: Natural)
    requires
        modulus@ > 0,
    ensures
        r@ == signed_value(negative, magnitude@) % (modulus@ as int),
{
    let sign = if negative { Sign::Minus } else { Sign::Plus };
    let x = BigInt::from_bytes_be(sign, &magnitude.bytes);
    let modulus = BigInt::from_bytes_be(Sign::Plus, &modulus.bytes);
    Natural { bytes: x.mod_floor(&modulus).into_parts().1.to_bytes_be() }
}

/// `RandBigInt::gen_biguint`: some number with at most that many binary digits.
/// A width beyond what memory can hold panics.
#[verifier::external_body]
pub(crate) fn draw_natural(rng: &mut StdRng, width: u64) -> (r: Natural)
    requires
        width / 8 + 8 <= isize::MAX,
    ensures
        r@ < pow(2, width as nat),
{
    Natural { bytes: rng.gen_biguint(width).to_bytes_be() }
}

/// `RandBigInt::gen_biguint_range`: some number from the lower bound up to, but
/// not reaching, the upper bound. It panics on an empty range.
#[verifier::external_body]
pub(crate) fn draw_natural_between(rng: &mut StdRng, low: &Natural, high: &Natural) -> (r: Natural)
    requires
        low@ < high@,
    ensures
        low@ <= r@ < high@,
{
    let low = BigUint::from_bytes_be(&low.bytes);
    let high = BigUint::from_bytes_be(&high.bytes);
    Natural { bytes: rng.gen_biguint_range(&low, &high).to_bytes_be() }
}

} // verus!
