//! Wallet identity and its encoding as field elements.
//!
//! A wallet identity is 256 bits (in practice the hash of the secure element's
//! attestation public key). The field `F_p` used for the secret-sharing lines
//! only holds 61 bits, so the identity is cut into [`LIMBS`] limbs of
//! [`LIMB_BITS`] bits each. Each limb becomes the slope of its own line
//! `f_j(x) = I_j * x + s_j`, all evaluated at the *same* merchant challenge
//! `x`. One double-spend therefore reveals every limb at once, and the full
//! identity reassembles exactly.

use crate::ecash::field::Fp;
use crate::error::Error;
use vstd::prelude::*;
use vstd::arithmetic::div_mod::*;
use vstd::arithmetic::mul::*;
use vstd::arithmetic::power::*;

verus! {

/// Number of parallel lines carried by one token.
pub const LIMBS: usize = 5;

/// Bits of identity carried per line (`5 * 52 = 260 >= 256`).
pub const LIMB_BITS: u32 = 52;

/// `2^52`.
pub open spec fn limb_base() -> nat {
    0x10_0000_0000_0000
}

/// `2^64`.
pub open spec fn word_base() -> nat {
    0x1_0000_0000_0000_0000
}

/// A 256-bit wallet identity: the value that anonymity protects and that a
/// double-spend unavoidably discloses.
#[derive(Clone, Copy, PartialEq, Eq, Hash, Debug)]
pub struct WalletId([u8; 32]);

impl View for WalletId {
    type V = Seq<u8>;

    closed spec fn view(&self) -> Seq<u8> {
        self.0@
    }
}

/// An identity has thirty-two bytes.
pub proof fn lemma_identity_len(identity: WalletId)
    ensures
        identity@.len() == 32,
{
}

/// The numbers that words stand for.
pub open spec fn word_digits(words: Seq<u64>) -> Seq<nat> {
    words.map_values(|w: u64| w as nat)
}

/// The numbers that field elements stand for.
pub open spec fn limb_digits(limbs: Seq<Fp>) -> Seq<nat> {
    limbs.map_values(|x: Fp| x@)
}

/// The limb of an identity at a place.
pub open spec fn limb_of(identity: Seq<u8>, place: nat) -> nat {
    crate::ecash::digits::digit(crate::ecash::digits::le_value(identity), limb_base(), place)
}

/// All limbs of an identity.
pub open spec fn limbs_of(identity: Seq<u8>) -> Seq<nat> {
    Seq::new(5, |j: int| limb_of(identity, j as nat))
}

/// How many bits the limb at a place may have.
pub open spec fn limb_budget(place: int) -> nat {
    if place < 4 {
        52
    } else {
        48
    }
}

/// What is wrong with the first limb, from a place on, that exceeds its budget.
pub open spec fn limb_error(limbs: Seq<nat>, place: int) -> Option<Error>
    decreases limbs.len() - place,
{
    if place < 0 || place >= limbs.len() {
        None
    } else if limbs[place] >= pow(2, limb_budget(place)) {
        Some(
            Error::MalformedIdentity {
                limb: place as usize,
                value: limbs[place] as u64,
                budget: limb_budget(place) as u32,
            },
        )
    } else {
        limb_error(limbs, place + 1)
    }
}

/// The identity with these limbs, if none exceeds its budget.
pub open spec fn reassembled(limbs: Seq<nat>) -> Result<Seq<u8>, Error> {
    match limb_error(limbs, 0) {
        Some(error) => Err(error),
        None => Ok(identity_bytes(crate::ecash::digits::value(limbs, limb_base()))),
    }
}

/// The 32 bytes of a number, least significant byte first.
pub open spec fn identity_bytes(v: nat) -> Seq<u8> {
    Seq::new(32, |i: int| crate::ecash::digits::digit(v, 256, i as nat) as u8)
}

/// The result is an identity with these bytes, or this error.
pub open spec fn same_identity(
    r: Result<WalletId, Error>,
    expected: Result<Seq<u8>, Error>,
) -> bool {
    match (r, expected) {
        (Ok(id), Ok(bytes)) => id@ == bytes,
        (Err(found), Err(error)) => found == error,
        _ => false,
    }
}

impl WalletId {
    pub fn from_bytes(bytes: [u8; 32]) -> (r: Self)
        ensures
            r@ == bytes@,
    {
        WalletId(bytes)
    }

    pub fn as_bytes(&self) -> (r: &[u8; 32])
        ensures
            r@ == self@,
    {
        &self.0
    }

    /// Short human-readable form for logs and fraud reports.
    pub fn short(&self) -> (r: String)
        ensures
            r@ == crate::text::hex_text(self@.take(6)),
    {
        let r: String = crate::text::hex(&self.0.as_slice()[0..6]);
        proof {
            assert(self.0@.subrange(0, 6) =~= self.0@.take(6));
        }
        r
    }

    /// All bytes in hexadecimal.
    pub fn to_hex(&self) -> (r: String)
        ensures
            r@ == crate::text::hex_text(self@),
    {
        crate::text::hex(self.0.as_slice())
    }

    /// Kind and short form, for debugging.
    pub fn label(&self) -> (r: String)
        ensures
            r@ == "WalletId("@ + crate::text::hex_text(self@.take(6)) + "\u{2026})"@,
    {
        let mut r: String = String::from_str("WalletId(");
        r.append(self.short().as_str());
        r.append("\u{2026})");
        r
    }

    /// Whether two identities are the same.
    pub fn equals(&self, other: &WalletId) -> (r: bool)
        ensures
            r == (*self == *other),
            r == (self@ == other@),
    {
        let r: bool = crate::bytes::bytes_equal(self.0.as_slice(), other.0.as_slice());
        proof {
            if r {
                assert(self.0 =~= other.0);
            }
        }
        r
    }

    /// The identity as four words, least significant word first.
    pub fn words(&self) -> (r: [u64; 4])
        ensures
            crate::ecash::digits::value(word_digits(r@), word_base())
                == crate::ecash::digits::le_value(self@),
    {
        let r: [u64; 4] = [
            word_at(&self.0, 0),
            word_at(&self.0, 8),
            word_at(&self.0, 16),
            word_at(&self.0, 24),
        ];
        proof {
            let b = crate::ecash::digits::byte_digits(self.0@);
            lemma_take_word(self.0@, 0);
            lemma_take_word(self.0@, 8);
            lemma_take_word(self.0@, 16);
            lemma_take_word(self.0@, 24);
            assert(self.0@.skip(0) =~= self.0@);
            assert(crate::ecash::digits::byte_digits(self.0@.skip(32)) =~= Seq::<nat>::empty());
            let w = word_digits(r@);
            reveal_with_fuel(crate::ecash::digits::value, 6);
            assert(w.skip(1).skip(1).skip(1).skip(1) =~= Seq::<nat>::empty());
            assert(w.skip(1)[0] == r@[1] as nat);
            assert(w.skip(1).skip(1)[0] == r@[2] as nat);
            assert(w.skip(1).skip(1).skip(1)[0] == r@[3] as nat);
        }
        r
    }
}

proof fn lemma_take_word(bytes: Seq<u8>, at: int)
    requires
        0 <= at,
        at + 8 <= bytes.len(),
    ensures
        crate::ecash::digits::le_value(bytes.skip(at)) == crate::ecash::digits::le_value(
            bytes.subrange(at, at + 8),
        ) + word_base() * crate::ecash::digits::le_value(bytes.skip(at + 8)),
{
    let low = crate::ecash::digits::byte_digits(bytes.subrange(at, at + 8));
    let high = crate::ecash::digits::byte_digits(bytes.skip(at + 8));
    crate::ecash::digits::lemma_value_append(low, high, 256);
    assert(low + high =~= crate::ecash::digits::byte_digits(bytes.skip(at)));
    assert(pow(256, 8) == word_base()) by {
        reveal_with_fuel(pow, 9);
    }
}

/// The little-endian word that starts at a byte.
fn word_at(bytes: &[u8; 32], at: usize) -> (r: u64)
    requires
        at <= 24,
    ensures
        r == crate::ecash::digits::le_value(bytes@.subrange(at as int, at + 8)),
{
    let mut r: u64 = 0;
    let mut weight: u64 = 1;
    let mut i: usize = 0;
    proof {
        lemma_pow0(256);
        assert(crate::ecash::digits::byte_digits(bytes@.subrange(at as int, at as int))
            =~= Seq::<nat>::empty());
    }
    while i < 8
        invariant
            i <= 8,
            at <= 24,
            r == crate::ecash::digits::le_value(bytes@.subrange(at as int, at + i)),
            i < 8 ==> weight == pow(256, i as nat),
        decreases 8 - i,
    {
        let byte: u8 = bytes[at + i];
        proof {
            let low = crate::ecash::digits::byte_digits(bytes@.subrange(at as int, at + i));
            let next = crate::ecash::digits::byte_digits(bytes@.subrange(at as int, at + i + 1));
            let one = seq![byte as nat];
            assert(next =~= low + one);
            crate::ecash::digits::lemma_value_append(low, one, 256);
            assert(one.skip(1) =~= Seq::<nat>::empty());
            reveal_with_fuel(crate::ecash::digits::value, 2);
            assert(crate::ecash::digits::value(one, 256) == byte);
            crate::ecash::digits::lemma_value_bound(next, 256);
            reveal_with_fuel(pow, 9);
            lemma_pow_increases(256, (i + 1) as nat, 8);
            assert(pow(256, 8) == word_base());
            assert(byte as nat * weight == pow(256, i as nat) * byte) by (nonlinear_arith)
                requires
                    weight == pow(256, i as nat),
            ;
        }
        r = r + byte as u64 * weight;
        i = i + 1;
        if i < 8 {
            proof {
                reveal_with_fuel(pow, 9);
                lemma_pow_increases(256, i as nat, 7);
                assert(pow(256, 7) == 0x100_0000_0000_0000);
                assert(pow(256, i as nat) == 256 * pow(256, (i - 1) as nat));
            }
            weight = weight * 256;
        }
    }
    r
}

// ---------------------------------------------------------------------------
// Cutting into limbs
// ---------------------------------------------------------------------------

/// The bits of a word are bits of the number that it is part of.
proof fn lemma_bit_of_word(words: Seq<nat>, index: nat)
    requires
        crate::ecash::digits::digits_below(words, word_base()),
        index < 64 * words.len(),
    ensures
        crate::ecash::digits::digit(
            crate::ecash::digits::value(words, word_base()),
            2,
            index,
        ) == crate::ecash::digits::digit(words[(index / 64) as int], 2, index % 64),
    decreases words.len(),
{
    let v = crate::ecash::digits::value(words, word_base()) as int;
    let w = words[0] as int;
    let h = crate::ecash::digits::value(words.skip(1), word_base()) as int;
    vstd::arithmetic::power2::lemma2_to64();
    vstd::arithmetic::power2::lemma_pow2(64);
    lemma_pow_positive(2, index);
    if index < 64 {
        let up = (64 - index) as nat;
        lemma_pow_adds(2, index, up);
        assert(pow(2, up) == 2 * pow(2, (up - 1) as nat)) by {
            reveal(pow);
        }
        let c = pow(2, index);
        let k = pow(2, (up - 1) as nat) * h;
        assert(v == w + (2 * k) * c) by (nonlinear_arith)
            requires
                v == w + (c * (2 * pow(2, (up - 1) as nat))) * h,
                k == pow(2, (up - 1) as nat) * h,
        ;
        lemma_hoist_over_denominator(w, 2 * k, c as nat);
        lemma_mod_multiples_vanish(k, w / c, 2);
        lemma_small_mod(index, 64);
        assert(index / 64 == 0);
    } else {
        let low = (index - 64) as nat;
        lemma_bit_of_word(words.skip(1), low);
        lemma_pow_adds(2, 64, low);
        lemma_pow_positive(2, low);
        lemma_div_denominator(v, word_base() as int, pow(2, low));
        lemma_mul_is_commutative(word_base() as int, h);
        lemma_fundamental_div_mod_converse(v, word_base() as int, h, w);
        assert(index / 64 == low / 64 + 1);
        assert(index % 64 == low % 64);
        assert(words.skip(1)[(low / 64) as int] == words[(index / 64) as int]);
    }
}

/// One more bit of a number.
proof fn lemma_next_bit(v: nat, start: nat, bit: nat)
    ensures
        (v as int / pow(2, start)) % pow(2, bit + 1) == (v as int / pow(2, start)) % pow(2, bit)
            + crate::ecash::digits::digit(v, 2, start + bit) * pow(2, bit),
{
    let x = v as int / pow(2, start);
    lemma_pow_positive(2, start);
    lemma_pow_positive(2, bit);
    lemma_div_pos_is_pos(v as int, pow(2, start));
    assert(pow(2, bit + 1) == pow(2, bit) * 2) by {
        reveal(pow);
    }
    lemma_mod_breakdown(x, pow(2, bit), 2);
    lemma_pow_adds(2, start, bit);
    lemma_div_denominator(v as int, pow(2, start), pow(2, bit));
    lemma_mul_is_commutative(pow(2, bit), crate::ecash::digits::digit(v, 2, start + bit) as int);
}

impl WalletId {
    /// Extracts `len` bits starting at bit `start` of the little-endian
    /// 256-bit integer.
    pub fn extract_bits(words: &[u64; 4], start: u32, len: u32) -> (r: u64)
        requires
            len <= 64,
        ensures
            r == (crate::ecash::digits::value(word_digits(words@), word_base()) as int / pow(
                2,
                start as nat,
            )) % pow(2, len as nat),
    {
        let mut out: u64 = 0;
        let mut bit: u32 = 0;
        let ghost v = crate::ecash::digits::value(word_digits(words@), word_base());
        let ghost x = v as int / pow(2, start as nat);
        proof {
            vstd::arithmetic::power2::lemma2_to64();
            vstd::arithmetic::power2::lemma_pow2(64);
            crate::ecash::digits::lemma_value_bound(word_digits(words@), word_base());
            lemma_pow_multiplies(2, 64, 4);
            lemma_pow0(2);
            lemma_pow_positive(2, start as nat);
            lemma_div_pos_is_pos(v as int, pow(2, start as nat));
        }
        while bit < len
            invariant
                bit <= len <= 64,
                v == crate::ecash::digits::value(word_digits(words@), word_base()),
                v < pow(2, 256),
                x == v as int / pow(2, start as nat),
                x >= 0,
                out == x % pow(2, bit as nat),
            decreases len - bit,
        {
            if start >= 256 || start + bit >= 256 {
                proof {
                    lemma_pow_positive(2, start as nat);
                    lemma_pow_positive(2, bit as nat);
                    lemma_pow_increases(2, 256, (start + bit) as nat);
                    lemma_pow_increases(2, bit as nat, len as nat);
                    lemma_pow_adds(2, start as nat, bit as nat);
                    lemma_multiply_divide_lt(v as int, pow(2, start as nat), pow(2, bit as nat));
                    lemma_small_mod(x as nat, pow(2, bit as nat) as nat);
                    lemma_small_mod(x as nat, pow(2, len as nat) as nat);
                }
                return out;
            }
            let index: u32 = start + bit;
            let word: u64 = words[(index / 64) as usize];
            let shifted: u64 = word >> ((index % 64) as u64);
            proof {
                vstd::bits::lemma_u64_shr_is_div(word, (index % 64) as u64);
                vstd::arithmetic::power2::lemma_pow2((index % 64) as nat);
                lemma_bit_of_word(word_digits(words@), index as nat);
                lemma_next_bit(v, start as nat, bit as nat);
                vstd::bits::lemma_u64_pow2_no_overflow(bit as nat);
                vstd::bits::lemma_u64_shl_is_mul(1, bit as u64);
                vstd::arithmetic::power2::lemma_pow2(bit as nat);
                lemma_pow_positive(2, bit as nat);
                lemma_mod_bound(x, pow(2, bit as nat));
                lemma_pow_increases(2, (bit + 1) as nat, 64);
                lemma_pow_positive(2, (bit + 1) as nat);
                lemma_mod_bound(x, pow(2, (bit + 1) as nat));
                vstd::arithmetic::power2::lemma2_to64();
                vstd::arithmetic::power2::lemma_pow2(64);
                lemma_mul_basics(pow(2, bit as nat));
            }
            if shifted % 2 == 1 {
                out = out + (1u64 << (bit as u64));
            }
            bit = bit + 1;
        }
        out
    }

    /// Splits the identity into the slopes of the [`LIMBS`] lines.
    pub fn to_limbs(&self) -> (r: [Fp; 5])
        ensures
            limb_digits(r@) == limbs_of(self@),
    {
        let words: [u64; 4] = self.words();
        let r: [Fp; 5] = [
            Fp::new(WalletId::extract_bits(&words, 0, LIMB_BITS)),
            Fp::new(WalletId::extract_bits(&words, LIMB_BITS, LIMB_BITS)),
            Fp::new(WalletId::extract_bits(&words, 2 * LIMB_BITS, LIMB_BITS)),
            Fp::new(WalletId::extract_bits(&words, 3 * LIMB_BITS, LIMB_BITS)),
            Fp::new(WalletId::extract_bits(&words, 4 * LIMB_BITS, LIMB_BITS)),
        ];
        proof {
            lemma_limb_bits(self@, 0, 0);
            lemma_limb_bits(self@, 1, 52);
            lemma_limb_bits(self@, 2, 104);
            lemma_limb_bits(self@, 3, 156);
            lemma_limb_bits(self@, 4, 208);
            assert(r@[0]@ == limb_of(self@, 0));
            assert(r@[1]@ == limb_of(self@, 1));
            assert(r@[2]@ == limb_of(self@, 2));
            assert(r@[3]@ == limb_of(self@, 3));
            assert(r@[4]@ == limb_of(self@, 4));
            assert(limb_digits(r@) =~= limbs_of(self@));
        }
        r
    }
}

proof fn lemma_limb_base()
    ensures
        pow(2, 52) == limb_base(),
        pow(2, 48) == 0x1_0000_0000_0000,
{
    vstd::arithmetic::power2::lemma2_to64();
    vstd::arithmetic::power2::lemma2_to64_rest();
    vstd::arithmetic::power2::lemma_pow2(52);
    vstd::arithmetic::power2::lemma_pow2(48);
}

proof fn lemma_limb_bits(identity: Seq<u8>, place: nat, start: nat)
    requires
        start == 52 * place,
    ensures
        (crate::ecash::digits::le_value(identity) as int / pow(2, start)) % pow(2, 52) == limb_of(
            identity,
            place,
        ),
        limb_of(identity, place) < limb_base() < crate::ecash::field::P,
{
    lemma_limb_base();
    lemma_pow_multiplies(2, 52, place);
    lemma_mod_bound(
        crate::ecash::digits::le_value(identity) as int / pow(limb_base() as int, place),
        limb_base() as int,
    );
}

// ---------------------------------------------------------------------------
// Reassembling
// ---------------------------------------------------------------------------

/// `2^r`.
fn bit_weight(r: u32) -> (w: u8)
    requires
        r < 8,
    ensures
        w == pow(2, r as nat),
{
    proof {
        reveal_with_fuel(pow, 9);
    }
    match r {
        0 => 1,
        1 => 2,
        2 => 4,
        3 => 8,
        4 => 16,
        5 => 32,
        6 => 64,
        _ => 128,
    }
}

/// Setting a bit above all others adds its weight.
proof fn lemma_set_bit(bytes: Seq<u8>, index: nat)
    requires
        crate::ecash::digits::le_value(bytes) < pow(2, index),
        index < 8 * bytes.len(),
    ensures
        bytes[(index / 8) as int] + pow(2, index % 8) < 256,
        crate::ecash::digits::le_value(
            bytes.update((index / 8) as int, (bytes[(index / 8) as int] + pow(2, index % 8)) as u8),
        ) == crate::ecash::digits::le_value(bytes) + pow(2, index),
{
    let v = crate::ecash::digits::le_value(bytes) as int;
    let d = crate::ecash::digits::byte_digits(bytes);
    let k = index / 8;
    let r = index % 8;
    let byte = bytes[k as int] as nat;
    let place = pow(256, k);
    assert(pow(2, 8) == 256) by {
        reveal_with_fuel(pow, 9);
    }
    lemma_pow_multiplies(2, 8, k);
    lemma_pow_adds(2, 8 * k, r);
    lemma_pow_positive(2, r);
    lemma_pow_positive(256, k);
    crate::ecash::digits::lemma_digit(d, 256, k);
    lemma_multiply_divide_lt(v, place, pow(2, r));
    lemma_div_pos_is_pos(v, place);
    lemma_pow_increases(2, r, 7);
    assert(pow(2, 7) == 128) by {
        reveal_with_fuel(pow, 9);
    }
    lemma_small_mod((v / place) as nat, 256);
    let x = (byte + pow(2, r)) as u8;
    crate::ecash::digits::lemma_update(d, 256, k as int, x as nat);
    assert(crate::ecash::digits::byte_digits(bytes.update(k as int, x)) =~= d.update(
        k as int,
        x as nat,
    ));
    lemma_mul_is_commutative(pow(2, r), place);
}

/// Writes a number of so many bits above everything that is there.
fn write_bits(bytes: &mut [u8; 32], value: u64, start: u32, budget: u32)
    requires
        crate::ecash::digits::le_value(old(bytes)@) < pow(2, start as nat),
        value < pow(2, budget as nat),
        start + budget <= 256,
        budget < 64,
    ensures
        crate::ecash::digits::le_value(final(bytes)@) == crate::ecash::digits::le_value(old(bytes)@)
            + value * pow(2, start as nat),
{
    let mut rest: u64 = value;
    let mut bit: u32 = 0;
    let ghost before = crate::ecash::digits::le_value(bytes@);
    proof {
        lemma_pow0(2);
        lemma_pow_positive(2, start as nat);
        lemma_mul_basics(pow(2, start as nat));
        lemma_div_basics(value as int);
    }
    while bit < budget
        invariant
            bit <= budget < 64,
            start + budget <= 256,
            rest == value as int / pow(2, bit as nat),
            before < pow(2, start as nat),
            crate::ecash::digits::le_value(bytes@) == before + (value as int % pow(2, bit as nat))
                * pow(2, start as nat),
        decreases budget - bit,
    {
        let index: u32 = start + bit;
        proof {
            let low = value as int % pow(2, bit as nat);
            lemma_pow_positive(2, bit as nat);
            lemma_mod_bound(value as int, pow(2, bit as nat));
            lemma_pow_adds(2, start as nat, bit as nat);
            assert(before + low * pow(2, start as nat) < pow(2, bit as nat) * pow(2, start as nat))
                by (nonlinear_arith)
                requires
                    before < pow(2, start as nat),
                    low + 1 <= pow(2, bit as nat),
            ;
            lemma_mul_is_commutative(pow(2, bit as nat), pow(2, start as nat));
            lemma_set_bit(bytes@, index as nat);
            lemma_pow0(2);
            lemma_div_basics(value as int);
            lemma_next_bit(value as nat, 0, bit as nat);
            let b = rest as int % 2;
            assert((low + b * pow(2, bit as nat)) * pow(2, start as nat) == low * pow(
                2,
                start as nat,
            ) + b * pow(2, index as nat)) by (nonlinear_arith)
                requires
                    pow(2, index as nat) == pow(2, start as nat) * pow(2, bit as nat),
            ;
            assert(pow(2, (bit + 1) as nat) == pow(2, bit as nat) * 2) by {
                reveal(pow);
            }
            lemma_div_denominator(value as int, pow(2, bit as nat), 2);
            lemma_mul_basics(pow(2, index as nat));
        }
        if rest % 2 == 1 {
            let place: usize = (index / 8) as usize;
            let byte: u8 = bytes[place] + bit_weight(index % 8);
            bytes[place] = byte;
        }
        rest = rest / 2;
        bit = bit + 1;
    }
    proof {
        lemma_small_mod(value as nat, pow(2, budget as nat) as nat);
    }
}

impl WalletId {
    /// Reassembles an identity from recovered slopes.
    ///
    /// Fails if a limb exceeds its bit budget, which is how the backend
    /// notices that the recovered slopes are not a well-formed identity (a
    /// tampered wallet that answered with garbage rather than its real `I`).
    pub fn from_limbs(limbs: &[Fp; 5]) -> (r: Result<Self, Error>)
        ensures
            same_identity(r, reassembled(limb_digits(limbs@))),
    {
        let mut bytes: [u8; 32] = [0u8; 32];
        let ghost l = limb_digits(limbs@);
        let mut j: usize = 0;
        proof {
            lemma_pow0(2);
            lemma_limb_base();
            lemma_zero_bytes(bytes@);
            assert(l.take(0) =~= Seq::<nat>::empty());
        }
        while j < 5
            invariant
                j <= 5,
                l == limb_digits(limbs@),
                pow(2, 52) == limb_base(),
                pow(2, 48) == 0x1_0000_0000_0000,
                limb_error(l, 0) == limb_error(l, j as int),
                crate::ecash::digits::le_value(bytes@) == crate::ecash::digits::value(
                    l.take(j as int),
                    limb_base(),
                ),
                crate::ecash::digits::digits_below(l.take(j as int), limb_base()),
            decreases 5 - j,
        {
            let value: u64 = limbs[j].value();
            let start: u32 = j as u32 * LIMB_BITS;
            let budget: u32 = if j < 4 { 52 } else { 48 };
            let bound: u64 = if j < 4 { 0x10_0000_0000_0000 } else { 0x1_0000_0000_0000 };
            proof {
                assert(l[j as int] == value);
            }
            if value >= bound {
                return Err(Error::MalformedIdentity { limb: j, value, budget });
            }
            proof {
                let low = l.take(j as int);
                let one = seq![value as nat];
                crate::ecash::digits::lemma_value_bound(low, limb_base());
                lemma_pow_multiplies(2, 52, j as nat);
                assert(l.take(j + 1) =~= low + one);
                crate::ecash::digits::lemma_value_append(low, one, limb_base());
                assert(one.skip(1) =~= Seq::<nat>::empty());
                reveal_with_fuel(crate::ecash::digits::value, 2);
                lemma_mul_is_commutative(value as int, pow(2, start as nat));
            }
            write_bits(&mut bytes, value, start, budget);
            j = j + 1;
        }
        proof {
            assert(l.take(5) =~= l);
            let v = crate::ecash::digits::le_value(bytes@);
            let d = crate::ecash::digits::byte_digits(bytes@);
            assert forall|i: int| 0 <= i < 32 implies bytes@[i] == identity_bytes(v)[i] by {
                crate::ecash::digits::lemma_digit(d, 256, i as nat);
            }
            assert(bytes@ =~= identity_bytes(v));
        }
        Ok(WalletId(bytes))
    }
}

proof fn lemma_zero_bytes(bytes: Seq<u8>)
    requires
        forall|i: int| 0 <= i < bytes.len() ==> bytes[i] == 0,
    ensures
        crate::ecash::digits::le_value(bytes) == 0,
    decreases bytes.len(),
{
    if bytes.len() > 0 {
        lemma_zero_bytes(bytes.skip(1));
        assert(crate::ecash::digits::byte_digits(bytes).skip(1)
            =~= crate::ecash::digits::byte_digits(bytes.skip(1)));
        lemma_mul_basics(256);
    }
}

// ---------------------------------------------------------------------------
// Cutting and reassembling undo each other
// ---------------------------------------------------------------------------

/// The limbs of an identity reassemble to that identity.
pub proof fn lemma_limbs_reassemble(identity: Seq<u8>)
    requires
        identity.len() == 32,
    ensures
        reassembled(limbs_of(identity)) == Ok::<Seq<u8>, Error>(identity),
{
    let d = crate::ecash::digits::byte_digits(identity);
    let v = crate::ecash::digits::le_value(identity);
    let l = limbs_of(identity);
    crate::ecash::digits::lemma_value_bound(d, 256);
    lemma_limb_base();
    assert(pow(2, 8) == 256) by {
        reveal_with_fuel(pow, 9);
    }
    lemma_pow_multiplies(2, 8, 32);
    lemma_pow_multiplies(2, 52, 5);
    lemma_pow_strictly_increases(2, 256, 260);
    crate::ecash::digits::lemma_value_of_digits(v, limb_base(), l);
    // The top limb is what is left of 256 bits.
    lemma_pow_multiplies(2, 52, 4);
    lemma_pow_positive(2, 208);
    lemma_pow_positive(2, 48);
    lemma_pow_adds(2, 208, 48);
    lemma_multiply_divide_lt(v as int, pow(2, 208), pow(2, 48));
    lemma_div_pos_is_pos(v as int, pow(2, 208));
    lemma_small_mod((v as int / pow(2, 208)) as nat, limb_base());
    assert(l[4] < pow(2, 48));
    lemma_limb_bits(identity, 0, 0);
    lemma_limb_bits(identity, 1, 52);
    lemma_limb_bits(identity, 2, 104);
    lemma_limb_bits(identity, 3, 156);
    reveal_with_fuel(limb_error, 6);
    assert(limb_error(l, 0) is None);
    assert forall|i: int| 0 <= i < 32 implies identity[i] == identity_bytes(v)[i] by {
        crate::ecash::digits::lemma_digit(d, 256, i as nat);
    }
    assert(identity =~= identity_bytes(v));
}

/// An identity that was reassembled has the limbs that it was made of.
pub proof fn lemma_reassembled_has_limbs(limbs: Seq<nat>)
    requires
        limbs.len() == 5,
    ensures
        reassembled(limbs) matches Ok(identity) ==> limbs_of(identity) == limbs,
{
    if let Ok(identity) = reassembled(limbs) {
        let v = crate::ecash::digits::value(limbs, limb_base());
        lemma_limb_base();
        reveal_with_fuel(limb_error, 6);
        assert(crate::ecash::digits::digits_below(limbs, limb_base()));
        assert(limbs[4] < pow(2, 48));
        let low = limbs.take(4);
        let one = seq![limbs[4]];
        assert(low + one =~= limbs);
        crate::ecash::digits::lemma_value_append(low, one, limb_base());
        assert(one.skip(1) =~= Seq::<nat>::empty());
        reveal_with_fuel(crate::ecash::digits::value, 2);
        crate::ecash::digits::lemma_value_bound(low, limb_base());
        lemma_pow_multiplies(2, 52, 4);
        lemma_pow_adds(2, 208, 48);
        assert(v < pow(2, 208) * pow(2, 48)) by (nonlinear_arith)
            requires
                v == crate::ecash::digits::value(low, limb_base()) + pow(2, 208) * limbs[4],
                crate::ecash::digits::value(low, limb_base()) < pow(2, 208),
                limbs[4] + 1 <= pow(2, 48),
        ;
        assert(pow(2, 8) == 256) by {
            reveal_with_fuel(pow, 9);
        }
        lemma_pow_multiplies(2, 8, 32);
        let d = crate::ecash::digits::byte_digits(identity);
        assert forall|i: int| 0 <= i < 32 implies #[trigger] d[i] == crate::ecash::digits::digit(
            v,
            256,
            i as nat,
        ) by {
            lemma_mod_bound(v as int / pow(256, i as nat), 256);
        }
        crate::ecash::digits::lemma_value_of_digits(v, 256, d);
        assert forall|j: int| 0 <= j < 5 implies limbs_of(identity)[j] == limbs[j] by {
            crate::ecash::digits::lemma_digit(limbs, limb_base(), j as nat);
        }
        assert(limbs_of(identity) =~= limbs);
    }
}

/// Limbs make an identity exactly if the first four have at most 52 bits each and the last at
/// most 48. What is wrong with them otherwise is the first limb that has more.
pub proof fn lemma_limbs_have_to_fit(limbs: Seq<nat>, place: int)
    requires
        limbs.len() == 5,
        0 <= place < 5,
    ensures
        reassembled(limbs) is Ok <==> limbs[0] < 0x10_0000_0000_0000 && limbs[1]
            < 0x10_0000_0000_0000 && limbs[2] < 0x10_0000_0000_0000 && limbs[3]
            < 0x10_0000_0000_0000 && limbs[4] < 0x1_0000_0000_0000,
        (forall|j: int| 0 <= j < place ==> #[trigger] limbs[j] < 0x10_0000_0000_0000)
            && limbs[place] >= (if place < 4 {
            0x10_0000_0000_0000nat
        } else {
            0x1_0000_0000_0000nat
        }) ==> reassembled(limbs) == Err::<Seq<u8>, Error>(
            Error::MalformedIdentity {
                limb: place as usize,
                value: limbs[place] as u64,
                budget: if place < 4 {
                    52
                } else {
                    48
                },
            },
        ),
{
    lemma_limb_base();
    reveal_with_fuel(limb_error, 6);
}

/// The limbs of an identity are its base `2^52` digits: each is below `2^52`, and weighted by
/// their places they add up to the number that the bytes stand for, least significant first.
pub proof fn lemma_limbs_are_the_digits_of_an_identity(identity: Seq<u8>)
    requires
        identity.len() == 32,
    ensures
        limbs_of(identity).len() == 5,
        forall|j: int| 0 <= j < 5 ==> #[trigger] limbs_of(identity)[j] < 0x10_0000_0000_0000,
        limbs_of(identity)[0] + limbs_of(identity)[1] * pow(2, 52) + limbs_of(identity)[2] * pow(
            2,
            104,
        ) + limbs_of(identity)[3] * pow(2, 156) + limbs_of(identity)[4] * pow(2, 208)
            == crate::bytes::be_value(identity.reverse()),
{
    let l = limbs_of(identity);
    let v = crate::ecash::digits::le_value(identity);
    let b = limb_base();
    lemma_limbs_reassemble(identity);
    lemma_limb_base();
    assert forall|j: int| 0 <= j < 5 implies #[trigger] l[j] < 0x10_0000_0000_0000 by {
        lemma_limb_bits(identity, j as nat, 52 * j as nat);
    }
    crate::ecash::digits::lemma_value_bound(crate::ecash::digits::byte_digits(identity), 256);
    assert(pow(2, 8) == 256) by {
        reveal_with_fuel(pow, 9);
    }
    lemma_pow_multiplies(2, 8, 32);
    lemma_pow_multiplies(2, 52, 5);
    lemma_pow_strictly_increases(2, 256, 260);
    crate::ecash::digits::lemma_value_of_digits(v, b, l);
    lemma_pow_adds(2, 52, 52);
    lemma_pow_adds(2, 104, 52);
    lemma_pow_adds(2, 156, 52);
    let l1 = l.skip(1);
    let l2 = l1.skip(1);
    let l3 = l2.skip(1);
    let l4 = l3.skip(1);
    assert(l4.skip(1) =~= Seq::<nat>::empty());
    assert(l1[0] == l[1] && l2[0] == l[2] && l3[0] == l[3] && l4[0] == l[4]);
    reveal_with_fuel(crate::ecash::digits::value, 7);
    assert(v == l[0] + b * (l[1] + b * (l[2] + b * (l[3] + b * l[4]))));
    assert(v == l[0] + l[1] * b + l[2] * (b * b) + l[3] * (b * b * b) + l[4] * (b * b * b * b))
        by (nonlinear_arith)
        requires
            v == l[0] + b * (l[1] + b * (l[2] + b * (l[3] + b * l[4]))),
    ;
    crate::ecash::digits::lemma_le_value_is_reversed(identity);
}

/// An identity that was found is the one that is expected exactly if the bytes are the same, and
/// an error exactly if it is the same error.
pub proof fn lemma_same_identity_is_the_same(
    id: WalletId,
    found: Error,
    expected: Result<Seq<u8>, Error>,
)
    ensures
        same_identity(Ok(id), expected) <==> expected == Ok::<Seq<u8>, Error>(id@),
        same_identity(Err(found), expected) <==> expected == Err::<Seq<u8>, Error>(found),
{
}

} // verus!
