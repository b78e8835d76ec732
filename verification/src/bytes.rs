//! Big-endian encodings of numbers, and comparisons of byte strings.

use vstd::prelude::*;
use vstd::arithmetic::mul::*;
use vstd::arithmetic::power::*;

verus! {

/// The number that a byte string stands for, most significant byte first.
pub open spec fn be_value(s: Seq<u8>) -> nat
    decreases s.len(),
{
    if s.len() == 0 {
        0
    } else {
        be_value(s.drop_last()) * 256 + s.last() as nat
    }
}

/// The last `len` base-256 digits of a number, most significant digit first.
pub open spec fn be_bytes(n: nat, len: nat) -> Seq<u8>
    decreases len,
{
    if len == 0 {
        Seq::empty()
    } else {
        be_bytes(n / 256, (len - 1) as nat).push((n % 256) as u8)
    }
}

/// The shortest big-endian encoding of a number; zero is a single zero byte.
pub open spec fn be_minimal(n: nat) -> Seq<u8> {
    be_bytes(n, if byte_width(n) == 0 { 1 } else { byte_width(n) })
}

/// How many base-256 digits a number has; zero has none.
pub open spec fn byte_width(n: nat) -> nat
    decreases n,
{
    if n == 0 {
        0
    } else {
        1 + byte_width(n / 256)
    }
}

/// How many binary digits a number has; zero has none.
pub open spec fn bit_length(n: nat) -> nat
    decreases n,
{
    if n == 0 {
        0
    } else {
        1 + bit_length(n / 2)
    }
}

pub proof fn lemma_be_bytes_len(n: nat, len: nat)
    ensures
        be_bytes(n, len).len() == len,
    decreases len,
{
    if len > 0 {
        lemma_be_bytes_len(n / 256, (len - 1) as nat);
    }
}

/// Reading back what `be_bytes` writes gives the number, as far as it fits.
pub proof fn lemma_be_value_of_bytes(n: nat, len: nat)
    requires
        n < pow(256, len),
    ensures
        be_value(be_bytes(n, len)) == n,
        be_bytes(n, len).len() == len,
    decreases len,
{
    reveal(pow);
    if len > 0 {
        let rest = be_bytes(n / 256, (len - 1) as nat);
        lemma_be_value_of_bytes(n / 256, (len - 1) as nat);
        assert(be_bytes(n, len).drop_last() =~= rest);
    }
}

/// Writing what `be_value` reads gives the bytes back.
pub proof fn lemma_be_bytes_of_value(s: Seq<u8>)
    ensures
        be_bytes(be_value(s), s.len()) == s,
        be_value(s) < pow(256, s.len()),
    decreases s.len(),
{
    reveal(pow);
    if s.len() > 0 {
        lemma_be_bytes_of_value(s.drop_last());
        assert(be_value(s) / 256 == be_value(s.drop_last()));
        assert(s.drop_last().push(s.last()) =~= s);
    }
}

/// Byte strings of the same length stand for the same number only if they are
/// equal.
pub proof fn lemma_be_value_injective(s: Seq<u8>, t: Seq<u8>)
    requires
        s.len() == t.len(),
        be_value(s) == be_value(t),
    ensures
        s == t,
{
    lemma_be_bytes_of_value(s);
    lemma_be_bytes_of_value(t);
}

/// The number by which a block of sixteen bytes (a nonce, an identifier) is
/// found in a table.
pub open spec fn block_key(block: [u8; 16]) -> u128 {
    be_value(block@) as u128
}

/// Different blocks have different numbers.
pub proof fn lemma_block_key_injective(a: [u8; 16], b: [u8; 16])
    requires
        block_key(a) == block_key(b),
    ensures
        a == b,
{
    lemma_be_bytes_of_value(a@);
    lemma_be_bytes_of_value(b@);
    assert(pow(256, 16) == 0x1_0000_0000_0000_0000_0000_0000_0000_0000) by {
        reveal_with_fuel(pow, 17);
    }
    lemma_be_value_injective(a@, b@);
    assert(a =~= b);
}

/// Eight binary digits make one byte.
pub proof fn lemma_bit_length(n: nat)
    ensures
        byte_width(n) == (bit_length(n) + 7) / 8,
    decreases n,
{
    reveal_with_fuel(bit_length, 9);
    if n >= 256 {
        lemma_bit_length(n / 256);
        assert(n / 2 / 2 / 2 / 2 / 2 / 2 / 2 / 2 == n / 256);
        assert(bit_length(n) == 8 + bit_length(n / 256));
    } else if n > 0 {
        assert(byte_width(n / 256) == 0);
        assert(bit_length(n) <= 8);
    }
}

/// A number from `2^k` up to `2^(k+1)` has `k + 1` binary digits.
pub proof fn lemma_bit_length_range(n: nat, k: nat)
    requires
        pow(2, k) <= n < pow(2, k + 1),
    ensures
        bit_length(n) == k + 1,
    decreases k,
{
    reveal_with_fuel(pow, 3);
    if k == 0 {
        assert(n == 1);
        assert(bit_length(n / 2) == 0);
    } else {
        assert(pow(2, k) == 2 * pow(2, (k - 1) as nat));
        assert(pow(2, k + 1) == 2 * pow(2, k));
        lemma_bit_length_range(n / 2, (k - 1) as nat);
    }
}

/// A number with so many binary digits is at least the weight of its top digit.
pub proof fn lemma_top_bit(n: nat)
    requires
        n > 0,
    ensures
        pow(2, (bit_length(n) - 1) as nat) <= n,
    decreases n,
{
    reveal(pow);
    if n > 1 {
        lemma_top_bit(n / 2);
        assert(pow(2, (bit_length(n) - 1) as nat) == 2 * pow(
            2,
            (bit_length(n / 2) - 1) as nat,
        ));
    } else {
        assert(bit_length(n / 2) == 0);
        assert(pow(2, 0) == 1);
    }
}

/// A number below `256^len` has at most `len` digits, and conversely.
pub proof fn lemma_byte_width(n: nat, len: nat)
    ensures
        byte_width(n) <= len <==> n < pow(256, len),
    decreases len,
{
    reveal(pow);
    if len > 0 && n > 0 {
        lemma_byte_width(n / 256, (len - 1) as nat);
        assert(n < 256 * pow(256, (len - 1) as nat) <==> n / 256 < pow(256, (len - 1) as nat));
    }
    if len == 0 && n > 0 {
        assert(byte_width(n) >= 1);
    }
    if n == 0 {
        lemma_pow_positive(256, len);
    }
}

/// A byte string without a leading zero byte is the shortest encoding of its
/// number.
pub proof fn lemma_be_minimal(s: Seq<u8>)
    requires
        s.len() > 0,
        s.len() > 1 ==> s[0] != 0,
    ensures
        s == be_minimal(be_value(s)),
        s[0] != 0 ==> byte_width(be_value(s)) == s.len(),
        be_value(s) == 0 <==> s == seq![0u8],
{
    lemma_be_bytes_of_value(s);
    lemma_leading_digit(s);
    lemma_byte_width(be_value(s), s.len());
    lemma_byte_width(be_value(s), (s.len() - 1) as nat);
    lemma_pow_positive(256, (s.len() - 1) as nat);
    if be_value(s) == 0 {
        assert(s[0] == 0) by {
            if s[0] != 0 {
                lemma_mul_strictly_positive(s[0] as int, pow(256, (s.len() - 1) as nat));
            }
        }
        assert(s =~= seq![0u8]);
    } else if s[0] != 0 {
        assert(be_value(s) >= pow(256, (s.len() - 1) as nat)) by {
            lemma_mul_inequality(1, s[0] as int, pow(256, (s.len() - 1) as nat));
        }
    } else {
        assert(s =~= seq![0u8]);
        assert(s.drop_last() =~= Seq::<u8>::empty());
    }
    if s == seq![0u8] {
        assert(s.drop_last() =~= Seq::<u8>::empty());
        assert(be_value(s.drop_last()) == 0);
        assert(be_value(s) == 0);
    }
}

/// Reading back the shortest encoding gives the number.
pub proof fn lemma_be_minimal_value(n: nat)
    ensures
        be_value(be_minimal(n)) == n,
{
    let width = if byte_width(n) == 0 {
        1
    } else {
        byte_width(n)
    };
    lemma_byte_width(n, width);
    lemma_be_value_of_bytes(n, width);
}

/// The first byte of a string counts for the highest power.
pub proof fn lemma_leading_digit(s: Seq<u8>)
    requires
        s.len() > 0,
    ensures
        be_value(s) == s[0] as nat * pow(256, (s.len() - 1) as nat) + be_value(s.skip(1)),
    decreases s.len(),
{
    reveal(pow);
    if s.len() == 1 {
        assert(s.drop_last() =~= Seq::<u8>::empty());
        assert(s.skip(1) =~= Seq::<u8>::empty());
        assert(pow(256, 0) == 1);
    } else {
        lemma_leading_digit(s.drop_last());
        assert(s.drop_last().skip(1) =~= s.skip(1).drop_last());
        let w = pow(256, (s.len() - 2) as nat);
        assert(pow(256, (s.len() - 1) as nat) == 256 * w);
        assert((s[0] as nat * w) * 256 == s[0] as nat * (256 * w)) by (nonlinear_arith);
    }
}

/// Big-endian encoding of a 64-bit number.
pub fn u64_to_be_bytes(x: u64) -> (r: [u8; 8])
    ensures
        r@ == be_bytes(x as nat, 8),
{
    let x1: u64 = x / 256;
    let x2: u64 = x1 / 256;
    let x3: u64 = x2 / 256;
    let x4: u64 = x3 / 256;
    let x5: u64 = x4 / 256;
    let x6: u64 = x5 / 256;
    let x7: u64 = x6 / 256;
    let r: [u8; 8] = [
        (x7 % 256) as u8,
        (x6 % 256) as u8,
        (x5 % 256) as u8,
        (x4 % 256) as u8,
        (x3 % 256) as u8,
        (x2 % 256) as u8,
        (x1 % 256) as u8,
        (x % 256) as u8,
    ];
    proof {
        reveal_with_fuel(be_bytes, 2);
        assert(be_bytes(x7 as nat, 1) =~= r@.take(1));
        assert(be_bytes(x6 as nat, 2) =~= r@.take(2));
        assert(be_bytes(x5 as nat, 3) =~= r@.take(3));
        assert(be_bytes(x4 as nat, 4) =~= r@.take(4));
        assert(be_bytes(x3 as nat, 5) =~= r@.take(5));
        assert(be_bytes(x2 as nat, 6) =~= r@.take(6));
        assert(be_bytes(x1 as nat, 7) =~= r@.take(7));
        assert(be_bytes(x as nat, 8) =~= r@.take(8));
    }
    r
}

/// Big-endian encoding of a 32-bit number.
pub fn u32_to_be_bytes(x: u32) -> (r: [u8; 4])
    ensures
        r@ == be_bytes(x as nat, 4),
{
    let r: [u8; 4] = [
        (x / 0x100_0000) as u8,
        (x / 0x1_0000 % 0x100) as u8,
        (x / 0x100 % 0x100) as u8,
        (x % 0x100) as u8,
    ];
    proof {
        reveal_with_fuel(be_bytes, 5);
        assert(r@ =~= be_bytes(x as nat, 4));
    }
    r
}

/// Reads a 128-bit number from its big-endian encoding.
pub fn u128_from_be_bytes(bytes: &[u8; 16]) -> (r: u128)
    ensures
        r == be_value(bytes@),
{
    let mut r: u128 = 0;
    let mut i: usize = 0;
    proof {
        lemma_pow0(256);
    }
    while i < 16
        invariant
            i <= 16,
            r == be_value(bytes@.take(i as int)),
            r < pow(256, i as nat),
        decreases 16 - i,
    {
        proof {
            reveal(pow);
            assert(bytes@.take(i + 1).drop_last() =~= bytes@.take(i as int));
            lemma_pow_increases(256, (i + 1) as nat, 16);
            assert(pow(256, 16) == 0x1_0000_0000_0000_0000_0000_0000_0000_0000) by {
                reveal_with_fuel(pow, 17);
            }
        }
        r = r * 256 + bytes[i] as u128;
        i = i + 1;
    }
    proof {
        assert(bytes@.take(16) =~= bytes@);
    }
    r
}

/// Whether two byte strings are equal.
pub fn bytes_equal(a: &[u8], b: &[u8]) -> (r: bool)
    ensures
        r == (a@ == b@),
{
    if a.len() != b.len() {
        return false;
    }
    let mut i: usize = 0;
    while i < a.len()
        invariant
            i <= a.len(),
            a@.len() == b@.len(),
            forall|j: int| 0 <= j < i ==> a@[j] == b@[j],
        decreases a.len() - i,
    {
        if a[i] != b[i] {
            return false;
        }
        i = i + 1;
    }
    proof {
        assert(a@ =~= b@);
    }
    true
}

/// Appends a byte string to a buffer.
pub fn append_bytes(out: &mut Vec<u8>, bytes: &[u8])
    ensures
        final(out)@ == old(out)@ + bytes@,
{
    out.extend_from_slice(bytes);
    proof {
        assert(out@ =~= old(out)@ + bytes@);
    }
}

/// A vector with the bytes of a slice.
pub fn to_vec(bytes: &[u8]) -> (r: Vec<u8>)
    ensures
        r@ == bytes@,
{
    let mut r: Vec<u8> = Vec::new();
    append_bytes(&mut r, bytes);
    proof {
        assert(r@ =~= bytes@);
    }
    r
}

/// A number with so many binary digits lies between the powers of two that bound them.
pub proof fn lemma_bit_length_bounds(n: nat)
    requires
        n > 0,
    ensures
        bit_length(n) > 0,
        pow(2, (bit_length(n) - 1) as nat) <= n < pow(2, bit_length(n)),
    decreases n,
{
    reveal(pow);
    lemma_top_bit(n);
    if n > 1 {
        lemma_bit_length_bounds(n / 2);
        assert(pow(2, bit_length(n)) == 2 * pow(2, bit_length(n / 2)));
    } else {
        assert(bit_length(n / 2) == 0);
        assert(pow(2, 0) == 1);
        assert(pow(2, 1) == 2 * pow(2, 0));
    }
}

} // verus!
