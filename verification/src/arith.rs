//! Elementary number theory: divisibility, primes, Fermat's little theorem and
//! what follows from it for RSA and for the Miller-Rabin test.

use vstd::prelude::*;
use vstd::arithmetic::div_mod::*;
use vstd::arithmetic::mul::*;
use vstd::arithmetic::power::*;
use vstd::seq_lib::*;
use vstd::set_lib::*;

verus! {

/// A number that has exactly two divisors, one and itself.
pub open spec fn is_prime(n: int) -> bool {
    n >= 2 && forall|d: int| 1 < d < n ==> #[trigger] (n % d) != 0
}

/// Greatest common divisor, by Euclid's algorithm.
pub open spec fn gcd(a: nat, b: nat) -> nat
    decreases b,
{
    if b == 0 {
        a
    } else {
        gcd(b, a % b)
    }
}

// ---------------------------------------------------------------------------
// Congruences
// ---------------------------------------------------------------------------

/// A number is divisible by `m` exactly if it is a multiple of `m`.
pub proof fn lemma_multiple(x: int, k: int, m: int)
    requires
        m > 0,
        x == k * m,
    ensures
        x % m == 0,
{
    lemma_mod_multiples_basic(k, m);
}

pub proof fn lemma_quotient(x: int, m: int) -> (k: int)
    requires
        m > 0,
        x % m == 0,
    ensures
        x == k * m,
        k == x / m,
{
    lemma_fundamental_div_mod(x, m);
    lemma_mul_is_commutative(m, x / m);
    x / m
}

/// Congruent numbers differ by a multiple of the modulus, and conversely.
pub proof fn lemma_congruent_difference(a: int, b: int, m: int)
    requires
        m > 0,
    ensures
        a % m == b % m <==> (a - b) % m == 0,
{
    lemma_mod_equivalence(a, b, m);
}

/// Congruences can be multiplied.
pub proof fn lemma_congruent_mul(a: int, b: int, c: int, d: int, m: int)
    requires
        m > 0,
        a % m == b % m,
        c % m == d % m,
    ensures
        (a * c) % m == (b * d) % m,
{
    lemma_mul_mod_noop_general(a, c, m);
    lemma_mul_mod_noop_general(b, d, m);
}

/// Congruences can be raised to a power.
pub proof fn lemma_congruent_pow(a: int, b: int, e: nat, m: int)
    requires
        m > 0,
        a % m == b % m,
    ensures
        pow(a, e) % m == pow(b, e) % m,
{
    lemma_pow_mod_noop(a, e, m);
    lemma_pow_mod_noop(b, e, m);
}

// ---------------------------------------------------------------------------
// Euclid's lemma
// ---------------------------------------------------------------------------

proof fn lemma_euclid_reduced(a: int, b: int, p: int)
    requires
        is_prime(p),
        0 < a < p,
        (a * b) % p == 0,
    ensures
        b % p == 0,
    decreases a,
{
    if a > 1 {
        let q = p / a;
        let r = p % a;
        lemma_fundamental_div_mod(p, a);
        lemma_mod_bound(p, a);
        let k = lemma_quotient(a * b, p);
        assert(r * b == (b - q * k) * p) by (nonlinear_arith)
            requires
                p == a * q + r,
                a * b == k * p,
        ;
        lemma_multiple(r * b, b - q * k, p);
        lemma_euclid_reduced(r, b, p);
    } else {
        lemma_mul_basics(b);
    }
}

/// Euclid's lemma: a prime that divides a product divides one of its factors.
pub proof fn lemma_euclid(a: int, b: int, p: int)
    requires
        is_prime(p),
        (a * b) % p == 0,
    ensures
        a % p == 0 || b % p == 0,
{
    if a % p != 0 {
        lemma_mod_bound(a, p);
        lemma_mul_mod_noop_left(a, b, p);
        lemma_euclid_reduced(a % p, b, p);
    }
}

/// A factor that a prime does not divide can be cancelled modulo that prime.
pub proof fn lemma_cancel(a: int, b: int, c: int, p: int)
    requires
        is_prime(p),
        c % p != 0,
        (a * c) % p == (b * c) % p,
    ensures
        a % p == b % p,
{
    lemma_congruent_difference(a * c, b * c, p);
    lemma_mul_is_distributive_sub_other_way(c, a, b);
    lemma_euclid(a - b, c, p);
    lemma_congruent_difference(a, b, p);
}

// ---------------------------------------------------------------------------
// Fermat's little theorem
// ---------------------------------------------------------------------------

spec fn times() -> spec_fn(int, int) -> int {
    |x: int, acc: int| x * acc
}

/// Product of the numbers in a sequence.
spec fn product(s: Seq<int>) -> int {
    s.fold_right(times(), 1)
}

/// The residues of `a, 2a, ..., ka` modulo `p`.
spec fn multiples(a: int, p: int, k: nat) -> Seq<int> {
    Seq::new(k, |i: int| (a * (i + 1)) % p)
}

proof fn lemma_times_commutes()
    ensures
        commutative_foldr(times()),
{
    assert forall|x: int, y: int, v: int| #[trigger]
        times()(x, times()(y, v)) == times()(y, times()(x, v)) by {
        assert(x * (y * v) == y * (x * v)) by (nonlinear_arith);
    }
}

proof fn lemma_product_push(s: Seq<int>, x: int)
    ensures
        product(s.push(x)) == product(s) * x,
{
    lemma_times_commutes();
    assert(s.push(x).drop_last() =~= s);
    s.lemma_fold_right_commute_one(x, times(), 1);
    lemma_mul_is_commutative(product(s), x);
}

/// Up to a factor `a` each, the residues of the multiples of `a` multiply to
/// what the residues of the multiples of one multiply to.
proof fn lemma_product_of_multiples(a: int, p: int, k: nat)
    requires
        p > 1,
    ensures
        product(multiples(a, p, k)) % p == (pow(a, k) * product(multiples(1, p, k))) % p,
    decreases k,
{
    let left = multiples(a, p, k);
    let right = multiples(1, p, k);
    reveal(pow);
    if k == 0 {
        assert(left =~= right);
        lemma_mul_basics(product(right));
    } else {
        let j = (k - 1) as nat;
        let left_j = multiples(a, p, j);
        let right_j = multiples(1, p, j);
        let x = (a * k) % p;
        let y = (1 * k as int) % p;
        assert(left =~= left_j.push(x));
        assert(right =~= right_j.push(y));
        lemma_product_push(left_j, x);
        lemma_product_push(right_j, y);
        lemma_product_of_multiples(a, p, j);
        lemma_mod_twice(a * k, p);
        lemma_congruent_mul(product(left_j), pow(a, j) * product(right_j), x, a * k, p);
        assert((pow(a, j) * product(right_j)) * (a * k) == (pow(a, j) * a) * (product(right_j) * k))
            by (nonlinear_arith);
        lemma_mul_is_commutative(pow(a, j), a);
        assert(pow(a, k) == a * pow(a, j));
        lemma_mod_twice(1 * k as int, p);
        lemma_congruent_mul(product(right_j), product(right_j), y, k as int, p);
        lemma_congruent_mul(
            pow(a, k),
            pow(a, k),
            product(right_j) * y,
            product(right_j) * k,
            p,
        );
    }
}

/// The product of the first `k` positive numbers is not divisible by a prime
/// greater than `k`.
proof fn lemma_product_not_divisible(p: int, k: nat)
    requires
        is_prime(p),
        k < p,
    ensures
        product(multiples(1, p, k)) % p != 0,
    decreases k,
{
    let s = multiples(1, p, k);
    if k == 0 {
        assert(product(s) == 1);
        lemma_small_mod(1, p as nat);
    } else {
        let j = (k - 1) as nat;
        lemma_small_mod(k, p as nat);
        assert(s =~= multiples(1, p, j).push(k as int));
        lemma_product_push(multiples(1, p, j), k as int);
        lemma_product_not_divisible(p, j);
        if product(s) % p == 0 {
            lemma_euclid(product(multiples(1, p, j)), k as int, p);
        }
    }
}

/// For a prime `p` that does not divide `a`, the residues of `a, 2a, ...,
/// (p-1)a` are the numbers from one to `p - 1` in some order.
proof fn lemma_multiples_permute(a: int, p: int)
    requires
        is_prime(p),
        a % p != 0,
    ensures
        multiples(a, p, (p - 1) as nat).no_duplicates(),
        multiples(a, p, (p - 1) as nat).to_set() == set_int_range(1, p),
{
    let s = multiples(a, p, (p - 1) as nat);
    assert forall|i: int, j: int| 0 <= i < s.len() && 0 <= j < s.len() && i != j implies s[i]
        != s[j] by {
        if s[i] == s[j] {
            lemma_mul_is_commutative(a, i + 1);
            lemma_mul_is_commutative(a, j + 1);
            lemma_cancel(i + 1, j + 1, a, p);
            lemma_small_mod((i + 1) as nat, p as nat);
            lemma_small_mod((j + 1) as nat, p as nat);
        }
    }
    s.unique_seq_to_set();
    lemma_int_range(1, p);
    assert forall|x: int| s.to_set().contains(x) implies set_int_range(1, p).contains(x) by {
        let i = choose|i: int| 0 <= i < s.len() && s[i] == x;
        lemma_mod_bound(a * (i + 1), p);
        if x == 0 {
            lemma_euclid(a, i + 1, p);
            lemma_small_mod((i + 1) as nat, p as nat);
        }
    }
    seq_to_set_is_finite(s);
    lemma_subset_equality(s.to_set(), set_int_range(1, p));
}

/// Fermat's little theorem.
pub proof fn lemma_fermat(a: int, p: int)
    requires
        is_prime(p),
        a % p != 0,
    ensures
        pow(a, (p - 1) as nat) % p == 1,
{
    let k = (p - 1) as nat;
    let left = multiples(a, p, k);
    let right = multiples(1, p, k);
    lemma_small_mod(1, p as nat);
    lemma_multiples_permute(a, p);
    lemma_multiples_permute(1, p);
    left.lemma_multiset_has_no_duplicates();
    right.lemma_multiset_has_no_duplicates();
    assert(left.to_multiset() =~= right.to_multiset()) by {
        broadcast use group_to_multiset_ensures;

        assert forall|x: int| left.to_multiset().count(x) == right.to_multiset().count(x) by {
            assert(left.contains(x) <==> left.to_set().contains(x));
            assert(right.contains(x) <==> right.to_set().contains(x));
        }
    }
    lemma_times_commutes();
    lemma_fold_right_permutation(left, right, times(), 1);
    lemma_product_of_multiples(a, p, k);
    lemma_product_not_divisible(p, k);
    lemma_mul_basics(product(right));
    lemma_cancel(pow(a, k), 1, product(right), p);
}

/// Raising to the power `p` keeps every residue of a prime `p`, and so does
/// every exponent that is one more than a multiple of `p - 1`.
pub proof fn lemma_fermat_exponent(m: int, p: int, e: nat, k: nat)
    requires
        is_prime(p),
        e == 1 + k * (p - 1),
    ensures
        pow(m, e) % p == m % p,
{
    let step = (p - 1) as nat;
    lemma_mul_is_commutative(k as int, step as int);
    lemma_pow_adds(m, 1, step * k);
    lemma_pow1(m);
    if m % p == 0 {
        lemma_congruent_mul(m, 0, pow(m, step * k), pow(m, step * k), p);
        lemma_small_mod(0, p as nat);
    } else {
        lemma_fermat(m, p);
        lemma_pow_multiplies(m, step, k);
        lemma_small_mod(1, p as nat);
        lemma_congruent_pow(pow(m, step), 1, k, p);
        lemma1_pow(k);
        lemma_congruent_mul(m, m, pow(m, step * k), 1, p);
    }
}

/// A divisor and a prime that does not divide that divisor divide together.
pub proof fn lemma_prime_factors_multiply(x: int, m: int, q: int)
    requires
        is_prime(q),
        m > 0,
        x % m == 0,
        x % q == 0,
        m % q != 0,
    ensures
        x % (m * q) == 0,
{
    let k = lemma_quotient(x, m);
    lemma_euclid(k, m, q);
    let j = lemma_quotient(k, q);
    assert(x == j * (m * q)) by (nonlinear_arith)
        requires
            x == k * m,
            k == j * q,
    ;
    lemma_mul_strictly_positive(m, q);
    lemma_multiple(x, j, m * q);
}

/// What RSA rests on: with a modulus that is the product of two different
/// primes, and exponents that are inverse to each other modulo `(p-1)(q-1)`,
/// raising to both exponents gives every residue back.
pub proof fn lemma_rsa(m: int, p: int, q: int, e: nat, d: nat)
    requires
        is_prime(p),
        is_prime(q),
        p != q,
        (e * d) % (((p - 1) * (q - 1)) as nat) == 1,
    ensures
        pow(pow(m, d) % (p * q), e) % (p * q) == m % (p * q),
{
    let n = p * q;
    let phi = (p - 1) * (q - 1);
    lemma_mul_strictly_positive(p, q);
    lemma_mul_strictly_positive(p - 1, q - 1);
    let k = (e * d) as int / phi;
    lemma_fundamental_div_mod((e * d) as int, phi);
    lemma_div_pos_is_pos((e * d) as int, phi);
    assert(d * e == e * d) by (nonlinear_arith);
    lemma_pow_mod_noop(pow(m, d), e, n);
    lemma_pow_multiplies(m, d, e);
    let x = pow(m, d * e);
    assert(d * e == 1 + (k * (q - 1)) * (p - 1) && d * e == 1 + (k * (p - 1)) * (q - 1))
        by (nonlinear_arith)
        requires
            d * e == e * d,
            e * d == phi * k + 1,
            phi == (p - 1) * (q - 1),
    ;
    lemma_mul_nonnegative(k, q - 1);
    lemma_mul_nonnegative(k, p - 1);
    lemma_fermat_exponent(m, p, d * e, (k * (q - 1)) as nat);
    lemma_fermat_exponent(m, q, d * e, (k * (p - 1)) as nat);
    lemma_congruent_difference(x, m, p);
    lemma_congruent_difference(x, m, q);
    assert(p % q != 0) by {
        if p < q {
            lemma_small_mod(p as nat, q as nat);
        } else {
            assert(p % q != 0);
        }
    }
    lemma_prime_factors_multiply(x - m, p, q);
    lemma_congruent_difference(x, m, n);
}

// ---------------------------------------------------------------------------
// Square roots of one, and the Miller-Rabin test
// ---------------------------------------------------------------------------

/// Modulo a prime, one has no square roots but one and minus one.
pub proof fn lemma_square_root_of_one(x: int, p: int)
    requires
        is_prime(p),
        0 <= x < p,
        (x * x) % p == 1,
    ensures
        x == 1 || x == p - 1,
{
    lemma_small_mod(1, p as nat);
    lemma_congruent_difference(x * x, 1, p);
    assert((x - 1) * (x + 1) == x * x - 1) by (nonlinear_arith);
    lemma_euclid(x - 1, x + 1, p);
    if (x - 1) % p == 0 {
        lemma_congruent_difference(x, 1, p);
        lemma_small_mod(x as nat, p as nat);
    } else {
        let k = lemma_quotient(x + 1, p);
        assert(k == 1) by (nonlinear_arith)
            requires
                x + 1 == k * p,
                0 <= x < p,
        ;
        lemma_mul_basics(p);
    }
}

/// The number that is left of a square root chain after `i` squarings.
pub open spec fn squared(x: int, i: nat, n: int) -> int
    decreases i,
{
    if i == 0 {
        x % n
    } else {
        let y = squared(x, (i - 1) as nat, n);
        (y * y) % n
    }
}

/// Squaring `i` times raises to the power `2^i`.
pub proof fn lemma_squared_is_pow(b: int, t: nat, i: nat, n: int)
    requires
        n > 0,
    ensures
        squared(pow(b, t), i, n) == pow(b, t * pow(2, i) as nat) % n,
        pow(2, i) >= 1,
    decreases i,
{
    reveal(pow);
    if i == 0 {
        assert(pow(2, 0) == 1);
        lemma_mul_basics(t as int);
    } else {
        let j = (i - 1) as nat;
        lemma_squared_is_pow(b, t, j, n);
        let e = t * pow(2, j) as nat;
        assert(pow(2, i) == 2 * pow(2, j));
        assert(t * pow(2, i) as nat == e + e) by (nonlinear_arith)
            requires
                e == t * pow(2, j) as nat,
                pow(2, i) == 2 * pow(2, j),
                pow(2, j) >= 1,
        ;
        lemma_pow_adds(b, e, e);
        lemma_mul_mod_noop_general(pow(b, e), pow(b, e), n);
    }
}

/// `n` behaves towards the base `b` as an odd prime does: with `n - 1` written
/// as `t * 2^s`, either `b^t` is one, or squaring it fewer than `s` times
/// reaches minus one.
pub open spec fn strong_probable_prime(n: int, b: int, t: nat, s: nat) -> bool {
    ||| pow(b, t) % n == 1
    ||| exists|i: nat| i < s && #[trigger] squared(pow(b, t), i, n) == n - 1
}

/// A prime passes the test for every base that it does not divide.
pub proof fn lemma_prime_passes(n: int, b: int, t: nat, s: nat)
    requires
        is_prime(n),
        b % n != 0,
        n - 1 == t * pow(2, s),
    ensures
        strong_probable_prime(n, b, t, s),
{
    lemma_fermat(b, n);
    lemma_squared_is_pow(b, t, s, n);
    lemma_prime_passes_from(n, b, t, s);
}

proof fn lemma_prime_passes_from(n: int, b: int, t: nat, s: nat)
    requires
        is_prime(n),
        squared(pow(b, t), s, n) == 1,
    ensures
        strong_probable_prime(n, b, t, s),
    decreases s,
{
    if s > 0 {
        let i = (s - 1) as nat;
        let y = squared(pow(b, t), i, n);
        lemma_mod_bound(pow(b, t), n);
        if i > 0 {
            let z = squared(pow(b, t), (i - 1) as nat, n);
            lemma_mod_bound(z * z, n);
        }
        lemma_square_root_of_one(y, n);
        if y == 1 {
            lemma_prime_passes_from(n, b, t, i);
            if pow(b, t) % n != 1 {
                let k = choose|k: nat| k < i && #[trigger] squared(pow(b, t), k, n) == n - 1;
                assert(k < s && squared(pow(b, t), k, n) == n - 1);
            }
        }
    }
}

// ---------------------------------------------------------------------------
// Greatest common divisors and least divisors
// ---------------------------------------------------------------------------

/// The greatest common divisor divides both numbers.
pub proof fn lemma_gcd_divides(a: nat, b: nat)
    requires
        a > 0 || b > 0,
    ensures
        gcd(a, b) > 0,
        a % gcd(a, b) == 0,
        b % gcd(a, b) == 0,
    decreases b,
{
    if b == 0 {
        lemma_mod_self_0(a as int);
    } else {
        lemma_gcd_divides(b, a % b);
        let g = gcd(a, b) as int;
        let k = lemma_quotient(b as int, g);
        let j = lemma_quotient((a % b) as int, g);
        lemma_fundamental_div_mod(a as int, b as int);
        let q = a as int / b as int;
        assert(a == (q * k + j) * g) by (nonlinear_arith)
            requires
                a == b * q + a as int % b as int,
                b == k * g,
                a as int % b as int == j * g,
        ;
        lemma_multiple(a as int, q * k + j, g);
    }
}

/// The greatest common divisor does not depend on the order.
pub proof fn lemma_gcd_symmetric(a: nat, b: nat)
    ensures
        gcd(a, b) == gcd(b, a),
{
    if a < b {
        if a > 0 {
            lemma_small_mod(a, b);
        }
        lemma_small_mod(a, b);
    } else if b < a {
        lemma_small_mod(b, a);
    }
}

/// If two powers are one, so is the power to the greatest common divisor of the
/// exponents.
pub proof fn lemma_pow_gcd(x: int, a: nat, b: nat, m: int)
    requires
        m > 1,
        pow(x, a) % m == 1,
        pow(x, b) % m == 1,
    ensures
        pow(x, gcd(a, b)) % m == 1,
    decreases b,
{
    if b > 0 {
        let q = a / b;
        let r = a % b;
        lemma_fundamental_div_mod(a as int, b as int);
        lemma_pow_adds(x, b * q, r);
        lemma_pow_multiplies(x, b, q);
        lemma_small_mod(1, m as nat);
        lemma_congruent_pow(pow(x, b), 1, q, m);
        lemma1_pow(q);
        lemma_congruent_mul(pow(x, b * q), 1, pow(x, r), pow(x, r), m);
        lemma_pow_gcd(x, b, r, m);
    }
}

proof fn lemma_least_divisor_from(n: int, d: int) -> (r: int)
    requires
        2 <= d <= n,
        forall|c: int| 1 < c < d ==> #[trigger] (n % c) != 0,
    ensures
        d <= r <= n,
        n % r == 0,
        forall|c: int| 1 < c < r ==> #[trigger] (n % c) != 0,
    decreases n - d,
{
    if n % d == 0 {
        d
    } else {
        lemma_mod_self_0(n);
        lemma_least_divisor_from(n, d + 1)
    }
}

/// A number that is not a prime has a prime divisor up to its square root.
pub proof fn lemma_least_divisor(n: int) -> (r: int)
    requires
        n >= 2,
        !is_prime(n),
    ensures
        is_prime(r),
        n % r == 0,
        r * r <= n,
{
    let r = lemma_least_divisor_from(n, 2);
    let k = lemma_quotient(n, r);
    assert forall|c: int| 1 < c < r implies #[trigger] (r % c) != 0 by {
        if r % c == 0 {
            let j = lemma_quotient(r, c);
            assert(n == (k * j) * c) by (nonlinear_arith)
                requires
                    n == k * r,
                    r == j * c,
            ;
            lemma_multiple(n, k * j, c);
            assert(n % c != 0);
        }
    }
    let w = choose|w: int| 1 < w < n && #[trigger] (n % w) == 0;
    assert(r <= w);
    assert(1 < k) by (nonlinear_arith)
        requires
            n == k * r,
            r < n,
            r >= 2,
    ;
    if r * r > n {
        assert(k < r) by (nonlinear_arith)
            requires
                n == k * r,
                r * r > n,
                r >= 2,
        ;
        lemma_mul_is_commutative(k, r);
        lemma_multiple(n, r, k);
        assert(n % k != 0);
    }
    r
}

// ---------------------------------------------------------------------------
// Powers of two
// ---------------------------------------------------------------------------

/// How often two divides a number; nothing is counted for zero.
pub open spec fn twos(m: nat) -> nat
    decreases m,
{
    if m == 0 || m % 2 == 1 {
        0
    } else {
        1 + twos(m / 2)
    }
}

/// What is left of a number when every factor of two is taken out.
pub open spec fn odd_part(m: nat) -> nat
    decreases m,
{
    if m == 0 || m % 2 == 1 {
        m
    } else {
        odd_part(m / 2)
    }
}

pub proof fn lemma_odd_part(m: nat)
    ensures
        m == odd_part(m) * pow(2, twos(m)),
        m > 0 ==> odd_part(m) % 2 == 1,
    decreases m,
{
    reveal(pow);
    if m > 0 && m % 2 == 0 {
        lemma_odd_part(m / 2);
        let w = pow(2, twos(m / 2));
        assert(pow(2, twos(m)) == 2 * w);
        assert(odd_part(m) * (2 * w) == 2 * (odd_part(m) * w)) by (nonlinear_arith);
    } else {
        assert(pow(2, 0) == 1);
    }
}

/// There is one way only to write a number as an odd number times a power of
/// two.
pub proof fn lemma_twos_unique(m: nat, k: nat)
    requires
        m > 0,
        m as int % pow(2, k) == 0,
        (m as int / pow(2, k)) % 2 == 1,
    ensures
        k == twos(m),
        m as int / pow(2, k) == odd_part(m),
    decreases k,
{
    lemma_pow_positive(2, k);
    let q = lemma_quotient(m as int, pow(2, k));
    if k == 0 {
        lemma_pow0(2);
        assert(q == m);
    } else {
        let j = (k - 1) as nat;
        lemma_pow_positive(2, j);
        assert(pow(2, k) == 2 * pow(2, j)) by {
            reveal(pow);
        }
        assert(m == 2 * (q * pow(2, j))) by (nonlinear_arith)
            requires
                m == q * pow(2, k),
                pow(2, k) == 2 * pow(2, j),
        ;
        assert((m / 2) as int == q * pow(2, j));
        lemma_multiple((m / 2) as int, q, pow(2, j));
        lemma_div_multiples_vanish(q, pow(2, j));
        lemma_mul_is_commutative(q, pow(2, j));
        lemma_twos_unique(m / 2, j);
    }
}

/// Every common divisor divides the greatest.
pub proof fn lemma_gcd_is_greatest(a: nat, b: nat, c: nat)
    requires
        c > 0,
        a % c == 0,
        b % c == 0,
    ensures
        gcd(a, b) % c == 0,
    decreases b,
{
    if b > 0 {
        let k = lemma_quotient(b as int, c as int);
        let j = lemma_quotient(a as int, c as int);
        lemma_fundamental_div_mod(a as int, b as int);
        let q = a as int / b as int;
        let r = a as int % b as int;
        assert(r == (j - q * k) * c) by (nonlinear_arith)
            requires
                a == b * q + r,
                b == k * c,
                a == j * c,
        ;
        lemma_multiple(r, j - q * k, c as int);
        lemma_gcd_is_greatest(b, a % b, c);
    }
}

} // verus!
