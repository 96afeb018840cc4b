//! The multiplicative group modulo a safe prime, in which the parties of the
//! blinding protocol work: modular exponentiation, the primitive-root test,
//! hashing a value to an element that passes that test, the primality of
//! the modulus and of its factors, and the commutativity of blinding.

use vstd::arithmetic::div_mod::*;
use vstd::arithmetic::power::*;
use vstd::prelude::*;

use crate::bytes::{be_u32_prefix, be_u64_from_prefix, be_u64_prefix, u32_be, u32_to_be_bytes, u64_be, u64_to_be_bytes};
use crate::crypto::{sha256, sha256_digest};

verus! {

/// The safe prime of the group.
pub const P: u64 = 4294967387;

/// The distinct prime factors of `P - 1`.
pub const P_MINUS_1_FACTORS: [u64; 2] = [2, 2147483693];

/// The secret exponent of the first party.
pub const ALICE_SECRET: u64 = 6;

/// The secret exponent of the second party.
pub const BOB_SECRET: u64 = 3;

/// One step of square-and-multiply keeps `r * b^e` fixed modulo `m`.
proof fn lemma_square_multiply_step(r: int, b: int, e: nat, m: int)
    requires
        m > 0,
        0 <= r < m,
    ensures
        (r * pow(b, e)) % m == ((if e % 2 == 1 { (r * b) % m } else { r }) * pow(
            (b * b) % m,
            e / 2,
        )) % m,
{
    let half = e / 2;
    let odd: nat = e % 2;
    assert(e == odd + 2 * half);
    lemma_pow_adds(b, odd, 2 * half);
    lemma_pow_multiplies(b, 2, half);
    assert(pow(b, 2) == b * b) by {
        lemma_pow1(b);
        lemma_pow_adds(b, 1, 1);
    }
    let bb = pow(b * b, half);
    assert(pow(b, e) == pow(b, odd) * bb);
    let r2 = if e % 2 == 1 { (r * b) % m } else { r };
    assert(r2 % m == (r * pow(b, odd)) % m) by {
        if odd == 1 {
            lemma_pow1(b);
            lemma_mod_twice(r * b, m);
        } else {
            lemma_pow0(b);
            lemma_small_mod(r as nat, m as nat);
        }
    }
    lemma_pow_mod_noop(b * b, half, m);
    assert((r * pow(b, e)) % m == ((r * pow(b, odd)) * bb) % m) by {
        vstd::arithmetic::mul::lemma_mul_is_associative(r, pow(b, odd), bb);
    }
    lemma_mul_mod_noop(r * pow(b, odd), bb, m);
    lemma_mul_mod_noop(r2, pow((b * b) % m, half), m);
    lemma_mod_twice(pow((b * b) % m, half), m);
}

/// `base` raised to `exp`, modulo `modulus`, by square-and-multiply.
pub fn modulus_pow(base: u64, exp: u64, modulus: u64) -> (r: u64)
    requires
        modulus > 0,
    ensures
        r == pow(base as int, exp as nat) % (modulus as int),
        r < modulus,
{
    if modulus == 1 {
        return 0;
    }
    let ghost m = modulus as int;
    let ghost target = pow(base as int, exp as nat) % m;
    let mut result: u64 = 1;
    let mut b: u64 = base % modulus;
    let mut e: u64 = exp;
    proof {
        lemma_pow_mod_noop(base as int, exp as nat, m);
        lemma_small_mod(1, modulus as nat);
        lemma_mul_mod_noop_right(1, pow(b as int, e as nat), m);
    }
    while e > 0
        invariant
            m == modulus as int,
            modulus > 1,
            result < modulus,
            b < modulus,
            (result * pow(b as int, e as nat)) % m == target,
        decreases e,
    {
        proof {
            lemma_square_multiply_step(result as int, b as int, e as nat, m);
        }
        assert(e & 1 == e % 2) by (bit_vector);
        if e & 1 == 1 {
            assert((result as u128) * (b as u128) <= u128::MAX) by (nonlinear_arith)
                requires
                    result < modulus,
                    b < modulus,
            ;
            result = ((result as u128 * b as u128) % modulus as u128) as u64;
        }
        assert(e >> 1 == e / 2) by (bit_vector);
        e = e >> 1;
        assert((b as u128) * (b as u128) <= u128::MAX) by (nonlinear_arith)
            requires
                b < modulus,
        ;
        b = ((b as u128 * b as u128) % modulus as u128) as u64;
    }
    proof {
        lemma_pow0(b as int);
        lemma_small_mod(result as nat, modulus as nat);
    }
    result
}

/// `g` passes the primitive-root test modulo `P`: its residue
/// `r = g mod P` is neither `0`, `1` nor `P - 1`, and for every distinct
/// prime factor `q` of `P - 1`, `r^((P - 1) / q) mod P != 1`.
/// `lemma_p_minus_1_factorization` proves `P` prime and the listed factors
/// the prime factorisation of `P - 1`; that passing the test then means
/// having multiplicative order `P - 1` is the group-theoretic criterion,
/// which is not proved here.
pub open spec fn passes_primitive_root_test(g: u64) -> bool {
    let r = g % P;
    &&& r > 1
    &&& r != P - 1
    &&& forall|i: int|
        0 <= i < P_MINUS_1_FACTORS@.len() ==> #[trigger] pow(
            r as int,
            ((P - 1) / (P_MINUS_1_FACTORS@[i] as int)) as nat,
        ) % (P as int) != 1
}

/// True iff `g` passes the primitive-root test modulo `P` (see
/// `passes_primitive_root_test`). The test works on the residue of `g`
/// modulo `P`, so multiples of `P` are rejected.
pub fn is_primitive_root(g: u64) -> (r: bool)
    ensures
        r == passes_primitive_root_test(g),
{
    let residue: u64 = g % P;
    if residue <= 1 || residue == P - 1 {
        return false;
    }
    let phi: u64 = P - 1;
    let factors: [u64; 2] = P_MINUS_1_FACTORS;
    assert(factors@ == seq![2u64, 2147483693u64]);
    let mut i: usize = 0;
    while i < 2
        invariant
            i <= 2,
            residue == g % P,
            residue > 1,
            residue != P - 1,
            phi == P - 1,
            factors@ == P_MINUS_1_FACTORS@,
            factors@ == seq![2u64, 2147483693u64],
            forall|j: int|
                0 <= j < i ==> #[trigger] pow(residue as int, ((P - 1) / (P_MINUS_1_FACTORS@[j] as int)) as nat)
                    % (P as int) != 1,
        decreases 2 - i,
    {
        let q: u64 = factors[i];
        if modulus_pow(residue, phi / q, P) == 1 {
            assert(pow(residue as int, ((P - 1) / (P_MINUS_1_FACTORS@[i as int] as int)) as nat) % (
            P as int) == 1);
            return false;
        }
        i = i + 1;
    }
    true
}

/// The bytes hashed for `input` at `counter`: the big-endian bytes of
/// `input` followed by those of `counter`.
pub open spec fn counter_message(input: u32, counter: u64) -> Seq<u8> {
    u32_be(input) + u64_be(counter)
}

/// The candidate group element for `input` at `counter`: the first eight
/// bytes of the SHA-256 digest of the counter message, read big-endian and
/// reduced modulo `P`.
pub open spec fn group_candidate(input: u32, counter: u64) -> u64 {
    be_u64_prefix(sha256(counter_message(input, counter))) % P
}

/// `counter` is the first counter whose candidate for `input` passes the
/// primitive-root test.
pub open spec fn is_first_root_counter(input: u32, counter: u64) -> bool {
    &&& passes_primitive_root_test(group_candidate(input, counter))
    &&& forall|d: u64| d < counter ==> !passes_primitive_root_test(#[trigger] group_candidate(input, d))
}

/// What hashing `input` to the group gives: the candidate at the first
/// counter whose candidate passes the primitive-root test, or `None` when no
/// counter does.
pub open spec fn group_element(input: u32) -> Option<u64> {
    if exists|c: u64| passes_primitive_root_test(#[trigger] group_candidate(input, c)) {
        Some(group_candidate(input, choose|c: u64| is_first_root_counter(input, c)))
    } else {
        None
    }
}

/// The candidate that a digest stands for: its first eight bytes read
/// big-endian, reduced modulo `P`.
pub fn candidate_from_digest(digest: &[u8]) -> (candidate: u64)
    requires
        digest@.len() >= 8,
    ensures
        candidate == be_u64_prefix(digest@) % P,
        candidate < P,
{
    let number = be_u64_from_prefix(digest);
    number % P
}

/// Two first root counters of one input are the same counter.
proof fn lemma_first_root_counter_unique(input: u32, c1: u64, c2: u64)
    requires
        is_first_root_counter(input, c1),
        is_first_root_counter(input, c2),
    ensures
        c1 == c2,
{
    if c1 < c2 {
        assert(!passes_primitive_root_test(group_candidate(input, c1)));
    } else if c2 < c1 {
        assert(!passes_primitive_root_test(group_candidate(input, c2)));
    }
}

/// Maps `input` deterministically to a primitive root modulo `P`: hashes
/// `input || counter` for counter `0, 1, ...` and returns the first
/// candidate that passes the primitive-root test. `None` when no `u64`
/// counter yields one.
pub fn map_to_group(input: &u32) -> (g: Option<u64>)
    ensures
        g == group_element(*input),
        g matches Some(root) ==> passes_primitive_root_test(root) && root < P,
        g is None ==> forall|c: u64| !passes_primitive_root_test(#[trigger] group_candidate(*input, c)),
{
    let mut counter: u64 = 0;
    loop
        invariant
            forall|d: u64| d < counter ==> !passes_primitive_root_test(#[trigger] group_candidate(*input, d)),
        decreases u64::MAX - counter,
    {
        let mut message = u32_to_be_bytes(*input);
        let mut tail = u64_to_be_bytes(counter);
        message.append(&mut tail);
        assert(message@ == counter_message(*input, counter));
        let digest = sha256_digest(message.as_slice());
        let candidate = candidate_from_digest(digest.as_slice());
        assert(candidate == group_candidate(*input, counter));
        if is_primitive_root(candidate) {
            proof {
                assert(is_first_root_counter(*input, counter));
                let c = choose|c: u64| is_first_root_counter(*input, c);
                lemma_first_root_counter_unique(*input, c, counter);
            }
            return Some(candidate);
        }
        if counter == u64::MAX {
            assert forall|c: u64| !passes_primitive_root_test(#[trigger] group_candidate(*input, c)) by {
                if c < counter {
                } else {
                    assert(c == counter);
                }
            }
            return None;
        }
        counter = counter + 1;
    }
}

/// Every input that some counter maps to an element passing the test has a
/// first such counter.
proof fn lemma_first_root_counter_exists(input: u32, c: u64)
    requires
        passes_primitive_root_test(group_candidate(input, c)),
    ensures
        exists|f: u64| is_first_root_counter(input, f),
    decreases c,
{
    if exists|d: u64| d < c && passes_primitive_root_test(#[trigger] group_candidate(input, d)) {
        let d = choose|d: u64| d < c && passes_primitive_root_test(#[trigger] group_candidate(input, d));
        lemma_first_root_counter_exists(input, d);
    } else {
        assert(is_first_root_counter(input, c));
    }
}

/// Hashing to the group gives, where it gives anything, an element of
/// `2..P - 1` that passes the primitive-root test, and the same one for the
/// same input.
pub proof fn lemma_group_element_passes_root_test(input: u32)
    ensures
        group_element(input) matches Some(g) ==> passes_primitive_root_test(g) && 1 < g < P - 1
            && exists|c: u64| is_first_root_counter(input, c) && g == group_candidate(input, c),
{
    if exists|c: u64| passes_primitive_root_test(#[trigger] group_candidate(input, c)) {
        let c = choose|c: u64| passes_primitive_root_test(#[trigger] group_candidate(input, c));
        lemma_first_root_counter_exists(input, c);
        let f = choose|f: u64| is_first_root_counter(input, f);
        assert(is_first_root_counter(input, f));
        assert(group_candidate(input, f) < P);
    }
}

/// Blinding is commutative: raising `g` to `a` and then to `b` modulo `m`
/// gives what raising it to `b` and then to `a` gives. Two parties that
/// blind the same group element with their secrets, each in turn, meet at
/// the same value.
pub proof fn lemma_blinding_commutes(g: int, a: nat, b: nat, m: int)
    requires
        m > 0,
    ensures
        pow(pow(g, a) % m, b) % m == pow(pow(g, b) % m, a) % m,
        pow(pow(g, a) % m, b) % m == pow(g, a * b) % m,
{
    lemma_pow_mod_noop(pow(g, a), b, m);
    lemma_pow_mod_noop(pow(g, b), a, m);
    lemma_pow_multiplies(g, a, b);
    lemma_pow_multiplies(g, b, a);
    vstd::arithmetic::mul::lemma_mul_is_commutative(a as int, b as int);
}

/// `n` is prime: greater than `1`, with no divisor strictly between `1`
/// and `n`.
pub open spec fn is_prime(n: nat) -> bool {
    n > 1 && forall|d: nat| 1 < d < n ==> #[trigger] (n % d) != 0
}

/// No product of a number in `2..=65536` and a `u32` is `P`.
#[verifier::rlimit(100)]
proof fn lemma_no_small_factor_of_p()
    by (bit_vector)
    ensures
        forall|a: u32, b: u64|
            2 <= a && a <= 65536 && b <= 0xffff_ffff ==> #[trigger] ((a as u64) * b)
                != 4294967387u64,
{
}

/// No product of a number in `2..=46341` and a number below `2^31` is the
/// large factor of `P - 1`.
#[verifier::rlimit(100)]
proof fn lemma_no_small_factor_of_q()
    by (bit_vector)
    ensures
        forall|a: u32, b: u32|
            2 <= a && a <= 46341 && b <= 0x7fff_ffff ==> #[trigger] ((a as u64) * (b as u64))
                != 2147483693u64,
{
}

/// A number with a divisor strictly between `1` and itself has one pair
/// of cofactors whose smaller member is below `bound` and whose larger is
/// at most half the number, where `bound * bound > n`.
proof fn lemma_small_cofactor(n: nat, d: nat, bound: nat) -> (pair: (nat, nat))
    requires
        1 < d < n,
        n % d == 0,
        bound * bound > n,
    ensures
        pair.0 * pair.1 == n,
        2 <= pair.0 < bound,
        2 * pair.1 <= n,
{
    let e = n / d;
    lemma_fundamental_div_mod(n as int, d as int);
    assert(d * e == n);
    assert(e >= 2) by (nonlinear_arith)
        requires
            d * e == n,
            1 < d < n,
    ;
    if d <= e {
        assert(d < bound) by (nonlinear_arith)
            requires
                d <= e,
                d * e == n,
                bound * bound > n,
                d >= 2,
        ;
        assert(2 * e <= n) by (nonlinear_arith)
            requires
                d * e == n,
                d >= 2,
        ;
        (d, e)
    } else {
        assert(e < bound) by (nonlinear_arith)
            requires
                e < d,
                d * e == n,
                bound * bound > n,
                e >= 2,
        ;
        assert(2 * d <= n) by (nonlinear_arith)
            requires
                d * e == n,
                e >= 2,
        ;
        assert(e * d == n) by (nonlinear_arith)
            requires
                d * e == n,
        ;
        (e, d)
    }
}

/// The factors listed for `P - 1` are its factorisation into primes, and
/// `P` itself is prime: the facts on which the primitive-root test rests.
pub proof fn lemma_p_minus_1_factorization()
    ensures
        P_MINUS_1_FACTORS@.len() == 2,
        P_MINUS_1_FACTORS@[0] * P_MINUS_1_FACTORS@[1] == P - 1,
        (P - 1) % (P_MINUS_1_FACTORS@[0] as int) == 0,
        (P - 1) % (P_MINUS_1_FACTORS@[1] as int) == 0,
        is_prime(P as nat),
        is_prime(P_MINUS_1_FACTORS@[0] as nat),
        is_prime(P_MINUS_1_FACTORS@[1] as nat),
{
    assert(P_MINUS_1_FACTORS@ == seq![2u64, 2147483693u64]);
    let p: nat = 4294967387;
    let q: nat = 2147483693;
    lemma_no_small_factor_of_p();
    lemma_no_small_factor_of_q();
    assert(65537nat * 65537nat == 4295098369nat) by (nonlinear_arith);
    assert(46341nat * 46341nat == 2147488281nat) by (nonlinear_arith);
    assert forall|d: nat| 1 < d < p implies #[trigger] (p % d) != 0 by {
        if p % d == 0 {
            let (a, b) = lemma_small_cofactor(p, d, 65537);
            assert(((a as u32) as u64) * (b as u64) != 4294967387u64);
        }
    }
    assert forall|d: nat| 1 < d < q implies #[trigger] (q % d) != 0 by {
        if q % d == 0 {
            let (a, b) = lemma_small_cofactor(q, d, 46341);
            assert(((a as u32) as u64) * ((b as u32) as u64) != 2147483693u64);
        }
    }
    assert forall|d: nat| 1 < d < 2 implies #[trigger] (2nat % d) != 0 by {
    }
}

/// The message hashed for `input` at `counter` encodes both in full: it is
/// twelve bytes long, its first four bytes read big-endian give back
/// `input`, and its last eight give back `counter`.
pub proof fn lemma_counter_message_encodes(input: u32, counter: u64)
    ensures
        counter_message(input, counter).len() == 12,
        be_u32_prefix(counter_message(input, counter)) == input,
        be_u64_prefix(counter_message(input, counter).subrange(4, 12)) == counter,
{
    let m = counter_message(input, counter);
    let t = m.subrange(4, 12);
    assert(m[0] == (input >> 24u32) as u8 && m[1] == (input >> 16u32) as u8 && m[2] == (input
        >> 8u32) as u8 && m[3] == input as u8);
    assert(t[0] == (counter >> 56u64) as u8 && t[1] == (counter >> 48u64) as u8 && t[2] == (
    counter >> 40u64) as u8 && t[3] == (counter >> 32u64) as u8 && t[4] == (counter >> 24u64) as u8
        && t[5] == (counter >> 16u64) as u8 && t[6] == (counter >> 8u64) as u8 && t[7]
        == counter as u8);
    assert(((((input >> 24u32) as u8) as u32) << 24u32) | ((((input >> 16u32) as u8) as u32)
        << 16u32) | ((((input >> 8u32) as u8) as u32) << 8u32) | ((input as u8) as u32) == input)
        by (bit_vector);
    assert(((((counter >> 56u64) as u8) as u64) << 56u64) | ((((counter >> 48u64) as u8) as u64)
        << 48u64) | ((((counter >> 40u64) as u8) as u64) << 40u64) | ((((counter >> 32u64) as u8)
        as u64) << 32u64) | ((((counter >> 24u64) as u8) as u64) << 24u64) | ((((counter
        >> 16u64) as u8) as u64) << 16u64) | ((((counter >> 8u64) as u8) as u64) << 8u64) | ((
    counter as u8) as u64) == counter) by (bit_vector);
}

/// Different inputs, or different counters, are hashed from different
/// messages: no two values of the domain share a candidate message.
pub proof fn lemma_counter_messages_distinct(input1: u32, counter1: u64, input2: u32, counter2: u64)
    requires
        input1 != input2 || counter1 != counter2,
    ensures
        counter_message(input1, counter1) != counter_message(input2, counter2),
{
    lemma_counter_message_encodes(input1, counter1);
    lemma_counter_message_encodes(input2, counter2);
}

/// The primitive-root test depends on `g` only through its residue
/// modulo `P`, and rejects `0`, `1` and `P - 1` and every value congruent to
/// them.
pub proof fn lemma_root_test_depends_on_residue(g: u64, h: u64)
    requires
        g % P == h % P,
    ensures
        passes_primitive_root_test(g) == passes_primitive_root_test(h),
        g % P == 0 || g % P == 1 || g % P == P - 1 ==> !passes_primitive_root_test(g),
{
}

} // verus!
