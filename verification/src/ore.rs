//! Order-revealing encryption of 32-bit values in the style of Lewi and Wu:
//! block `i` of a ciphertext is a pseudorandom value derived from the key,
//! the position and the bits above it, plus bit `i` itself, modulo `M`.
//! Comparing two ciphertexts block by block reveals the first position at
//! which the plaintexts differ.

use vstd::prelude::*;

use crate::bytes::{be_u32_from_prefix, be_u32_prefix, u128_be, u128_to_be_bytes, u32_be, u32_to_be_bytes};
use crate::crypto::{hmac_sha256, hmac_sha256_tag};
use crate::interval::{in_interval, Interval};

verus! {

/// The modulus of the ciphertext blocks.
pub const M: u32 = 3;

/// The bits of `p` above position `i` (positions counted from the most
/// significant bit, from `0`), with every other bit cleared.
pub open spec fn top_bits(p: u32, i: int) -> u32 {
    p & !(0xffff_ffffu32 >> (i as u32))
}

/// Bit `i` of `p`, counted from the most significant bit.
pub open spec fn bit_at(p: u32, i: int) -> u8 {
    ((p >> ((31 - i) as u32)) & 1u32) as u8
}

/// The bytes that the pseudorandom function authenticates: the position,
/// a `|` separator, and the big-endian bytes of the prefix.
pub open spec fn prf_message(corresponding_bit: u8, plaintext_fraction: u32) -> Seq<u8> {
    seq![corresponding_bit, 124u8] + u32_be(plaintext_fraction)
}

/// The pseudorandom value in `0..M`: the first four bytes of the
/// HMAC-SHA256 tag of the message under the big-endian key bytes, read
/// big-endian, modulo `M`.
pub open spec fn prf_spec(ore_key: u128, corresponding_bit: u8, plaintext_fraction: u32) -> u8 {
    (be_u32_prefix(hmac_sha256(u128_be(ore_key), prf_message(corresponding_bit, plaintext_fraction)))
        % M) as u8
}

/// Block `i` of the ciphertext of `plaintext`.
pub open spec fn ore_block(ore_key: u128, plaintext: u32, i: int) -> u8 {
    ((prf_spec(ore_key, i as u8, top_bits(plaintext, i)) + bit_at(plaintext, i)) % (M as int)) as u8
}

/// The ciphertext of `plaintext`: its 32 blocks.
pub open spec fn ore_ciphertext(ore_key: u128, plaintext: u32) -> Seq<u8> {
    Seq::new(32, |i: int| ore_block(ore_key, plaintext, i))
}

/// The pseudorandom value that a tag stands for: its first four bytes read
/// big-endian, modulo `M`.
pub fn prf_from_tag(tag: &[u8]) -> (r: u8)
    requires
        tag@.len() >= 4,
    ensures
        r == (be_u32_prefix(tag@) % M) as u8,
        r < M,
{
    let hash_32_bits = be_u32_from_prefix(tag);
    let remainder = hash_32_bits % M;
    remainder as u8
}

/// The pseudorandom function of the scheme: HMAC-SHA256 under the
/// big-endian bytes of `ore_key` of the position, a `|` and the big-endian
/// bytes of the prefix, reduced to a value in `0..M`.
pub fn prf(ore_key: u128, corresponding_bit: u8, plaintext_fraction: u32) -> (r: u8)
    ensures
        r == prf_spec(ore_key, corresponding_bit, plaintext_fraction),
        r < M,
{
    let ore_key_bytes = u128_to_be_bytes(ore_key);
    let mut message: Vec<u8> = Vec::new();
    message.push(corresponding_bit);
    message.push(124u8);
    let mut plaintext_fraction_bytes = u32_to_be_bytes(plaintext_fraction);
    message.append(&mut plaintext_fraction_bytes);
    assert(message@ =~= prf_message(corresponding_bit, plaintext_fraction));
    let result = hmac_sha256_tag(ore_key_bytes.as_slice(), message.as_slice());
    prf_from_tag(result.as_slice())
}

/// Adding the bit at position `j` to the bits above it gives the bits above
/// position `j + 1`.
proof fn lemma_top_bits_step(p: u32, j: u32)
    requires
        j < 32,
    ensures
        (p & (0x8000_0000u32 >> j)) != 0 ==> top_bits(p, j as int) + (1u32 << (31 - j) as u32)
            == top_bits(p, j + 1) as int,
        (p & (0x8000_0000u32 >> j)) == 0 ==> top_bits(p, j as int) == top_bits(p, j + 1),
        top_bits(p, 0) == 0,
{
    assert((p & (0x8000_0000u32 >> j)) != 0 ==> (p & !(0xffff_ffffu32 >> j)) + (1u32 << (31
        - j) as u32) == (p & !(0xffff_ffffu32 >> ((j + 1) as u32))) as int) by (bit_vector)
        requires
            j < 32,
    ;
    assert((p & (0x8000_0000u32 >> j)) == 0 ==> (p & !(0xffff_ffffu32 >> j)) == (p & !(
    0xffff_ffffu32 >> ((j + 1) as u32)))) by (bit_vector)
        requires
            j < 32,
    ;
    assert((p & !(0xffff_ffffu32 >> 0u32)) == 0) by (bit_vector);
}

/// Encrypts the 32-bit plaintext into 32 blocks, one per bit.
pub fn ore_encrypt(ore_key: u128, plaintext: u32) -> (cyphertext: [u8; 32])
    ensures
        cyphertext@ == ore_ciphertext(ore_key, plaintext),
{
    let mut cyphertext = [0u8; 32];
    let one_in_first_pos: u32 = 1u32 << 31u32;
    assert(one_in_first_pos == 0x8000_0000u32) by (bit_vector)
        requires
            one_in_first_pos == 1u32 << 31u32,
    ;
    let mut i: u32 = 0;
    while i < 32
        invariant
            i <= 32,
            one_in_first_pos == 0x8000_0000u32,
            forall|k: int| 0 <= k < i ==> #[trigger] cyphertext@[k] == ore_block(ore_key, plaintext, k),
        decreases 32 - i,
    {
        let mut plaintext_fraction: u32 = 0;
        let i_th_bit: u8 = if (plaintext & (one_in_first_pos >> i)) != 0 {
            1
        } else {
            0
        };
        assert(i_th_bit == bit_at(plaintext, i as int)) by {
            assert(((plaintext & (0x8000_0000u32 >> i)) != 0) == (((plaintext >> (31 - i) as u32)
                & 1u32) == 1u32)) by (bit_vector)
                requires
                    i < 32,
            ;
            assert(((plaintext >> (31 - i) as u32) & 1u32) <= 1u32) by (bit_vector);
        }
        proof {
            lemma_top_bits_step(plaintext, 0);
        }
        let mut j: u32 = 0;
        while j < i
            invariant
                j <= i < 32,
                one_in_first_pos == 0x8000_0000u32,
                plaintext_fraction == top_bits(plaintext, j as int),
            decreases i - j,
        {
            let start_bit = one_in_first_pos >> j;
            let b_j = plaintext & start_bit;
            proof {
                lemma_top_bits_step(plaintext, j);
            }
            if b_j != 0 {
                plaintext_fraction += 1u32 << (31 - j);
            }
            j = j + 1;
        }
        let prf_result = prf(ore_key, i as u8, plaintext_fraction);
        cyphertext[i as usize] = (prf_result + i_th_bit) % (M as u8);
        i = i + 1;
    }
    assert(cyphertext@ =~= ore_ciphertext(ore_key, plaintext));
    cyphertext
}

/// Comparison of two block sequences from position `i` on, decided at the
/// first position where they differ: `-1` where the second block is the
/// first plus one modulo `M` (the first plaintext is the smaller), `1`
/// otherwise, and `0` where they do not differ.
pub open spec fn compare_from(a: Seq<u8>, b: Seq<u8>, i: int) -> i8
    decreases a.len() - i,
{
    if i < 0 || i >= a.len() {
        0
    } else if a[i] == b[i] {
        compare_from(a, b, i + 1)
    } else if b[i] == (a[i] + 1) % (M as int) {
        -1i8
    } else {
        1
    }
}

/// Comparison of two ciphertexts.
pub open spec fn ore_compare_spec(a: Seq<u8>, b: Seq<u8>) -> i8 {
    compare_from(a, b, 0)
}

/// Where two sequences agree before position `i`, comparing from `k <= i`
/// is comparing from `i`.
proof fn lemma_compare_skips_equal_prefix(a: Seq<u8>, b: Seq<u8>, k: int, i: int)
    requires
        0 <= k <= i <= a.len(),
        forall|j: int| 0 <= j < i ==> a[j] == b[j],
    ensures
        compare_from(a, b, k) == compare_from(a, b, i),
    decreases i - k,
{
    if k < i {
        lemma_compare_skips_equal_prefix(a, b, k + 1, i);
    }
}

/// Compares two ciphertexts at the first block where they differ: `-1` if
/// the second block is the first plus one modulo `M` (the first plaintext is
/// the smaller), `1` otherwise, `0` if the ciphertexts are equal. It is meant
/// for ciphertexts, whose blocks lie in `0..M`: on such inputs it is
/// antisymmetric (`lemma_compare_antisymmetric`); on blocks of `M` or more
/// it need not be.
pub fn ore_compare(ct_1: [u8; 32], ct_2: [u8; 32]) -> (r: i8)
    ensures
        r == ore_compare_spec(ct_1@, ct_2@),
{
    let mut i: usize = 0;
    while i < 32
        invariant
            i <= 32,
            forall|j: int| 0 <= j < i ==> ct_1@[j] == ct_2@[j],
        decreases 32 - i,
    {
        proof {
            lemma_compare_skips_equal_prefix(ct_1@, ct_2@, 0, i as int);
        }
        if ct_1[i] != ct_2[i] {
            if ct_2[i] as u32 == (ct_1[i] as u32 + 1) % M {
                return -1;
            }
            return 1;
        }
        i = i + 1;
    }
    proof {
        lemma_compare_skips_equal_prefix(ct_1@, ct_2@, 0, 32);
    }
    0
}

/// All blocks of `a` lie in `0..M`.
pub open spec fn blocks_in_range(a: Seq<u8>) -> bool {
    forall|j: int| 0 <= j < a.len() ==> #[trigger] a[j] < M
}

/// Comparison of block sequences with blocks in `0..M` (as ciphertexts
/// have) is antisymmetric: swapping the arguments negates the result.
pub proof fn lemma_compare_antisymmetric(a: Seq<u8>, b: Seq<u8>, i: int)
    requires
        a.len() == b.len(),
        blocks_in_range(a),
        blocks_in_range(b),
    ensures
        compare_from(a, b, i) == -(compare_from(b, a, i) as int),
    decreases a.len() - i,
{
    if 0 <= i < a.len() {
        assert(a[i] < M && b[i] < M);
        if a[i] == b[i] {
            lemma_compare_antisymmetric(a, b, i + 1);
        }
    }
}

/// Two block sequences of one length compare as `0` exactly when they are
/// equal; in particular a ciphertext compares as `0` with itself.
pub proof fn lemma_compare_zero_iff_equal(a: Seq<u8>, b: Seq<u8>)
    requires
        a.len() == b.len(),
    ensures
        ore_compare_spec(a, b) == 0 <==> a == b,
{
    lemma_compare_zero_from(a, b, 0);
    if ore_compare_spec(a, b) == 0 {
        assert(a =~= b);
    }
}

proof fn lemma_compare_zero_from(a: Seq<u8>, b: Seq<u8>, i: int)
    requires
        a.len() == b.len(),
        0 <= i <= a.len(),
    ensures
        compare_from(a, b, i) == 0 <==> forall|j: int| i <= j < a.len() ==> a[j] == b[j],
    decreases a.len() - i,
{
    if i < a.len() {
        lemma_compare_zero_from(a, b, i + 1);
        if compare_from(a, b, i) == 0 {
            assert forall|j: int| i <= j < a.len() implies a[j] == b[j] by {
                if j > i {
                }
            }
        }
    }
}

/// Position `i` is the first, counted from the most significant bit, at
/// which `x` and `y` differ.
pub open spec fn is_first_difference(x: u32, y: u32, i: int) -> bool {
    &&& 0 <= i < 32
    &&& top_bits(x, i) == top_bits(y, i)
    &&& bit_at(x, i) != bit_at(y, i)
}

/// Two different values have a first differing bit.
pub proof fn lemma_first_difference_exists(x: u32, y: u32)
    requires
        x != y,
    ensures
        exists|i: int| is_first_difference(x, y, i),
{
    assert(top_bits(x, 0) == top_bits(y, 0)) by {
        lemma_top_bits_step(x, 0);
        lemma_top_bits_step(y, 0);
    }
    lemma_first_difference_from(x, y, 0);
}

proof fn lemma_first_difference_from(x: u32, y: u32, i: u32)
    requires
        x != y,
        i <= 32,
        top_bits(x, i as int) == top_bits(y, i as int),
    ensures
        exists|f: int| is_first_difference(x, y, f),
    decreases 32 - i,
{
    if i == 32 {
        assert((x & !(0xffff_ffffu32 >> 32u32)) == x && (y & !(0xffff_ffffu32 >> 32u32)) == y)
            by (bit_vector);
    } else if bit_at(x, i as int) != bit_at(y, i as int) {
        assert(is_first_difference(x, y, i as int));
    } else {
        assert((x & !(0xffff_ffffu32 >> ((i + 1) as u32))) == (y & !(0xffff_ffffu32 >> ((i
            + 1) as u32)))) by (bit_vector)
            requires
                i < 32,
                (x & !(0xffff_ffffu32 >> i)) == (y & !(0xffff_ffffu32 >> i)),
                ((x >> ((31 - i) as u32)) & 1u32) as u8 == ((y >> ((31 - i) as u32)) & 1u32) as u8,
        ;
        lemma_first_difference_from(x, y, (i + 1) as u32);
    }
}

/// The order of two integers as a comparison result.
pub open spec fn order_of(x: u32, y: u32) -> i8 {
    if x < y {
        -1i8
    } else if x > y {
        1
    } else {
        0
    }
}

/// At the first bit `i` where `x` and `y` differ, with `x > y`: their
/// ciphertexts agree on every block before `i`, and block `i` of the
/// ciphertext of `x` is that of `y` plus one modulo `M`.
pub proof fn lemma_ore_blocks_at_first_difference(ore_key: u128, x: u32, y: u32, i: int)
    requires
        x > y,
        is_first_difference(x, y, i),
    ensures
        ore_ciphertext(ore_key, x).subrange(0, i) == ore_ciphertext(ore_key, y).subrange(0, i),
        ore_ciphertext(ore_key, x)[i] == (ore_ciphertext(ore_key, y)[i] + 1) % (M as int),
{
    lemma_first_difference_blocks(ore_key, x, y, i);
    let cx = ore_ciphertext(ore_key, x);
    let cy = ore_ciphertext(ore_key, y);
    assert(cx.subrange(0, i) =~= cy.subrange(0, i));
}

/// Blocks before the first differing bit agree; at that bit, the bit of
/// the greater value is `1` and that of the smaller is `0`.
proof fn lemma_first_difference_blocks(ore_key: u128, x: u32, y: u32, i: int)
    requires
        is_first_difference(x, y, i),
    ensures
        forall|j: int|
            0 <= j < i ==> #[trigger] ore_ciphertext(ore_key, x)[j] == ore_ciphertext(ore_key, y)[j],
        (x < y) == (bit_at(x, i) == 0),
        bit_at(x, i) <= 1,
        bit_at(y, i) <= 1,
        x != y,
{
    let cx = ore_ciphertext(ore_key, x);
    let cy = ore_ciphertext(ore_key, y);
    let iu = i as u32;
    assert forall|j: int| 0 <= j < i implies #[trigger] cx[j] == cy[j] by {
        let ju = j as u32;
        assert((x & !(0xffff_ffffu32 >> ju)) == (y & !(0xffff_ffffu32 >> ju)) && ((x >> ((31
            - ju) as u32)) & 1u32) == ((y >> ((31 - ju) as u32)) & 1u32)) by (bit_vector)
            requires
                ju < iu,
                iu < 32,
                (x & !(0xffff_ffffu32 >> iu)) == (y & !(0xffff_ffffu32 >> iu)),
        ;
    }
    assert((x < y) == (((x >> ((31 - iu) as u32)) & 1u32) == 0u32) && (((x >> ((31 - iu) as u32))
        & 1u32) <= 1u32) && (((y >> ((31 - iu) as u32)) & 1u32) <= 1u32)) by (bit_vector)
        requires
            iu < 32,
            (x & !(0xffff_ffffu32 >> iu)) == (y & !(0xffff_ffffu32 >> iu)),
            ((x >> ((31 - iu) as u32)) & 1u32) as u8 != ((y >> ((31 - iu) as u32)) & 1u32) as u8,
    ;
}

/// The first differing bit of two different values is the number of
/// leading zeros of their exclusive or.
pub proof fn lemma_first_difference_is_leading_zeros(x: u32, y: u32)
    requires
        x != y,
    ensures
        is_first_difference(x, y, (x ^ y).leading_zeros() as int),
{
    let v = x ^ y;
    vstd::std_specs::bits::axiom_u32_leading_zeros(v);
    let lz = v.leading_zeros();
    assert(v != 0) by (bit_vector)
        requires
            x != y,
            v == x ^ y,
    ;
    assert(lz < 32);
    assert((v >> ((31 - lz) as u32)) & 1u32 != 0u32);
    assert(v >> ((32 - lz) as u32) == 0);
    assert((x & !(0xffff_ffffu32 >> lz)) == (y & !(0xffff_ffffu32 >> lz)) && ((x >> ((31 - lz)
        as u32)) & 1u32) as u8 != ((y >> ((31 - lz) as u32)) & 1u32) as u8) by (bit_vector)
        requires
            lz < 32,
            v == x ^ y,
            (v >> ((31 - lz) as u32)) & 1u32 != 0u32,
            v >> ((32 - lz) as u32) == 0,
    ;
}

/// Comparing ciphertexts reveals the order of the plaintexts: under every
/// key, comparing the encryption of `x` with that of `y` gives `-1`, `0` or
/// `1` as `x` is smaller than, equal to or greater than `y`.
pub proof fn lemma_ore_compare_reveals_order(ore_key: u128, x: u32, y: u32)
    ensures
        ore_compare_spec(ore_ciphertext(ore_key, x), ore_ciphertext(ore_key, y)) == order_of(x, y),
{
    let cx = ore_ciphertext(ore_key, x);
    let cy = ore_ciphertext(ore_key, y);
    if x == y {
        lemma_compare_zero_iff_equal(cx, cy);
        return;
    }
    lemma_first_difference_exists(x, y);
    let i = choose|i: int| is_first_difference(x, y, i);
    lemma_first_difference_blocks(ore_key, x, y, i);
    lemma_compare_skips_equal_prefix(cx, cy, 0, i);
    let f = prf_spec(ore_key, i as u8, top_bits(x, i));
    assert(f < 3);
    assert(top_bits(x, i) == top_bits(y, i));
}

/// Ciphertext blocks lie in `0..M`.
pub proof fn lemma_ciphertext_blocks_in_range(ore_key: u128, x: u32)
    ensures
        ore_ciphertext(ore_key, x).len() == 32,
        blocks_in_range(ore_ciphertext(ore_key, x)),
{
}

/// The later of two beginnings.
pub open spec fn later(x: u32, y: u32) -> u32 {
    if x < y {
        y
    } else {
        x
    }
}

/// The earlier of two ends.
pub open spec fn earlier(x: u32, y: u32) -> u32 {
    if x < y {
        x
    } else {
        y
    }
}

/// The ciphertexts of the intersection of two intervals given as
/// `(lower, upper)`: that of the later beginning and that of the earlier end.
pub open spec fn ore_intersection_spec(ore_key: u128, alice: (u32, u32), bob: (u32, u32)) -> (
    Seq<u8>,
    Seq<u8>,
) {
    (
        ore_ciphertext(ore_key, later(alice.0, bob.0)),
        ore_ciphertext(ore_key, earlier(alice.1, bob.1)),
    )
}

/// Encrypts the bounds of both intervals and picks, by comparing
/// ciphertexts, the encrypted beginning and end of their intersection: the
/// encryption of the later beginning and of the earlier end.
pub fn compute_intersection_ore(ore_key: u128, alice: (u32, u32), bob: (u32, u32)) -> (r: (
    [u8; 32],
    [u8; 32],
))
    ensures
        r.0@ == ore_ciphertext(ore_key, later(alice.0, bob.0)),
        r.1@ == ore_ciphertext(ore_key, earlier(alice.1, bob.1)),
{
    let alice_begining = ore_encrypt(ore_key, alice.0);
    let bob_begining = ore_encrypt(ore_key, bob.0);
    let alice_end = ore_encrypt(ore_key, alice.1);
    let bob_end = ore_encrypt(ore_key, bob.1);
    proof {
        lemma_ore_compare_reveals_order(ore_key, alice.0, bob.0);
        lemma_ore_compare_reveals_order(ore_key, alice.1, bob.1);
    }
    let mut beginning = alice_begining;
    if ore_compare(alice_begining, bob_begining) == -1 {
        beginning = bob_begining;
    }
    let mut end = alice_end;
    if ore_compare(alice_end, bob_end) == 1 {
        end = bob_end;
    }
    (beginning, end)
}

/// The two intervals share at least one value.
pub open spec fn overlaps(alice: Interval, bob: Interval) -> bool {
    bob.lower <= alice.upper && alice.lower <= bob.upper
}

/// The encrypted intersection of two intervals.
pub open spec fn interval_pair_spec(ore_key: u128, alice: Interval, bob: Interval) -> (
    Seq<u8>,
    Seq<u8>,
) {
    ore_intersection_spec(ore_key, (alice.lower, alice.upper), (bob.lower, bob.upper))
}

/// What the scan of `alice` against the intervals of `bobs` from position
/// `j` on gives: it stops at the first interval that starts above the end of
/// `alice`, passes over those that end below its start, and encrypts the
/// intersection with every other one.
pub open spec fn ore_row(ore_key: u128, alice: Interval, bobs: Seq<Interval>, j: int) -> Seq<
    (Seq<u8>, Seq<u8>),
>
    decreases bobs.len() - j,
{
    if j < 0 || j >= bobs.len() || bobs[j].lower > alice.upper {
        seq![]
    } else if alice.lower > bobs[j].upper {
        ore_row(ore_key, alice, bobs, j + 1)
    } else {
        seq![interval_pair_spec(ore_key, alice, bobs[j])] + ore_row(ore_key, alice, bobs, j + 1)
    }
}

/// What the scans of the first `n` intervals of `first` against `second`
/// give, in order.
pub open spec fn ore_all(ore_key: u128, first: Seq<Interval>, second: Seq<Interval>, n: nat) -> Seq<
    (Seq<u8>, Seq<u8>),
>
    decreases n,
{
    if n == 0 {
        seq![]
    } else {
        ore_all(ore_key, first, second, (n - 1) as nat) + ore_row(ore_key, first[n - 1], second, 0)
    }
}

/// The encrypted intersections of `alice` with every interval of `bobs`
/// from position `j` on that it overlaps, in order.
pub open spec fn overlap_row(ore_key: u128, alice: Interval, bobs: Seq<Interval>, j: int) -> Seq<
    (Seq<u8>, Seq<u8>),
>
    decreases bobs.len() - j,
{
    if j < 0 || j >= bobs.len() {
        seq![]
    } else if overlaps(alice, bobs[j]) {
        seq![interval_pair_spec(ore_key, alice, bobs[j])] + overlap_row(ore_key, alice, bobs, j + 1)
    } else {
        overlap_row(ore_key, alice, bobs, j + 1)
    }
}

/// The encrypted intersections of every overlapping pair of an interval of
/// the first `n` of `first` and one of `second`, row by row.
pub open spec fn overlap_all(ore_key: u128, first: Seq<Interval>, second: Seq<Interval>, n: nat) -> Seq<
    (Seq<u8>, Seq<u8>),
>
    decreases n,
{
    if n == 0 {
        seq![]
    } else {
        overlap_all(ore_key, first, second, (n - 1) as nat) + overlap_row(
            ore_key,
            first[n - 1],
            second,
            0,
        )
    }
}

/// The intervals are sorted by their beginnings.
pub open spec fn sorted_by_lower(intervals: Seq<Interval>) -> bool {
    forall|i: int, j: int|
        0 <= i <= j < intervals.len() ==> #[trigger] intervals[i].lower <= #[trigger] intervals[j].lower
}

/// Past an interval that starts above the end of `alice`, nothing in a
/// sorted list overlaps `alice`.
proof fn lemma_no_overlap_after(ore_key: u128, alice: Interval, bobs: Seq<Interval>, start: int, j: int)
    requires
        sorted_by_lower(bobs),
        0 <= start <= j,
        start < bobs.len(),
        bobs[start].lower > alice.upper,
    ensures
        overlap_row(ore_key, alice, bobs, j) == Seq::<(Seq<u8>, Seq<u8>)>::empty(),
    decreases bobs.len() - j,
{
    if j < bobs.len() {
        assert(bobs[start].lower <= bobs[j].lower);
        lemma_no_overlap_after(ore_key, alice, bobs, start, j + 1);
    }
}

/// On a list sorted by beginnings, the scan finds every overlap.
proof fn lemma_scan_finds_overlaps(ore_key: u128, alice: Interval, bobs: Seq<Interval>, j: int)
    requires
        sorted_by_lower(bobs),
        0 <= j,
    ensures
        ore_row(ore_key, alice, bobs, j) == overlap_row(ore_key, alice, bobs, j),
    decreases bobs.len() - j,
{
    if j < bobs.len() {
        if bobs[j].lower > alice.upper {
            lemma_no_overlap_after(ore_key, alice, bobs, j, j);
        } else {
            lemma_scan_finds_overlaps(ore_key, alice, bobs, j + 1);
        }
    }
}

/// Where the second party's intervals are sorted by their beginnings, the
/// scans give the encrypted intersection of every overlapping pair, one
/// per pair, row by row.
pub proof fn lemma_scans_find_all_overlaps(
    ore_key: u128,
    first: Seq<Interval>,
    second: Seq<Interval>,
    n: nat,
)
    requires
        sorted_by_lower(second),
        n <= first.len(),
    ensures
        ore_all(ore_key, first, second, n) == overlap_all(ore_key, first, second, n),
    decreases n,
{
    if n > 0 {
        lemma_scans_find_all_overlaps(ore_key, first, second, (n - 1) as nat);
        lemma_scan_finds_overlaps(ore_key, first[n - 1], second, 0);
    }
}

/// The blocks of a pair of ciphertexts.
pub open spec fn ciphertext_pair_view(p: ([u8; 32], [u8; 32])) -> (Seq<u8>, Seq<u8>) {
    (p.0@, p.1@)
}

/// For each interval of the first party, scans the intervals of the second
/// in order: stops at the first one that starts above its end, passes over
/// those that end below its start, and encrypts the intersection with every
/// other one. Where the second party's intervals are sorted by their
/// beginnings, that is every overlapping pair, row by row.
pub fn ore_intersections(ore_key: u128, interval_1: &[Interval], interval_2: &[Interval]) -> (r: Vec<
    ([u8; 32], [u8; 32]),
>)
    ensures
        r@.map_values(|p: ([u8; 32], [u8; 32])| ciphertext_pair_view(p)) == ore_all(
            ore_key,
            interval_1@,
            interval_2@,
            interval_1@.len(),
        ),
        sorted_by_lower(interval_2@) ==> r@.map_values(
            |p: ([u8; 32], [u8; 32])| ciphertext_pair_view(p),
        ) == overlap_all(ore_key, interval_1@, interval_2@, interval_1@.len()),
{
    let mut intersection: Vec<([u8; 32], [u8; 32])> = Vec::new();
    let mut alice: usize = 0;
    while alice < interval_1.len()
        invariant
            alice <= interval_1@.len(),
            intersection@.map_values(|p: ([u8; 32], [u8; 32])| ciphertext_pair_view(p)) == ore_all(
                ore_key,
                interval_1@,
                interval_2@,
                alice as nat,
            ),
        decreases interval_1@.len() - alice,
    {
        let ghost row_start = intersection@.map_values(
            |p: ([u8; 32], [u8; 32])| ciphertext_pair_view(p),
        );
        let ghost current = interval_1@[alice as int];
        let mut bob: usize = 0;
        while bob < interval_2.len()
            invariant_except_break
                alice < interval_1@.len(),
                current == interval_1@[alice as int],
                bob <= interval_2@.len(),
                intersection@.map_values(|p: ([u8; 32], [u8; 32])| ciphertext_pair_view(p)) + ore_row(
                    ore_key,
                    current,
                    interval_2@,
                    bob as int,
                ) == row_start + ore_row(ore_key, current, interval_2@, 0),
            ensures
                intersection@.map_values(|p: ([u8; 32], [u8; 32])| ciphertext_pair_view(p))
                    == row_start + ore_row(ore_key, current, interval_2@, 0),
            decreases interval_2@.len() - bob,
        {
            // The second party's interval starts above the end of the first's.
            if interval_2[bob].lower > interval_1[alice].upper {
                assert(ore_row(ore_key, current, interval_2@, bob as int) =~= seq![]);
                break;
            }
            // The second party's interval ends below the start of the first's.
            if interval_1[alice].lower > interval_2[bob].upper {
                assert(ore_row(ore_key, current, interval_2@, bob as int) == ore_row(
                    ore_key,
                    current,
                    interval_2@,
                    bob + 1,
                ));
            } else {
                let ghost before = intersection@.map_values(
                    |p: ([u8; 32], [u8; 32])| ciphertext_pair_view(p),
                );
                let pair = compute_intersection_ore(
                    ore_key,
                    (interval_1[alice].lower, interval_1[alice].upper),
                    (interval_2[bob].lower, interval_2[bob].upper),
                );
                intersection.push(pair);
                assert(intersection@.map_values(|p: ([u8; 32], [u8; 32])| ciphertext_pair_view(p))
                    =~= before.push(ciphertext_pair_view(pair)));
                assert(ore_row(ore_key, current, interval_2@, bob as int) =~= seq![
                    ciphertext_pair_view(pair),
                ] + ore_row(ore_key, current, interval_2@, bob + 1));
                assert(before.push(ciphertext_pair_view(pair)) + ore_row(
                    ore_key,
                    current,
                    interval_2@,
                    bob + 1,
                ) =~= before + ore_row(ore_key, current, interval_2@, bob as int));
            }
            bob = bob + 1;
        }
        assert(ore_all(ore_key, interval_1@, interval_2@, (alice + 1) as nat) =~= row_start
            + ore_row(ore_key, current, interval_2@, 0));
        alice = alice + 1;
    }
    proof {
        if sorted_by_lower(interval_2@) {
            lemma_scans_find_all_overlaps(ore_key, interval_1@, interval_2@, interval_1@.len());
        }
    }
    intersection
}

/// The later of two beginnings is the greater of them, and the earlier of
/// two ends the smaller: each is one of its arguments and bounds both.
pub proof fn lemma_later_earlier_bounds(x: u32, y: u32)
    ensures
        later(x, y) >= x,
        later(x, y) >= y,
        later(x, y) == x || later(x, y) == y,
        earlier(x, y) <= x,
        earlier(x, y) <= y,
        earlier(x, y) == x || earlier(x, y) == y,
{
}

/// The encrypted intersection of two intervals is the ciphertext of a
/// beginning that is one of the two beginnings and at least both, and of
/// an end that is one of the two ends and at most both: it describes
/// exactly the values that lie in both intervals.
pub proof fn lemma_intersection_is_of_bounds(ore_key: u128, alice: (u32, u32), bob: (u32, u32))
    ensures
        exists|lo: u32|
            lo >= alice.0 && lo >= bob.0 && (lo == alice.0 || lo == bob.0)
                && #[trigger] ore_ciphertext(ore_key, lo) == ore_intersection_spec(
                ore_key,
                alice,
                bob,
            ).0,
        exists|hi: u32|
            hi <= alice.1 && hi <= bob.1 && (hi == alice.1 || hi == bob.1)
                && #[trigger] ore_ciphertext(ore_key, hi) == ore_intersection_spec(
                ore_key,
                alice,
                bob,
            ).1,
{
    lemma_later_earlier_bounds(alice.0, bob.0);
    lemma_later_earlier_bounds(alice.1, bob.1);
    let lo = later(alice.0, bob.0);
    let hi = earlier(alice.1, bob.1);
    assert(ore_ciphertext(ore_key, lo) == ore_intersection_spec(ore_key, alice, bob).0);
    assert(ore_ciphertext(ore_key, hi) == ore_intersection_spec(ore_key, alice, bob).1);
}

/// Block `i` of a ciphertext is the pseudorandom value of position `i` and
/// of every bit of the plaintext above `i` (all of them, with the lower
/// bits cleared), plus bit `i` of the plaintext, modulo `M`.
pub proof fn lemma_ore_block_uses_whole_prefix(ore_key: u128, p: u32, i: int)
    requires
        0 <= i < 32,
    ensures
        ore_ciphertext(ore_key, p)[i] == ((prf_spec(
            ore_key,
            i as u8,
            p & !(0xffff_ffffu32 >> (i as u32)),
        ) + ((p >> ((31 - i) as u32)) & 1u32)) % 3) as u8,
{
    let s = (31 - i) as u32;
    assert((p >> s) & 1u32 <= 1u32) by (bit_vector);
    assert(bit_at(p, i) == (p >> s) & 1u32);
}

/// The message fed to the pseudorandom function carries the whole prefix:
/// its bytes after the position and the separator read big-endian give the
/// prefix back, so different prefixes give different messages.
pub proof fn lemma_prf_message_encodes(corresponding_bit: u8, plaintext_fraction: u32)
    ensures
        prf_message(corresponding_bit, plaintext_fraction).len() == 6,
        prf_message(corresponding_bit, plaintext_fraction)[0] == corresponding_bit,
        be_u32_prefix(prf_message(corresponding_bit, plaintext_fraction).subrange(2, 6))
            == plaintext_fraction,
{
    let m = prf_message(corresponding_bit, plaintext_fraction);
    let t = m.subrange(2, 6);
    let x = plaintext_fraction;
    assert(t[0] == (x >> 24u32) as u8 && t[1] == (x >> 16u32) as u8 && t[2] == (x >> 8u32) as u8
        && t[3] == x as u8);
    assert(((((x >> 24u32) as u8) as u32) << 24u32) | ((((x >> 16u32) as u8) as u32) << 16u32) | ((
    ((x >> 8u32) as u8) as u32) << 8u32) | ((x as u8) as u32) == x) by (bit_vector);
}

/// Two intervals overlap exactly when some value lies in both.
pub proof fn lemma_overlaps_iff_shared_value(alice: Interval, bob: Interval)
    ensures
        overlaps(alice, bob) && alice.lower <= alice.upper && bob.lower <= bob.upper <==> exists|k: u32|
            #[trigger] in_interval(alice, k) && in_interval(bob, k),
{
    if overlaps(alice, bob) && alice.lower <= alice.upper && bob.lower <= bob.upper {
        let k = if alice.lower < bob.lower { bob.lower } else { alice.lower };
        assert(in_interval(alice, k) && in_interval(bob, k));
    }
}

} // verus!
