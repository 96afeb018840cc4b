use interval_psi::dh::{
    candidate_from_digest, is_primitive_root, map_to_group, modulus_pow, ALICE_SECRET,
    BOB_SECRET, P, P_MINUS_1_FACTORS,
};

#[test]
fn modulus_pow_small_values() {
    assert_eq!(modulus_pow(2, 10, 1000), 24);
    assert_eq!(modulus_pow(3, 0, 7), 1);
    assert_eq!(modulus_pow(5, 3, 13), 8);
    assert_eq!(modulus_pow(0, 0, 11), 1);
    assert_eq!(modulus_pow(0, 5, 11), 0);
}

#[test]
fn modulus_pow_modulus_one_is_zero() {
    assert_eq!(modulus_pow(123, 456, 1), 0);
    assert_eq!(modulus_pow(0, 0, 1), 0);
}

#[test]
fn modulus_pow_reduces_base_first() {
    assert_eq!(modulus_pow(1000 + 2, 10, 1000), 24);
    assert_eq!(modulus_pow(u64::MAX, 2, P), ((u64::MAX % P) as u128 * (u64::MAX % P) as u128 % P as u128) as u64);
}

#[test]
fn modulus_pow_large_modulus_fermat() {
    // P is prime: a^(P-1) = 1 mod P for a not divisible by P.
    assert_eq!(modulus_pow(2, P - 1, P), 1);
    assert_eq!(modulus_pow(123456789, P - 1, P), 1);
    assert_eq!(modulus_pow(P - 1, 2, P), 1);
}

#[test]
fn modulus_pow_full_width_modulus() {
    let m = u64::MAX;
    let expected = ((m - 1) as u128 * (m - 1) as u128 % m as u128) as u64;
    assert_eq!(modulus_pow(m - 1, 2, m), expected);
}

#[test]
fn primitive_root_trivial_elements_are_rejected() {
    assert!(!is_primitive_root(0));
    assert!(!is_primitive_root(1));
    assert!(!is_primitive_root(P - 1));
}

#[test]
fn primitive_root_small_candidates() {
    assert!(is_primitive_root(2));
    assert!(!is_primitive_root(3));
    assert!(is_primitive_root(5));
}

#[test]
fn primitive_root_matches_definition() {
    for g in 2..200u64 {
        let expected = P_MINUS_1_FACTORS
            .iter()
            .all(|q| modulus_pow(g, (P - 1) / q, P) != 1);
        assert_eq!(is_primitive_root(g), expected);
    }
}

#[test]
fn candidate_from_digest_reads_big_endian() {
    let digest = [0u8, 0, 0, 0, 0, 0, 1, 2, 0xff, 0xff];
    assert_eq!(candidate_from_digest(&digest), 258);
    let digest = [0xffu8; 8];
    assert_eq!(candidate_from_digest(&digest), u64::MAX % P);
}

#[test]
fn map_to_group_known_values() {
    assert_eq!(map_to_group(&0), Some(3925288764));
    assert_eq!(map_to_group(&1), Some(3597906412));
    assert_eq!(map_to_group(&7), Some(2613887984));
    assert_eq!(map_to_group(&42), Some(3992698101));
    assert_eq!(map_to_group(&100), Some(3556637207));
}

#[test]
fn map_to_group_is_deterministic_and_primitive() {
    for x in [0u32, 5, 99, 12345, u32::MAX] {
        let g = map_to_group(&x).unwrap();
        assert_eq!(map_to_group(&x), Some(g));
        assert!(is_primitive_root(g));
        assert!(g < P);
    }
}

#[test]
fn blinding_commutes_on_group_elements() {
    for x in [1u32, 2, 3, 77] {
        let g = map_to_group(&x).unwrap();
        let ab = modulus_pow(modulus_pow(g, ALICE_SECRET, P), BOB_SECRET, P);
        let ba = modulus_pow(modulus_pow(g, BOB_SECRET, P), ALICE_SECRET, P);
        assert_eq!(ab, ba);
        assert_eq!(ab, modulus_pow(g, ALICE_SECRET * BOB_SECRET, P));
    }
}

#[test]
fn factors_multiply_to_p_minus_1() {
    assert_eq!(P_MINUS_1_FACTORS[0] * P_MINUS_1_FACTORS[1], P - 1);
    for q in P_MINUS_1_FACTORS {
        assert_eq!((P - 1) % q, 0);
    }
}

#[test]
fn primitive_root_rejects_multiples_of_p() {
    assert!(!is_primitive_root(P));
    assert!(!is_primitive_root(2 * P));
    // The test works on the residue modulo P.
    assert_eq!(is_primitive_root(P + 2), is_primitive_root(2));
    assert_eq!(is_primitive_root(P + 3), is_primitive_root(3));
}

#[test]
fn p_and_factors_are_prime() {
    fn is_prime(n: u64) -> bool {
        n > 1 && (2..).take_while(|d: &u64| d * d <= n).all(|d| n % d != 0)
    }
    assert!(is_prime(P));
    for q in P_MINUS_1_FACTORS {
        assert!(is_prime(q));
    }
}
