use interval_psi::interval::Interval;
use interval_psi::ore::{compute_intersection_ore, ore_compare, ore_encrypt, ore_intersections, prf, prf_from_tag};

const KEY: u128 = 0x0123456789abcdef0123456789abcdef;

const ENC5: [u8; 32] = [
    0, 2, 2, 0, 1, 1, 1, 0, 2, 0, 2, 0, 1, 1, 0, 0, 1, 1, 2, 0, 1, 0, 0, 1, 1, 2, 0, 1, 2, 2, 1, 2,
];
const ENC9: [u8; 32] = [
    0, 2, 2, 0, 1, 1, 1, 0, 2, 0, 2, 0, 1, 1, 0, 0, 1, 1, 2, 0, 1, 0, 0, 1, 1, 2, 0, 1, 0, 0, 2, 2,
];

#[test]
fn prf_known_values() {
    assert_eq!(prf(KEY, 0, 0), 0);
    assert_eq!(prf(KEY, 3, 0x8000_0000), 2);
}

#[test]
fn prf_from_tag_reduces_modulo_three() {
    assert_eq!(prf_from_tag(&[0, 0, 0, 7]), 1);
    assert_eq!(prf_from_tag(&[0xff, 0xff, 0xff, 0xff, 9]), (u32::MAX % 3) as u8);
    assert_eq!(prf_from_tag(&[0, 0, 1, 0]), (256 % 3) as u8);
}

#[test]
fn ore_encrypt_known_ciphertexts() {
    assert_eq!(ore_encrypt(KEY, 5), ENC5);
    assert_eq!(ore_encrypt(KEY, 9), ENC9);
}

#[test]
fn ore_ciphertext_blocks_are_below_modulus() {
    for p in [0u32, 1, 77, u32::MAX] {
        assert!(ore_encrypt(KEY, p).iter().all(|b| *b < 3));
    }
}

#[test]
fn ore_compare_basic() {
    assert_eq!(ore_compare(ENC5, ENC5), 0);
    assert_eq!(ore_compare(ENC5, ENC9), -1);
    assert_eq!(ore_compare(ENC9, ENC5), 1);
    let mut a = [0u8; 32];
    let b = [0u8; 32];
    a[31] = 1;
    assert_eq!(ore_compare(a, b), 1);
    assert_eq!(ore_compare(b, a), -1);
}

#[test]
fn ore_compare_reveals_order_where_prf_is_small() {
    // At the first differing bit of these pairs the pseudorandom value is 1.
    assert_eq!(ore_compare(ore_encrypt(KEY, 100), ore_encrypt(KEY, 200)), -1);
    assert_eq!(ore_compare(ore_encrypt(KEY, 3), ore_encrypt(KEY, 4)), -1);
    assert_eq!(ore_compare(ore_encrypt(KEY, 1000), ore_encrypt(KEY, 999)), 1);
}

#[test]
fn ore_compare_reveals_order_where_prf_is_two() {
    // At the first differing bit of 5 and 9 the pseudorandom value is 2:
    // the blocks there are 2 and 0, and 0 is 2 plus one modulo 3.
    assert_eq!(ore_compare(ore_encrypt(KEY, 5), ore_encrypt(KEY, 9)), -1);
    assert_eq!(ore_compare(ore_encrypt(KEY, 9), ore_encrypt(KEY, 5)), 1);
}

#[test]
fn ore_compare_is_modular_at_first_difference() {
    let mut a = [0u8; 32];
    let b = [0u8; 32];
    a[0] = 2;
    assert_eq!(ore_compare(a, b), -1);
    assert_eq!(ore_compare(b, a), 1);
    let mut c = [0u8; 32];
    c[5] = 1;
    assert_eq!(ore_compare(b, c), -1);
    assert_eq!(ore_compare(c, b), 1);
}

#[test]
fn ore_compare_gives_plaintext_order() {
    let values = [0u32, 1, 2, 5, 9, 100, 200, 999, 1000, 65536, u32::MAX - 1, u32::MAX];
    for &x in &values {
        for &y in &values {
            let expected = if x < y { -1 } else if x > y { 1 } else { 0 };
            assert_eq!(ore_compare(ore_encrypt(KEY, x), ore_encrypt(KEY, y)), expected);
        }
    }
}

#[test]
fn ore_compare_antisymmetric_and_reflexive() {
    for (x, y) in [(0u32, 1u32), (17, 400), (u32::MAX, 0), (12345, 12345)] {
        let cx = ore_encrypt(KEY, x);
        let cy = ore_encrypt(KEY, y);
        assert_eq!(ore_compare(cx, cy), -ore_compare(cy, cx));
        assert_eq!(ore_compare(cx, cx), 0);
        assert_eq!(ore_compare(cx, cy) == 0, x == y);
    }
}

#[test]
fn compute_intersection_ore_picks_by_comparison() {
    let (b, e) = compute_intersection_ore(KEY, (100, 1000), (200, 999));
    assert_eq!(b, ore_encrypt(KEY, 200));
    assert_eq!(e, ore_encrypt(KEY, 999));
    let (b, e) = compute_intersection_ore(KEY, (3, 4), (3, 4));
    assert_eq!(b, ore_encrypt(KEY, 3));
    assert_eq!(e, ore_encrypt(KEY, 4));
    // Beginnings 5 and 9 differ where the pseudorandom value is 2.
    let (b, e) = compute_intersection_ore(KEY, (5, 20), (9, 30));
    assert_eq!(b, ore_encrypt(KEY, 9));
    assert_eq!(e, ore_encrypt(KEY, 20));
    let (b, e) = compute_intersection_ore(KEY, (9, 30), (5, 20));
    assert_eq!(b, ore_encrypt(KEY, 9));
    assert_eq!(e, ore_encrypt(KEY, 20));
}

#[test]
fn ore_intersections_scans_until_disjoint() {
    let first = [Interval { lower: 100, upper: 1000 }];
    let second = [
        Interval { lower: 200, upper: 999 },
        Interval { lower: 2000, upper: 3000 },
        Interval { lower: 300, upper: 400 },
    ];
    let found = ore_intersections(KEY, &first, &second);
    assert_eq!(found, vec![compute_intersection_ore(KEY, (100, 1000), (200, 999))]);
}

#[test]
fn ore_intersections_passes_over_intervals_below() {
    let first = [Interval { lower: 10, upper: 20 }];
    let second = [Interval { lower: 1, upper: 2 }, Interval { lower: 12, upper: 15 }];
    let found = ore_intersections(KEY, &first, &second);
    assert_eq!(found, vec![compute_intersection_ore(KEY, (10, 20), (12, 15))]);
    assert_eq!(found, vec![(ore_encrypt(KEY, 12), ore_encrypt(KEY, 15))]);
}

#[test]
fn ore_intersections_every_overlapping_pair_in_row_order() {
    let first = [Interval { lower: 500, upper: 600 }, Interval { lower: 3, upper: 4 }];
    let second = [Interval { lower: 1, upper: 10 }, Interval { lower: 550, upper: 560 }];
    let found = ore_intersections(KEY, &first, &second);
    assert_eq!(
        found,
        vec![
            compute_intersection_ore(KEY, (500, 600), (550, 560)),
            compute_intersection_ore(KEY, (3, 4), (1, 10)),
        ]
    );
}

#[test]
fn ore_intersections_of_nothing() {
    let first: [Interval; 0] = [];
    let second = [Interval { lower: 1, upper: 10 }];
    assert!(ore_intersections(KEY, &first, &second).is_empty());
}

#[test]
fn ore_blocks_at_first_difference() {
    let values = [0u32, 1, 5, 9, 100, 200, 999, 1000, 65536, u32::MAX];
    for &x in &values {
        for &y in &values {
            if x > y {
                let i = (x ^ y).leading_zeros() as usize;
                let cx = ore_encrypt(KEY, x);
                let cy = ore_encrypt(KEY, y);
                assert_eq!(cx[..i], cy[..i]);
                assert_eq!(cx[i], (cy[i] + 1) % 3);
            }
        }
    }
}
