use interval_psi::bytes::{be_u32_from_prefix, be_u64_from_prefix, u128_to_be_bytes, u32_to_be_bytes, u64_to_be_bytes};
use interval_psi::csv::csv_row;
use interval_psi::fhe::{collect_intersections, Interval, PsiParty};

#[test]
fn byte_encodings_match_std() {
    for x in [0u32, 1, 0x0102_0304, u32::MAX] {
        assert_eq!(u32_to_be_bytes(x), x.to_be_bytes().to_vec());
        assert_eq!(be_u32_from_prefix(&x.to_be_bytes()), x);
    }
    for x in [0u64, 1, 0x0102_0304_0506_0708, u64::MAX] {
        assert_eq!(u64_to_be_bytes(x), x.to_be_bytes().to_vec());
        assert_eq!(be_u64_from_prefix(&x.to_be_bytes()), x);
    }
    for x in [0u128, 1, 0x0123456789abcdef0123456789abcdef, u128::MAX] {
        assert_eq!(u128_to_be_bytes(x), x.to_be_bytes().to_vec());
    }
}

#[test]
fn csv_row_formats_decimal() {
    assert_eq!(csv_row(&[]), b"".to_vec());
    assert_eq!(csv_row(&[0]), b"0".to_vec());
    assert_eq!(csv_row(&[12, 3, 4500]), b"12,3,4500".to_vec());
    assert_eq!(csv_row(&[u64::MAX]), u64::MAX.to_string().into_bytes());
}

#[test]
fn fhe_interval_and_party() {
    let iv = Interval::new(2, 6);
    assert_eq!(iv, Interval { lower: 2, upper: 6 });
    let mut party = PsiParty::new("Sender".to_string());
    assert!(party.intervals.is_empty());
    party.add_interval(iv);
    party.add_interval(Interval::new(13, 14));
    assert_eq!(party.intervals, vec![Interval { lower: 2, upper: 6 }, Interval { lower: 13, upper: 14 }]);
    assert_eq!(party.name, "Sender");
}

#[test]
fn collect_intersections_keeps_nonempty_pairs() {
    let decrypted = [(2u64, 3u64), (5, 3), (13, 14), (7, 7), (9, 0)];
    assert_eq!(collect_intersections(&decrypted), vec![(2, 3), (13, 14), (7, 7)]);
    assert!(collect_intersections(&[]).is_empty());
}
