use interval_psi::dh::{map_to_group, modulus_pow, P};
use interval_psi::interval::Interval;
use interval_psi::psi::{psi_intersections, psi_pair, PsiParty};

#[test]
fn process_elements_blinds_every_key() {
    let mut party = PsiParty::new("Alice".to_string(), 6, vec![(1, 0), (2, 0), (3, 0)]);
    let blinded = party.process_elements().unwrap();
    assert_eq!(blinded, vec![977897660, 3165564886, 1750672937]);
    assert_eq!(party.elements, vec![(1, 977897660), (2, 3165564886), (3, 1750672937)]);
    assert_eq!(party.name, "Alice");
    assert_eq!(party.secret_key, 6);
}

#[test]
fn process_elements_of_no_elements() {
    let mut party = PsiParty::new("Bob".to_string(), 3, Vec::new());
    assert_eq!(party.process_elements(), Some(Vec::new()));
    assert!(party.elements.is_empty());
}

#[test]
fn process_peer_element_reblinds() {
    let bob = PsiParty::new("Bob".to_string(), 3, Vec::new());
    assert_eq!(bob.process_peer_element(977897660), 1700224346);
    assert_eq!(bob.process_peer_element(2), 8);
    let g = map_to_group(&9).unwrap();
    assert_eq!(bob.process_peer_element(g), modulus_pow(g, 3, P));
}

#[test]
fn psi_pair_overlapping() {
    let a = Interval { lower: 1, upper: 5 };
    let b = Interval { lower: 3, upper: 8 };
    assert_eq!(psi_pair(a, b), Some(Some(Interval { lower: 3, upper: 5 })));
}

#[test]
fn psi_pair_disjoint() {
    let a = Interval { lower: 1, upper: 5 };
    let b = Interval { lower: 6, upper: 8 };
    assert_eq!(psi_pair(a, b), Some(None));
}

#[test]
fn psi_pair_covers_overlap_from_below() {
    let a = Interval { lower: 10, upper: 20 };
    let b = Interval { lower: 0, upper: 12 };
    assert_eq!(psi_pair(a, b), Some(Some(Interval { lower: 10, upper: 12 })));
}

#[test]
fn psi_pair_empty_interval() {
    let a = Interval { lower: 5, upper: 4 };
    let b = Interval { lower: 0, upper: 12 };
    assert_eq!(psi_pair(a, b), Some(None));
}

#[test]
fn psi_pair_single_point() {
    let a = Interval { lower: 7, upper: 7 };
    let b = Interval { lower: 7, upper: 7 };
    assert_eq!(psi_pair(a, b), Some(Some(Interval { lower: 7, upper: 7 })));
}

#[test]
fn psi_intersections_row_by_row() {
    let first = [Interval { lower: 1, upper: 5 }, Interval { lower: 10, upper: 20 }];
    let second = [Interval { lower: 3, upper: 8 }, Interval { lower: 0, upper: 12 }];
    let found = psi_intersections(&first, &second).unwrap();
    assert_eq!(
        found,
        vec![
            Interval { lower: 3, upper: 5 },
            Interval { lower: 1, upper: 5 },
            Interval { lower: 10, upper: 12 },
        ]
    );
}

#[test]
fn psi_intersections_of_nothing() {
    let first: [Interval; 0] = [];
    let second = [Interval { lower: 3, upper: 8 }];
    assert_eq!(psi_intersections(&first, &second), Some(Vec::new()));
    assert_eq!(psi_intersections(&second, &first), Some(Vec::new()));
}
