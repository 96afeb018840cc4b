//! The two-party intersection of integer intervals by commutative
//! blinding: each interval is expanded into its elements, both parties
//! blind their elements and then the peer's, and the elements of the first
//! party whose doubly blinded value the second party also holds are the
//! common ones.

use vstd::arithmetic::power::*;
use vstd::prelude::*;

use crate::interval::{in_interval, Interval};
use crate::dh::{
    group_element, lemma_blinding_commutes, map_to_group,
    modulus_pow, ALICE_SECRET, BOB_SECRET, P,
};

verus! {

/// No two elements share a key.
pub open spec fn keys_distinct(elements: Seq<(u32, u64)>) -> bool {
    forall|i: int, j: int|
        0 <= i < elements.len() && 0 <= j < elements.len() && i != j ==> elements[i].0
            != elements[j].0
}

/// The value that blinding `key` with `secret` gives: its group element
/// raised to `secret` modulo `P` (`0` stands where the key has no group
/// element).
pub open spec fn blinded_element(key: u32, secret: u64) -> u64 {
    match group_element(key) {
        Some(g) => (pow(g as int, secret as nat) % (P as int)) as u64,
        None => 0,
    }
}

/// The value that blinding an already blinded `value` with `secret` gives.
pub open spec fn reblinded(value: u64, secret: u64) -> u64 {
    (pow(value as int, secret as nat) % (P as int)) as u64
}

/// `key` blinded with `first`, then with `second`.
pub open spec fn double_blinded(key: u32, first: u64, second: u64) -> u64 {
    reblinded(blinded_element(key, first), second)
}

/// One party of the protocol: a name, a secret exponent, and its elements
/// as pairs of key and current value. The elements form a map from keys to
/// values (`wf`: each key occurs once), held as a list so that the order in
/// which they are blinded and returned is fixed; a hash map would hand them
/// out in the order of a randomly seeded hasher, which no contract can pin.
/// `element_map` gives the map that the list stands for.
pub struct PsiParty {
    pub name: String,
    pub secret_key: u64,
    pub elements: Vec<(u32, u64)>,
}

impl PsiParty {
    /// The map from keys to values that the elements stand for.
    pub open spec fn element_map(&self) -> Map<u32, u64> {
        Map::new(
            |k: u32| exists|i: int| 0 <= i < self.elements@.len() && #[trigger] self.elements@[i].0 == k,
            |k: u32|
                self.elements@[choose|i: int|
                    0 <= i < self.elements@.len() && #[trigger] self.elements@[i].0 == k].1,
        )
    }

    /// Under the invariant, the map sends the key of each element to its
    /// value.
    pub proof fn lemma_element_map_lookup(&self, i: int)
        requires
            self.wf(),
            0 <= i < self.elements@.len(),
        ensures
            self.element_map().dom().contains(self.elements@[i].0),
            self.element_map()[self.elements@[i].0] == self.elements@[i].1,
    {
        let k = self.elements@[i].0;
        assert(self.elements@[i].0 == k);
        let j = choose|j: int| 0 <= j < self.elements@.len() && #[trigger] self.elements@[j].0 == k;
        assert(j == i);
    }

    /// The party's invariant: each key occurs once.
    pub open spec fn wf(&self) -> bool {
        keys_distinct(self.elements@)
    }

    /// A party with the given name, secret and elements.
    pub fn new(name: String, secret_key: u64, elements: Vec<(u32, u64)>) -> (party: Self)
        requires
            keys_distinct(elements@),
        ensures
            party.name@ == name@,
            party.secret_key == secret_key,
            party.elements@ == elements@,
            party.wf(),
    {
        PsiParty { name, secret_key, elements }
    }

    /// Blinds every element: maps its key to the group, raises the group
    /// element to the party's secret modulo `P`, stores the result as the
    /// element's value and returns the blinded values in element order.
    /// `None`, with the party unchanged, when some key has no group element.
    pub fn process_elements(&mut self) -> (blinded: Option<Vec<u64>>)
        requires
            old(self).wf(),
        ensures
            final(self).wf(),
            final(self).name@ == old(self).name@,
            final(self).secret_key == old(self).secret_key,
            final(self).elements@.len() == old(self).elements@.len(),
            blinded is Some <==> forall|i: int|
                0 <= i < old(self).elements@.len() ==> #[trigger] group_element(
                    old(self).elements@[i].0,
                ) is Some,
            blinded is None ==> final(self).elements@ == old(self).elements@,
            blinded matches Some(values) ==> {
                &&& values@.len() == old(self).elements@.len()
                &&& forall|i: int|
                    0 <= i < values@.len() ==> {
                        &&& #[trigger] values@[i] == blinded_element(
                            old(self).elements@[i].0,
                            old(self).secret_key,
                        )
                        &&& final(self).elements@[i] == (old(self).elements@[i].0, values@[i])
                    }
            },
    {
        let n = self.elements.len();
        let mut blinded_values: Vec<u64> = Vec::new();
        let mut i: usize = 0;
        while i < n
            invariant
                n == self.elements@.len(),
                i <= n,
                blinded_values@.len() == i,
                self.elements@ == old(self).elements@,
                self.name@ == old(self).name@,
                self.secret_key == old(self).secret_key,
                self.wf(),
                forall|j: int|
                    0 <= j < i ==> #[trigger] group_element(self.elements@[j].0) is Some
                        && blinded_values@[j] == blinded_element(
                        self.elements@[j].0,
                        self.secret_key,
                    ),
            decreases n - i,
        {
            let key = self.elements[i].0;
            match map_to_group(&key) {
                Some(g) => {
                    let g_exp_secret_key = modulus_pow(g, self.secret_key, P);
                    blinded_values.push(g_exp_secret_key);
                },
                None => {
                    assert(group_element(self.elements@[i as int].0) is None);
                    return None;
                },
            }
            i = i + 1;
        }
        let mut new_elements: Vec<(u32, u64)> = Vec::new();
        let mut i: usize = 0;
        while i < n
            invariant
                n == self.elements@.len(),
                n == blinded_values@.len(),
                self.elements@ == old(self).elements@,
                self.name@ == old(self).name@,
                self.secret_key == old(self).secret_key,
                self.wf(),
                forall|j: int|
                    0 <= j < n ==> #[trigger] group_element(self.elements@[j].0) is Some
                        && blinded_values@[j] == blinded_element(
                        self.elements@[j].0,
                        self.secret_key,
                    ),
                i <= n,
                new_elements@.len() == i,
                forall|j: int|
                    0 <= j < i ==> #[trigger] new_elements@[j] == (
                        self.elements@[j].0,
                        blinded_values@[j],
                    ),
            decreases n - i,
        {
            new_elements.push((self.elements[i].0, blinded_values[i]));
            i = i + 1;
        }
        self.elements = new_elements;
        Some(blinded_values)
    }

    /// Blinds a value that the peer has blinded: raises it to the party's
    /// secret modulo `P`.
    pub fn process_peer_element(&self, peer_blinded_element: u64) -> (r: u64)
        ensures
            r == reblinded(peer_blinded_element, self.secret_key),
    {
        modulus_pow(peer_blinded_element, self.secret_key, P)
    }
}

/// Blinds every value of `party` once more, with the secret of `peer`.
fn blind_with_peer(party: &mut PsiParty, peer: &PsiParty)
    requires
        old(party).wf(),
    ensures
        final(party).wf(),
        final(party).name@ == old(party).name@,
        final(party).secret_key == old(party).secret_key,
        final(party).elements@.len() == old(party).elements@.len(),
        forall|i: int|
            0 <= i < old(party).elements@.len() ==> #[trigger] final(party).elements@[i] == (
                old(party).elements@[i].0,
                reblinded(old(party).elements@[i].1, peer.secret_key),
            ),
{
    let n = party.elements.len();
    let mut updated: Vec<(u32, u64)> = Vec::new();
    let mut i: usize = 0;
    while i < n
        invariant
            n == party.elements@.len(),
            i <= n,
            updated@.len() == i,
            forall|j: int|
                0 <= j < i ==> #[trigger] updated@[j] == (
                    party.elements@[j].0,
                    reblinded(party.elements@[j].1, peer.secret_key),
                ),
        decreases n - i,
    {
        let (key, value) = party.elements[i];
        updated.push((key, peer.process_peer_element(value)));
        i = i + 1;
    }
    party.elements = updated;
}

/// The number of values in `iv`.
pub open spec fn interval_len(iv: Interval) -> nat {
    if iv.lower <= iv.upper {
        (iv.upper - iv.lower + 1) as nat
    } else {
        0
    }
}

/// The elements of `iv` in increasing order, each with value `0`.
pub open spec fn fresh_elements(iv: Interval) -> Seq<(u32, u64)> {
    Seq::new(interval_len(iv), |i: int| ((iv.lower + i) as u32, 0u64))
}

/// The elements of `iv` in increasing order, each with value `0`.
fn interval_elements(iv: Interval) -> (elements: Vec<(u32, u64)>)
    ensures
        elements@ == fresh_elements(iv),
        keys_distinct(elements@),
{
    let mut elements: Vec<(u32, u64)> = Vec::new();
    if iv.lower > iv.upper {
        assert(elements@ =~= fresh_elements(iv));
        return elements;
    }
    let mut k: u32 = iv.lower;
    loop
        invariant_except_break
            iv.lower <= k <= iv.upper,
            elements@ =~= Seq::new(
                (k - iv.lower) as nat,
                |i: int| ((iv.lower + i) as u32, 0u64),
            ),
        ensures
            elements@ =~= fresh_elements(iv),
        decreases iv.upper - k,
    {
        elements.push((k, 0u64));
        assert(elements@ =~= Seq::new(
            (k - iv.lower + 1) as nat,
            |i: int| ((iv.lower + i) as u32, 0u64),
        ));
        if k == iv.upper {
            break;
        }
        k = k + 1;
    }
    assert(elements@ =~= fresh_elements(iv));
    elements
}

/// Every key of `iv` has a group element.
pub open spec fn keys_mapped(iv: Interval) -> bool {
    forall|k: u32| in_interval(iv, k) ==> #[trigger] group_element(k) is Some
}

/// Some key of `iv`, blinded with `first` and then `second`, gives `x`.
pub open spec fn interval_holds(iv: Interval, first: u64, second: u64, x: u64) -> bool {
    exists|k: u32| in_interval(iv, k) && #[trigger] double_blinded(k, first, second) == x
}

/// `k` is an element of `a` whose doubly blinded value the holder of `b`
/// also reaches.
pub open spec fn is_common_key(a: Interval, b: Interval, k: u32) -> bool {
    &&& in_interval(a, k)
    &&& interval_holds(b, BOB_SECRET, ALICE_SECRET, double_blinded(k, ALICE_SECRET, BOB_SECRET))
}

/// `k` is the least common key of `a` and `b`.
pub open spec fn is_least_common(a: Interval, b: Interval, k: u32) -> bool {
    is_common_key(a, b, k) && forall|k2: u32| #[trigger] is_common_key(a, b, k2) ==> k <= k2
}

/// `k` is the greatest common key of `a` and `b`.
pub open spec fn is_greatest_common(a: Interval, b: Interval, k: u32) -> bool {
    is_common_key(a, b, k) && forall|k2: u32| #[trigger] is_common_key(a, b, k2) ==> k2 <= k
}

/// What the protocol reports for one pair of intervals: the interval from
/// the least to the greatest common key, or nothing when there is none.
pub open spec fn pair_intersection(a: Interval, b: Interval) -> Option<Interval> {
    if exists|k: u32| is_common_key(a, b, k) {
        Some(
            Interval {
                lower: choose|k: u32| is_least_common(a, b, k),
                upper: choose|k: u32| is_greatest_common(a, b, k),
            },
        )
    } else {
        None
    }
}

proof fn lemma_pair_intersection_from_bounds(a: Interval, b: Interval, lo: u32, hi: u32)
    requires
        is_least_common(a, b, lo),
        is_greatest_common(a, b, hi),
    ensures
        pair_intersection(a, b) == Some(Interval { lower: lo, upper: hi }),
{
    let l = choose|k: u32| is_least_common(a, b, k);
    let h = choose|k: u32| is_greatest_common(a, b, k);
    assert(is_least_common(a, b, l));
    assert(is_greatest_common(a, b, h));
    assert(is_common_key(a, b, l) && is_common_key(a, b, lo));
    assert(l <= lo && lo <= l);
    assert(is_common_key(a, b, h) && is_common_key(a, b, hi));
    assert(h <= hi && hi <= h);
}

/// Where the elements of a party stand for `iv` blinded twice, some element
/// has value `x` exactly when some key of `iv` blinds to `x`.
proof fn lemma_elements_hold(iv: Interval, e: Seq<(u32, u64)>, first: u64, second: u64, x: u64)
    requires
        e.len() == interval_len(iv),
        forall|i: int|
            0 <= i < e.len() ==> #[trigger] e[i] == (
                (iv.lower + i) as u32,
                double_blinded((iv.lower + i) as u32, first, second),
            ),
    ensures
        (exists|i: int| 0 <= i < e.len() && #[trigger] e[i].1 == x) <==> interval_holds(
            iv,
            first,
            second,
            x,
        ),
{
    if exists|i: int| 0 <= i < e.len() && #[trigger] e[i].1 == x {
        let i = choose|i: int| 0 <= i < e.len() && #[trigger] e[i].1 == x;
        let k = (iv.lower + i) as u32;
        assert(e[i] == (k, double_blinded(k, first, second)));
        assert(in_interval(iv, k));
    }
    if interval_holds(iv, first, second, x) {
        let k = choose|k: u32| in_interval(iv, k) && #[trigger] double_blinded(k, first, second) == x;
        let i = k - iv.lower;
        assert(e[i] == ((iv.lower + i) as u32, double_blinded((iv.lower + i) as u32, first, second)));
        assert(e[i].1 == x);
    }
}

/// Some element of `elements` has value `x`.
fn value_present(elements: &Vec<(u32, u64)>, x: u64) -> (found: bool)
    ensures
        found <==> exists|i: int| 0 <= i < elements@.len() && #[trigger] elements@[i].1 == x,
{
    let mut i: usize = 0;
    while i < elements.len()
        invariant
            i <= elements@.len(),
            forall|j: int| 0 <= j < i ==> #[trigger] elements@[j].1 != x,
        decreases elements@.len() - i,
    {
        if elements[i].1 == x {
            return true;
        }
        i = i + 1;
    }
    false
}

/// `values` holds `x`.
fn vec_contains(values: &Vec<u64>, x: u64) -> (found: bool)
    ensures
        found <==> values@.contains(x),
{
    let mut i: usize = 0;
    while i < values.len()
        invariant
            i <= values@.len(),
            forall|j: int| 0 <= j < i ==> #[trigger] values@[j] != x,
        decreases values@.len() - i,
    {
        if values[i] == x {
            return true;
        }
        i = i + 1;
    }
    false
}

/// The least and the greatest of a non-empty list of keys.
fn min_max(keys: &Vec<u32>) -> (bounds: (u32, u32))
    requires
        keys@.len() > 0,
    ensures
        keys@.contains(bounds.0),
        keys@.contains(bounds.1),
        forall|i: int| 0 <= i < keys@.len() ==> bounds.0 <= #[trigger] keys@[i] <= bounds.1,
{
    let mut lo: u32 = keys[0];
    let mut hi: u32 = keys[0];
    let mut i: usize = 1;
    while i < keys.len()
        invariant
            1 <= i <= keys@.len(),
            keys@.contains(lo),
            keys@.contains(hi),
            forall|j: int| 0 <= j < i ==> lo <= #[trigger] keys@[j] <= hi,
        decreases keys@.len() - i,
    {
        if keys[i] < lo {
            lo = keys[i];
        }
        if keys[i] > hi {
            hi = keys[i];
        }
        i = i + 1;
    }
    (lo, hi)
}

/// Runs the protocol on one pair of intervals: the first party holds the
/// elements of `a` with secret `ALICE_SECRET`, the second those of `b` with
/// `BOB_SECRET`. `Some` of what the protocol reports when every key of both
/// intervals has a group element, `None` otherwise.
pub fn psi_pair(a: Interval, b: Interval) -> (r: Option<Option<Interval>>)
    ensures
        r is Some <==> keys_mapped(a) && keys_mapped(b),
        r matches Some(o) ==> o == pair_intersection(a, b),
{
    let mut alice = PsiParty::new("Alice".to_string(), ALICE_SECRET, interval_elements(a));
    let mut bob = PsiParty::new("Bob".to_string(), BOB_SECRET, interval_elements(b));
    let ghost a0 = alice.elements@;
    let ghost b0 = bob.elements@;
    let alice_blinded = match alice.process_elements() {
        Some(values) => values,
        None => {
            proof {
                let i = choose|i: int|
                    0 <= i < a0.len() && !(#[trigger] group_element(a0[i].0) is Some);
                assert(in_interval(a, a0[i].0));
            }
            return None;
        },
    };
    let bob_blinded = match bob.process_elements() {
        Some(values) => values,
        None => {
            proof {
                let i = choose|i: int|
                    0 <= i < b0.len() && !(#[trigger] group_element(b0[i].0) is Some);
                assert(in_interval(b, b0[i].0));
            }
            return None;
        },
    };
    proof {
        assert forall|k: u32| in_interval(a, k) implies #[trigger] group_element(k) is Some by {
            let i = k - a.lower;
            assert(a0[i].0 == k);
        }
        assert forall|k: u32| in_interval(b, k) implies #[trigger] group_element(k) is Some by {
            let i = k - b.lower;
            assert(b0[i].0 == k);
        }
    }
    let ghost a1 = alice.elements@;
    let ghost b1 = bob.elements@;
    blind_with_peer(&mut bob, &alice);
    blind_with_peer(&mut alice, &bob);
    let ghost ea = alice.elements@;
    let ghost eb = bob.elements@;
    proof {
        assert forall|i: int| 0 <= i < ea.len() implies #[trigger] ea[i] == (
            (a.lower + i) as u32,
            double_blinded((a.lower + i) as u32, ALICE_SECRET, BOB_SECRET),
        ) by {
            assert(a0[i] == ((a.lower + i) as u32, 0u64));
            assert(alice_blinded@[i] == blinded_element(a0[i].0, ALICE_SECRET));
            assert(a1[i] == (a0[i].0, alice_blinded@[i]));
        }
        assert forall|j: int| 0 <= j < eb.len() implies #[trigger] eb[j] == (
            (b.lower + j) as u32,
            double_blinded((b.lower + j) as u32, BOB_SECRET, ALICE_SECRET),
        ) by {
            assert(b0[j] == ((b.lower + j) as u32, 0u64));
            assert(bob_blinded@[j] == blinded_element(b0[j].0, BOB_SECRET));
            assert(b1[j] == (b0[j].0, bob_blinded@[j]));
        }
    }
    // The values of the second party that the first party also holds.
    let mut intersection_values: Vec<u64> = Vec::new();
    let mut j: usize = 0;
    while j < bob.elements.len()
        invariant
            j <= eb.len(),
            bob.elements@ == eb,
            alice.elements@ == ea,
            ea.len() == interval_len(a),
            forall|i: int|
                0 <= i < ea.len() ==> #[trigger] ea[i] == (
                    (a.lower + i) as u32,
                    double_blinded((a.lower + i) as u32, ALICE_SECRET, BOB_SECRET),
                ),
            forall|x: u64|
                #[trigger] intersection_values@.contains(x) <==> (exists|j2: int|
                    0 <= j2 < j && #[trigger] eb[j2].1 == x) && interval_holds(
                    a,
                    ALICE_SECRET,
                    BOB_SECRET,
                    x,
                ),
        decreases eb.len() - j,
    {
        let v = bob.elements[j].1;
        let present = value_present(&alice.elements, v);
        proof {
            lemma_elements_hold(a, ea, ALICE_SECRET, BOB_SECRET, v);
        }
        let ghost before = intersection_values@;
        if present {
            intersection_values.push(v);
        }
        proof {
            assert forall|x: u64| #[trigger] intersection_values@.contains(x) <==> (exists|j2: int|
                0 <= j2 < j + 1 && #[trigger] eb[j2].1 == x) && interval_holds(
                a,
                ALICE_SECRET,
                BOB_SECRET,
                x,
            ) by {
                if intersection_values@.contains(x) {
                    if x != v {
                        assert(before.contains(x)) by {
                            let idx = choose|idx: int|
                                0 <= idx < intersection_values@.len() && intersection_values@[idx]
                                    == x;
                            assert(before[idx] == x);
                        }
                    } else {
                        assert(eb[j as int].1 == x);
                    }
                }
                if (exists|j2: int| 0 <= j2 < j + 1 && #[trigger] eb[j2].1 == x) && interval_holds(
                    a,
                    ALICE_SECRET,
                    BOB_SECRET,
                    x,
                ) {
                    if x == v {
                        assert(intersection_values@[intersection_values@.len() - 1] == x);
                    } else {
                        let j2 = choose|j2: int| 0 <= j2 < j + 1 && #[trigger] eb[j2].1 == x;
                        assert(j2 < j);
                        assert(before.contains(x));
                        let idx = choose|idx: int| 0 <= idx < before.len() && before[idx] == x;
                        assert(intersection_values@[idx] == x);
                    }
                }
            }
        }
        j = j + 1;
    }
    // The keys of the first party whose value is among them.
    let mut common_keys: Vec<u32> = Vec::new();
    let mut i: usize = 0;
    while i < alice.elements.len()
        invariant
            i <= ea.len(),
            alice.elements@ == ea,
            ea.len() == interval_len(a),
            eb.len() == interval_len(b),
            forall|i2: int|
                0 <= i2 < ea.len() ==> #[trigger] ea[i2] == (
                    (a.lower + i2) as u32,
                    double_blinded((a.lower + i2) as u32, ALICE_SECRET, BOB_SECRET),
                ),
            forall|j2: int|
                0 <= j2 < eb.len() ==> #[trigger] eb[j2] == (
                    (b.lower + j2) as u32,
                    double_blinded((b.lower + j2) as u32, BOB_SECRET, ALICE_SECRET),
                ),
            forall|x: u64|
                #[trigger] intersection_values@.contains(x) <==> (exists|j2: int|
                    0 <= j2 < eb.len() && #[trigger] eb[j2].1 == x) && interval_holds(
                    a,
                    ALICE_SECRET,
                    BOB_SECRET,
                    x,
                ),
            forall|k: u32|
                #[trigger] common_keys@.contains(k) <==> (in_interval(a, k) && k - a.lower < i
                    && is_common_key(a, b, k)),
        decreases ea.len() - i,
    {
        let (key, value) = alice.elements[i];
        let found = vec_contains(&intersection_values, value);
        proof {
            lemma_elements_hold(b, eb, BOB_SECRET, ALICE_SECRET, value);
            assert(ea[i as int] == (key, value));
            assert(key == a.lower + i);
            assert(in_interval(a, key));
            assert(interval_holds(a, ALICE_SECRET, BOB_SECRET, value));
            assert(found <==> is_common_key(a, b, key));
        }
        let ghost before = common_keys@;
        if found {
            common_keys.push(key);
        }
        proof {
            assert forall|k: u32| #[trigger] common_keys@.contains(k) <==> (in_interval(a, k) && k
                - a.lower < i + 1 && is_common_key(a, b, k)) by {
                if common_keys@.contains(k) && k != key {
                    let idx = choose|idx: int| 0 <= idx < common_keys@.len() && common_keys@[idx] == k;
                    assert(before[idx] == k);
                    assert(before.contains(k));
                }
                if common_keys@.contains(k) && k == key {
                    assert(found);
                }
                if in_interval(a, k) && k - a.lower < i + 1 && is_common_key(a, b, k) {
                    if k == key {
                        assert(found);
                        assert(common_keys@[common_keys@.len() - 1] == k);
                    } else {
                        assert(before.contains(k));
                        let idx = choose|idx: int| 0 <= idx < before.len() && before[idx] == k;
                        assert(common_keys@[idx] == k);
                    }
                }
            }
        }
        i = i + 1;
    }
    if common_keys.len() == 0 {
        proof {
            assert forall|k: u32| !is_common_key(a, b, k) by {
                if is_common_key(a, b, k) {
                    assert(common_keys@.contains(k));
                }
            }
        }
        return Some(None);
    }
    let (lower, upper) = min_max(&common_keys);
    proof {
        assert forall|k2: u32| #[trigger] is_common_key(a, b, k2) implies lower <= k2 && k2 <= upper by {
            assert(common_keys@.contains(k2));
            let idx = choose|idx: int| 0 <= idx < common_keys@.len() && common_keys@[idx] == k2;
            assert(lower <= common_keys@[idx] <= upper);
        }
        assert(is_least_common(a, b, lower));
        assert(is_greatest_common(a, b, upper));
        lemma_pair_intersection_from_bounds(a, b, lower, upper);
    }
    Some(Some(Interval { lower, upper }))
}

/// An optional interval as a sequence of zero or one intervals.
pub open spec fn optional_seq(o: Option<Interval>) -> Seq<Interval> {
    match o {
        Some(iv) => seq![iv],
        None => seq![],
    }
}

/// What the protocol reports for `a` against the first `n` intervals of
/// `others`, in order.
pub open spec fn row_intersections(a: Interval, others: Seq<Interval>, n: nat) -> Seq<Interval>
    decreases n,
{
    if n == 0 {
        seq![]
    } else {
        row_intersections(a, others, (n - 1) as nat) + optional_seq(
            pair_intersection(a, others[n - 1]),
        )
    }
}

/// What the protocol reports for the first `n` intervals of `first`, each
/// against every interval of `second`, in order.
pub open spec fn all_intersections(first: Seq<Interval>, second: Seq<Interval>, n: nat) -> Seq<
    Interval,
>
    decreases n,
{
    if n == 0 {
        seq![]
    } else {
        all_intersections(first, second, (n - 1) as nat) + row_intersections(
            first[n - 1],
            second,
            second.len(),
        )
    }
}

/// Every pair of intervals that the protocol runs on has its keys mapped
/// to the group.
pub open spec fn psi_runs_through(first: Seq<Interval>, second: Seq<Interval>) -> bool {
    forall|i: int, j: int|
        0 <= i < first.len() && 0 <= j < second.len() ==> keys_mapped(#[trigger] first[i])
            && keys_mapped(#[trigger] second[j])
}

/// Runs the protocol on every pair of an interval of `interval_1` (first
/// party) and one of `interval_2` (second party), and collects what it
/// reports, row by row. `None` when some pair has a key without a group
/// element.
pub fn psi_intersections(interval_1: &[Interval], interval_2: &[Interval]) -> (r: Option<
    Vec<Interval>,
>)
    ensures
        r is Some <==> psi_runs_through(interval_1@, interval_2@),
        r matches Some(found) ==> found@ == all_intersections(
            interval_1@,
            interval_2@,
            interval_1@.len(),
        ),
{
    let mut intersection_final: Vec<Interval> = Vec::new();
    let mut alice_i: usize = 0;
    while alice_i < interval_1.len()
        invariant
            alice_i <= interval_1@.len(),
            intersection_final@ == all_intersections(interval_1@, interval_2@, alice_i as nat),
            forall|i: int, j: int|
                0 <= i < alice_i && 0 <= j < interval_2@.len() ==> keys_mapped(
                    #[trigger] interval_1@[i],
                ) && keys_mapped(#[trigger] interval_2@[j]),
        decreases interval_1@.len() - alice_i,
    {
        let ghost row_start = intersection_final@;
        let mut bob_i: usize = 0;
        while bob_i < interval_2.len()
            invariant
                alice_i < interval_1@.len(),
                bob_i <= interval_2@.len(),
                intersection_final@ == row_start + row_intersections(
                    interval_1@[alice_i as int],
                    interval_2@,
                    bob_i as nat,
                ),
                forall|j: int|
                    0 <= j < bob_i ==> keys_mapped(interval_1@[alice_i as int]) && keys_mapped(
                        #[trigger] interval_2@[j],
                    ),
            decreases interval_2@.len() - bob_i,
        {
            let alice_current_interval: Interval = interval_1[alice_i];
            let bob_current_interval: Interval = interval_2[bob_i];
            match psi_pair(alice_current_interval, bob_current_interval) {
                Some(found) => {
                    let ghost prev = intersection_final@;
                    match found {
                        Some(iv) => {
                            intersection_final.push(iv);
                        },
                        None => {},
                    }
                    assert(intersection_final@ =~= prev + optional_seq(found));
                    assert(row_start + row_intersections(
                        interval_1@[alice_i as int],
                        interval_2@,
                        (bob_i + 1) as nat,
                    ) =~= prev + optional_seq(found));
                },
                None => {
                    assert(!psi_runs_through(interval_1@, interval_2@)) by {
                        assert(!(keys_mapped(interval_1@[alice_i as int]) && keys_mapped(
                            interval_2@[bob_i as int],
                        )));
                    }
                    return None;
                },
            }
            bob_i = bob_i + 1;
        }
        assert(intersection_final@ =~= all_intersections(
            interval_1@,
            interval_2@,
            (alice_i + 1) as nat,
        ));
        alice_i = alice_i + 1;
    }
    Some(intersection_final)
}

/// The protocol finds what the two intervals share: where `a` and `b`
/// overlap and every key of `a` has a group element, the reported interval
/// lies within `a` and covers the whole overlap `[max(lowers), min(uppers)]`.
/// It may cover more only where the doubly blinded values of two different
/// keys collide.
pub proof fn lemma_pair_covers_overlap(a: Interval, b: Interval)
    requires
        keys_mapped(a),
        a.lower <= b.upper,
        b.lower <= a.upper,
        a.lower <= a.upper,
        b.lower <= b.upper,
    ensures
        pair_intersection(a, b) matches Some(iv) && a.lower <= iv.lower && iv.upper <= a.upper
            && iv.lower <= (if a.lower < b.lower { b.lower } else { a.lower })
            && (if a.upper < b.upper { a.upper } else { b.upper }) <= iv.upper,
{
    let lo: u32 = if a.lower < b.lower { b.lower } else { a.lower };
    let hi: u32 = if a.upper < b.upper { a.upper } else { b.upper };
    lemma_shared_key_is_common(a, b, lo);
    lemma_shared_key_is_common(a, b, hi);
    lemma_least_common_exists(a, b, lo);
    lemma_greatest_common_exists(a, b, hi);
    let l = choose|k: u32| is_least_common(a, b, k);
    let h = choose|k: u32| is_greatest_common(a, b, k);
    assert(is_least_common(a, b, l));
    assert(is_greatest_common(a, b, h));
    assert(is_common_key(a, b, lo));
    assert(is_common_key(a, b, hi));
}

/// A key that lies in both intervals is common: both parties reach the same
/// doubly blinded value for it.
pub proof fn lemma_shared_key_is_common(a: Interval, b: Interval, k: u32)
    requires
        in_interval(a, k),
        in_interval(b, k),
        group_element(k) is Some,
    ensures
        is_common_key(a, b, k),
{
    let g = group_element(k)->0;
    lemma_blinding_commutes(g as int, ALICE_SECRET as nat, BOB_SECRET as nat, P as int);
    assert(double_blinded(k, BOB_SECRET, ALICE_SECRET) == double_blinded(
        k,
        ALICE_SECRET,
        BOB_SECRET,
    ));
}

proof fn lemma_least_common_exists(a: Interval, b: Interval, k: u32)
    requires
        is_common_key(a, b, k),
    ensures
        exists|l: u32| is_least_common(a, b, l),
    decreases k,
{
    if exists|d: u32| d < k && #[trigger] is_common_key(a, b, d) {
        let d = choose|d: u32| d < k && #[trigger] is_common_key(a, b, d);
        lemma_least_common_exists(a, b, d);
    } else {
        assert(is_least_common(a, b, k));
    }
}

proof fn lemma_greatest_common_exists(a: Interval, b: Interval, k: u32)
    requires
        is_common_key(a, b, k),
    ensures
        exists|h: u32| is_greatest_common(a, b, h),
    decreases u32::MAX - k,
{
    if exists|d: u32| d > k && #[trigger] is_common_key(a, b, d) {
        let d = choose|d: u32| d > k && #[trigger] is_common_key(a, b, d);
        lemma_greatest_common_exists(a, b, d);
    } else {
        assert(is_greatest_common(a, b, k));
    }
}

/// The doubly blinded values of the two parties meet only for equal keys:
/// no key of `a`, blinded by the first party and then the second, gives
/// the value of a different key of `b` blinded the other way round.
pub open spec fn blinding_separates(a: Interval, b: Interval) -> bool {
    forall|k: u32, k2: u32|
        #![trigger double_blinded(k, ALICE_SECRET, BOB_SECRET), double_blinded(k2, BOB_SECRET, ALICE_SECRET)]
        in_interval(a, k) && in_interval(b, k2) && double_blinded(k, ALICE_SECRET, BOB_SECRET)
            == double_blinded(k2, BOB_SECRET, ALICE_SECRET) ==> k == k2
}

/// The protocol is exact where blinding separates the keys: every key of
/// `a` has a group element and no two different keys of `a` and `b` meet
/// at one doubly blinded value. Then what it reports for `a` and `b` is
/// their overlap `[max(lowers), min(uppers)]`, or nothing when they do not
/// overlap.
pub proof fn lemma_pair_is_overlap(a: Interval, b: Interval)
    requires
        keys_mapped(a),
        blinding_separates(a, b),
    ensures
        pair_intersection(a, b) == (if a.lower <= b.upper && b.lower <= a.upper && a.lower
            <= a.upper && b.lower <= b.upper {
            Some(
                Interval {
                    lower: if a.lower < b.lower {
                        b.lower
                    } else {
                        a.lower
                    },
                    upper: if a.upper < b.upper {
                        a.upper
                    } else {
                        b.upper
                    },
                },
            )
        } else {
            None
        }),
{
    assert forall|k: u32| #[trigger] is_common_key(a, b, k) <==> in_interval(a, k) && in_interval(
        b,
        k,
    ) by {
        if is_common_key(a, b, k) {
            let k2 = choose|k2: u32|
                in_interval(b, k2) && #[trigger] double_blinded(k2, BOB_SECRET, ALICE_SECRET)
                    == double_blinded(k, ALICE_SECRET, BOB_SECRET);
            assert(k == k2);
        }
        if in_interval(a, k) && in_interval(b, k) {
            lemma_shared_key_is_common(a, b, k);
        }
    }
    if a.lower <= b.upper && b.lower <= a.upper && a.lower <= a.upper && b.lower <= b.upper {
        let lo: u32 = if a.lower < b.lower { b.lower } else { a.lower };
        let hi: u32 = if a.upper < b.upper { a.upper } else { b.upper };
        assert(is_common_key(a, b, lo));
        assert(is_common_key(a, b, hi));
        assert(is_least_common(a, b, lo));
        assert(is_greatest_common(a, b, hi));
        lemma_pair_intersection_from_bounds(a, b, lo, hi);
    } else {
        assert forall|k: u32| !is_common_key(a, b, k) by {
        }
    }
}

/// What a row reports for the pair at position `j` stands in the row.
proof fn lemma_row_holds_pair(a: Interval, others: Seq<Interval>, n: nat, j: int, iv: Interval)
    requires
        0 <= j < n,
        pair_intersection(a, others[j]) == Some(iv),
    ensures
        row_intersections(a, others, n).contains(iv),
    decreases n,
{
    let prev = row_intersections(a, others, (n - 1) as nat);
    let last = optional_seq(pair_intersection(a, others[n - 1]));
    assert(row_intersections(a, others, n) == prev + last);
    if j == n - 1 {
        assert((prev + last)[prev.len() as int] == iv);
    } else {
        lemma_row_holds_pair(a, others, (n - 1) as nat, j, iv);
        let t = choose|t: int| 0 <= t < prev.len() && prev[t] == iv;
        assert((prev + last)[t] == iv);
    }
}

/// What the row of the interval at position `i` reports stands in the list.
proof fn lemma_all_holds_row(
    first: Seq<Interval>,
    second: Seq<Interval>,
    n: nat,
    i: int,
    iv: Interval,
)
    requires
        0 <= i < n,
        n <= first.len(),
        row_intersections(first[i], second, second.len()).contains(iv),
    ensures
        all_intersections(first, second, n).contains(iv),
    decreases n,
{
    let prev = all_intersections(first, second, (n - 1) as nat);
    let last = row_intersections(first[n - 1], second, second.len());
    assert(all_intersections(first, second, n) == prev + last);
    if i == n - 1 {
        let t = choose|t: int| 0 <= t < last.len() && last[t] == iv;
        assert((prev + last)[prev.len() + t] == iv);
    } else {
        lemma_all_holds_row(first, second, (n - 1) as nat, i, iv);
        let t = choose|t: int| 0 <= t < prev.len() && prev[t] == iv;
        assert((prev + last)[t] == iv);
    }
}

/// No shared value is lost: where the protocol runs through, every value
/// that lies in an interval of the first party and in one of the second
/// lies in some interval of the list reported for them.
pub proof fn lemma_shared_values_reported(
    first: Seq<Interval>,
    second: Seq<Interval>,
    i: int,
    j: int,
    k: u32,
)
    requires
        psi_runs_through(first, second),
        0 <= i < first.len(),
        0 <= j < second.len(),
        in_interval(first[i], k),
        in_interval(second[j], k),
    ensures
        exists|t: int|
            0 <= t < all_intersections(first, second, first.len()).len() && in_interval(
                #[trigger] all_intersections(first, second, first.len())[t],
                k,
            ),
{
    let a = first[i];
    let b = second[j];
    assert(keys_mapped(a) && keys_mapped(b));
    lemma_pair_covers_overlap(a, b);
    let iv = pair_intersection(a, b)->0;
    lemma_row_holds_pair(a, second, second.len(), j, iv);
    lemma_all_holds_row(first, second, first.len(), i, iv);
    let all = all_intersections(first, second, first.len());
    let t = choose|t: int| 0 <= t < all.len() && all[t] == iv;
    assert(in_interval(all[t], k));
}

} // verus!
