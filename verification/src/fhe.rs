//! The plain side of the homomorphic interval intersection: the parties and
//! their 64-bit intervals, and the decision taken on the decrypted bounds.
//! The encryption and the encrypted comparisons themselves are `tfhe`'s.

use vstd::prelude::*;

verus! {

/// The closed interval `[lower, upper]` of `u64` values.
#[derive(Clone, Copy, Debug, PartialEq, Eq, Hash)]
pub struct Interval {
    pub lower: u64,
    pub upper: u64,
}

impl Interval {
    /// The interval `[lower, upper]`.
    pub fn new(lower: u64, upper: u64) -> (iv: Self)
        ensures
            iv.lower == lower,
            iv.upper == upper,
    {
        Interval { lower, upper }
    }
}

/// One party: a name and the intervals it holds, in the order added.
pub struct PsiParty {
    pub name: String,
    pub intervals: Vec<Interval>,
}

impl PsiParty {
    /// A party with the given name and no intervals.
    pub fn new(name: String) -> (party: Self)
        ensures
            party.name@ == name@,
            party.intervals@ == Seq::<Interval>::empty(),
    {
        PsiParty { name, intervals: Vec::new() }
    }

    /// Appends `interval` to the party's intervals.
    pub fn add_interval(&mut self, interval: Interval)
        ensures
            final(self).name@ == old(self).name@,
            final(self).intervals@ == old(self).intervals@.push(interval),
    {
        self.intervals.push(interval);
    }
}

/// A decrypted pair of bounds describes a non-empty intersection.
pub open spec fn is_nonempty_bounds(bounds: (u64, u64)) -> bool {
    bounds.0 <= bounds.1
}

/// Keeps, in order, the decrypted pairs `(left, right)` with
/// `left <= right`: the pairs of intervals that do intersect.
pub fn collect_intersections(decrypted: &[(u64, u64)]) -> (intersections: Vec<(u64, u64)>)
    ensures
        intersections@ == decrypted@.filter(|bounds: (u64, u64)| is_nonempty_bounds(bounds)),
        forall|i: int|
            0 <= i < intersections@.len() ==> #[trigger] intersections@[i].0
                <= intersections@[i].1,
{
    let ghost keep = |bounds: (u64, u64)| is_nonempty_bounds(bounds);
    let mut intersections: Vec<(u64, u64)> = Vec::new();
    let mut i: usize = 0;
    proof {
        reveal(Seq::filter);
        assert(decrypted@.subrange(0, 0).filter(keep) =~= Seq::<(u64, u64)>::empty());
    }
    while i < decrypted.len()
        invariant
            i <= decrypted@.len(),
            keep == (|bounds: (u64, u64)| is_nonempty_bounds(bounds)),
            intersections@ == decrypted@.subrange(0, i as int).filter(keep),
        decreases decrypted@.len() - i,
    {
        let (decrypted_left, decrypted_right) = decrypted[i];
        proof {
            reveal(Seq::filter);
            assert(decrypted@.subrange(0, i + 1).drop_last() =~= decrypted@.subrange(0, i as int));
        }
        if decrypted_left <= decrypted_right {
            intersections.push((decrypted_left, decrypted_right));
        }
        i = i + 1;
    }
    assert(decrypted@.subrange(0, i as int) =~= decrypted@);
    proof {
        lemma_collected_pairs_are_intersections(decrypted@);
    }
    intersections
}

/// Elements of a filtered sequence come from the sequence.
proof fn lemma_filter_subset(s: Seq<(u64, u64)>, pred: spec_fn((u64, u64)) -> bool, i: int)
    requires
        0 <= i < s.filter(pred).len(),
    ensures
        s.contains(s.filter(pred)[i]),
    decreases s.len(),
{
    reveal(Seq::filter);
    let rest = s.drop_last().filter(pred);
    if pred(s.last()) && i == rest.len() {
        assert(s[s.len() - 1] == s.last());
    } else {
        lemma_filter_subset(s.drop_last(), pred, i);
        let x = s.filter(pred)[i];
        let k = choose|k: int| 0 <= k < s.drop_last().len() && s.drop_last()[k] == x;
        assert(s[k] == x);
    }
}

/// The decrypted pairs that are kept as intersections, in order.
pub open spec fn kept_pairs(decrypted: Seq<(u64, u64)>) -> Seq<(u64, u64)> {
    decrypted.filter(|bounds: (u64, u64)| is_nonempty_bounds(bounds))
}

/// What is kept of the decrypted bounds is exactly the intersections:
/// every kept pair comes from the input and has `left <= right`, every
/// input pair with `left <= right` is kept, and no pair with
/// `left > right` is.
pub proof fn lemma_collected_pairs_are_intersections(decrypted: Seq<(u64, u64)>)
    ensures
        forall|i: int|
            0 <= i < kept_pairs(decrypted).len() ==> (#[trigger] kept_pairs(decrypted)[i]).0
                <= kept_pairs(decrypted)[i].1 && decrypted.contains(kept_pairs(decrypted)[i]),
        forall|j: int|
            0 <= j < decrypted.len() && decrypted[j].0 <= decrypted[j].1 ==> kept_pairs(
                decrypted,
            ).contains(#[trigger] decrypted[j]),
        forall|j: int|
            0 <= j < decrypted.len() && decrypted[j].0 > decrypted[j].1 ==> !kept_pairs(
                decrypted,
            ).contains(#[trigger] decrypted[j]),
{
    let pred = |bounds: (u64, u64)| is_nonempty_bounds(bounds);
    let kept = decrypted.filter(pred);
    assert forall|i: int| 0 <= i < kept.len() implies #[trigger] kept[i].0 <= kept[i].1
        && decrypted.contains(kept[i]) by {
        decrypted.lemma_filter_pred(pred, i);
        lemma_filter_subset(decrypted, pred, i);
        assert(kept == kept_pairs(decrypted));
    }
    assert forall|j: int| 0 <= j < decrypted.len() && decrypted[j].0 <= decrypted[j].1 implies kept.contains(
        #[trigger] decrypted[j],
    ) by {
        decrypted.lemma_filter_contains(pred, j);
    }
    assert forall|j: int| 0 <= j < decrypted.len() && decrypted[j].0 > decrypted[j].1 implies !kept.contains(
        #[trigger] decrypted[j],
    ) by {
        if kept.contains(decrypted[j]) {
            let t = choose|t: int| 0 <= t < kept.len() && kept[t] == decrypted[j];
            decrypted.lemma_filter_pred(pred, t);
        }
    }
}

} // verus!
