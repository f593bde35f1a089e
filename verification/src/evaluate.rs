//! Membership evaluator: the private computation at the heart of the proof.
//!
//! Given one address and a set of inclusive exclusion ranges, decides
//! whether the address is clear of every range. The full range set is
//! always scanned, with no short-circuit, so that nothing observable
//! depends on *which* range matched.

use vstd::prelude::*;

verus! {

/// An address lies inside an inclusive range `(start, end)`.
pub open spec fn in_range(ip: u32, range: (u32, u32)) -> bool {
    range.0 <= ip && ip <= range.1
}

/// The evaluator's result: `true` exactly when the address lies in none
/// of the ranges ("clear"), `false` when at least one range contains it.
pub open spec fn spec_is_excluded(ip: u32, ranges: Seq<(u32, u32)>) -> bool {
    forall|i: int| 0 <= i < ranges.len() ==> !in_range(ip, #[trigger] ranges[i])
}

/// Check if an IP address is excluded from the specified country ranges.
/// Returns `true` if the IP is in none of the ranges (user is clear),
/// `false` if the IP is inside at least one range.
///
/// Every range is examined; the scan never stops early on a match.
pub fn is_excluded(ip: u32, excluded_ranges: Vec<(u32, u32)>) -> (clear: bool)
    ensures
        clear == spec_is_excluded(ip, excluded_ranges@),
{
    is_excluded_ref(ip, &excluded_ranges)
}

/// The same evaluation over a borrowed range set.
pub fn is_excluded_ref(ip: u32, excluded_ranges: &Vec<(u32, u32)>) -> (clear: bool)
    ensures
        clear == spec_is_excluded(ip, excluded_ranges@),
{
    let mut hit = false;
    let mut i: usize = 0;
    while i < excluded_ranges.len()
        invariant
            0 <= i <= excluded_ranges@.len(),
            hit == exists|j: int| 0 <= j < i && in_range(ip, #[trigger] excluded_ranges@[j]),
        decreases excluded_ranges@.len() - i,
    {
        let (start, end) = excluded_ranges[i];
        let matched = start <= ip && ip <= end;
        hit = hit || matched;
        i = i + 1;
    }
    !hit
}

/// A range whose bounds are inverted (`start > end`) contains no address
/// at all: it is an inert entry, never an error.
pub proof fn lemma_inverted_range_matches_nothing(range: (u32, u32))
    requires
        range.0 > range.1,
    ensures
        forall|ip: u32| !in_range(ip, range),
{
}

/// The evaluator is order-independent: two range sequences holding the
/// same ranges (as a multiset, so permutations and duplicates alike)
/// give the same result for every address.
pub proof fn lemma_is_excluded_order_independent(ip: u32, r1: Seq<(u32, u32)>, r2: Seq<(u32, u32)>)
    requires
        r1.to_multiset() == r2.to_multiset(),
    ensures
        spec_is_excluded(ip, r1) == spec_is_excluded(ip, r2),
{
    broadcast use vstd::seq_lib::group_to_multiset_ensures;

    assert forall|i: int| 0 <= i < r1.len() && in_range(ip, r1[i]) implies !spec_is_excluded(
        ip,
        r2,
    ) by {
        assert(r1.contains(r1[i]));
        assert(r1.to_multiset().count(r1[i]) > 0);
        assert(r2.to_multiset().count(r1[i]) > 0);
        assert(r2.contains(r1[i]));
        let j = choose|j: int| 0 <= j < r2.len() && r2[j] == r1[i];
        assert(in_range(ip, r2[j]));
    }
    assert forall|i: int| 0 <= i < r2.len() && in_range(ip, r2[i]) implies !spec_is_excluded(
        ip,
        r1,
    ) by {
        assert(r2.contains(r2[i]));
        assert(r2.to_multiset().count(r2[i]) > 0);
        assert(r1.to_multiset().count(r2[i]) > 0);
        assert(r1.contains(r2[i]));
        let j = choose|j: int| 0 <= j < r1.len() && r1[j] == r2[i];
        assert(in_range(ip, r1[j]));
    }
}

} // verus!
