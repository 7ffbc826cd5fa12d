//! The topology axioms, tested on a collection of subsets.

use vstd::prelude::*;
use crate::subsets::ground_set;
use crate::subsets::has_subset;
use crate::subsets::intersection;
use crate::subsets::intersection_of;
use crate::subsets::subsets_view;
use crate::subsets::union;
use crate::subsets::union_of;
use crate::subsets::whole_set;

verus! {

/// The collection holds the union of its members at positions `i` and `j`.
pub open spec fn holds_union(collection: Seq<Seq<usize>>, i: int, j: int) -> bool {
    collection.contains(union_of(collection[i], collection[j]))
}

/// The collection holds the intersection of its members at positions `i` and
/// `j`, taken in that order.
pub open spec fn holds_intersection(collection: Seq<Seq<usize>>, i: int, j: int) -> bool {
    collection.contains(intersection_of(collection[i], collection[j]))
}

/// The union of any two members, a member with itself included, is a member.
pub open spec fn closed_under_union(collection: Seq<Seq<usize>>) -> bool {
    forall|i: int, j: int|
        0 <= i < collection.len() && 0 <= j < collection.len() ==> #[trigger] holds_union(
            collection,
            i,
            j,
        )
}

/// The intersection of any two members, in either order, is a member.
pub open spec fn closed_under_intersection(collection: Seq<Seq<usize>>) -> bool {
    forall|i: int, j: int|
        0 <= i < collection.len() && 0 <= j < collection.len() ==> #[trigger] holds_intersection(
            collection,
            i,
            j,
        )
}

/// The collection is a topology on the ground set of `n` points: it holds the
/// empty set and the whole set and is closed under union and intersection.
/// Membership goes by value: a member is found when its index sequence is.
pub open spec fn is_topology(n: nat, collection: Seq<Seq<usize>>) -> bool {
    &&& collection.contains(Seq::<usize>::empty())
    &&& collection.contains(whole_set(n))
    &&& closed_under_union(collection)
    &&& closed_under_intersection(collection)
}

/// Tests the four axioms on `candidate`. Closure is looked at only when both
/// the empty set and the whole set are there, and then for every ordered pair
/// of members.
pub fn satisfies_axioms(cardinality: usize, candidate: &Vec<Vec<usize>>) -> (valid: bool)
    ensures
        valid == is_topology(cardinality as nat, subsets_view(candidate@)),
{
    let ghost members = subsets_view(candidate@);
    let empty_set: Vec<usize> = Vec::new();
    let whole = ground_set(cardinality);
    assert(empty_set@ =~= Seq::<usize>::empty());
    let contains_empty_set = has_subset(candidate, &empty_set);
    let contains_whole_set = has_subset(candidate, &whole);
    if !(contains_empty_set && contains_whole_set) {
        return false;
    }
    let mut unions_are_conserved = true;
    let mut intersections_are_conserved = true;
    let size = candidate.len();
    let mut i: usize = 0;
    while i < size
        invariant
            i <= size == candidate@.len(),
            members == subsets_view(candidate@),
            unions_are_conserved == (forall|p: int, q: int|
                0 <= p < i && 0 <= q < size ==> #[trigger] holds_union(members, p, q)),
            intersections_are_conserved == (forall|p: int, q: int|
                0 <= p < i && 0 <= q < size ==> #[trigger] holds_intersection(members, p, q)),
        decreases size - i,
    {
        let ghost unions_before = unions_are_conserved;
        let ghost intersections_before = intersections_are_conserved;
        let mut j: usize = 0;
        while j < size
            invariant
                i < size == candidate@.len(),
                j <= size,
                members == subsets_view(candidate@),
                unions_before == (forall|p: int, q: int|
                    0 <= p < i && 0 <= q < size ==> #[trigger] holds_union(members, p, q)),
                intersections_before == (forall|p: int, q: int|
                    0 <= p < i && 0 <= q < size ==> #[trigger] holds_intersection(
                        members,
                        p,
                        q,
                    )),
                unions_are_conserved == (unions_before && forall|q: int|
                    0 <= q < j ==> #[trigger] holds_union(members, i as int, q)),
                intersections_are_conserved == (intersections_before && forall|q: int|
                    0 <= q < j ==> #[trigger] holds_intersection(members, i as int, q)),
            decreases size - j,
        {
            let joined = union(&candidate[i], &candidate[j]);
            let has_union = has_subset(candidate, &joined);
            assert(has_union == holds_union(members, i as int, j as int));
            unions_are_conserved = unions_are_conserved && has_union;
            let common = intersection(&candidate[i], &candidate[j]);
            let has_intersection = has_subset(candidate, &common);
            assert(has_intersection == holds_intersection(members, i as int, j as int));
            intersections_are_conserved = intersections_are_conserved && has_intersection;
            j += 1;
        }
        i += 1;
    }
    unions_are_conserved && intersections_are_conserved
}

} // verus!
