//! Subsets of the ground set, held as sequences of indices.
//!
//! A subset in canonical form lists its indices in increasing order, so two
//! subsets are the same set exactly when they are the same sequence.

use vstd::prelude::*;

verus! {

/// Each index is smaller than the one after it.
pub open spec fn is_ascending(s: Seq<usize>) -> bool {
    forall|i: int, j: int| 0 <= i < j < s.len() ==> s[i] < s[j]
}

/// The positions of the set flags of `bits`, in increasing order.
pub open spec fn set_positions(bits: Seq<bool>) -> Seq<usize>
    decreases bits.len(),
{
    if bits.len() == 0 {
        Seq::empty()
    } else {
        let below = set_positions(bits.drop_last());
        if bits.last() {
            below.push((bits.len() - 1) as usize)
        } else {
            below
        }
    }
}

/// The ground set of `n` points: `0, 1, .., n - 1`.
pub open spec fn whole_set(n: nat) -> Seq<usize> {
    Seq::new(n, |i: int| i as usize)
}

/// `u` is the canonical form of the union of `a` and `b`: it is ascending and
/// holds exactly the indices that occur in `a` or in `b`.
pub open spec fn is_union_of(u: Seq<usize>, a: Seq<usize>, b: Seq<usize>) -> bool {
    &&& is_ascending(u)
    &&& forall|x: usize| #[trigger] u.contains(x) <==> a.contains(x) || b.contains(x)
}

/// The union of `a` and `b`, sorted and free of duplicates.
pub open spec fn union_of(a: Seq<usize>, b: Seq<usize>) -> Seq<usize> {
    choose|u: Seq<usize>| is_union_of(u, a, b)
}

/// The entries of `a` that occur in `b`, in the order in which `a` has them.
pub open spec fn intersection_of(a: Seq<usize>, b: Seq<usize>) -> Seq<usize> {
    a.filter(|x: usize| b.contains(x))
}

/// Two ascending sequences with the same members are the same sequence.
pub proof fn lemma_ascending_unique(a: Seq<usize>, b: Seq<usize>)
    requires
        is_ascending(a),
        is_ascending(b),
        forall|x: usize| #[trigger] a.contains(x) <==> b.contains(x),
    ensures
        a == b,
    decreases a.len(),
{
    if a.len() == 0 {
        if b.len() != 0 {
            assert(b.contains(b[0]));
            assert(a.contains(b[0]));
        }
        assert(a =~= b);
    } else {
        assert(a.contains(a.last()));
        let jb = choose|j: int| 0 <= j < b.len() && b[j] == a.last();
        assert(b.contains(b.last()));
        assert(a.contains(b.last()));
        let ja = choose|j: int| 0 <= j < a.len() && a[j] == b.last();
        assert(a.last() == b.last());
        let a0 = a.drop_last();
        let b0 = b.drop_last();
        assert forall|x: usize| #[trigger] a0.contains(x) <==> b0.contains(x) by {
            if a0.contains(x) {
                let i = choose|i: int| 0 <= i < a0.len() && a0[i] == x;
                assert(a[i] == x);
                assert(a.contains(x));
                let j = choose|j: int| 0 <= j < b.len() && b[j] == x;
                assert(b0[j] == x);
            }
            if b0.contains(x) {
                let i = choose|i: int| 0 <= i < b0.len() && b0[i] == x;
                assert(b[i] == x);
                assert(b.contains(x));
                assert(a.contains(x));
                let j = choose|j: int| 0 <= j < a.len() && a[j] == x;
                assert(a0[j] == x);
            }
        }
        lemma_ascending_unique(a0, b0);
        assert(a =~= a0.push(a.last()));
        assert(b =~= b0.push(b.last()));
    }
}

/// A sequence that meets `is_union_of` is the union.
pub proof fn lemma_union_of(u: Seq<usize>, a: Seq<usize>, b: Seq<usize>)
    requires
        is_union_of(u, a, b),
    ensures
        u == union_of(a, b),
{
    lemma_ascending_unique(u, union_of(a, b));
}

/// `set_positions` is ascending and holds exactly the positions of the set
/// flags.
pub proof fn lemma_set_positions(bits: Seq<bool>)
    requires
        bits.len() <= usize::MAX,
    ensures
        is_ascending(set_positions(bits)),
        set_positions(bits).len() <= bits.len(),
        forall|x: usize| #[trigger]
            set_positions(bits).contains(x) <==> x < bits.len() && bits[x as int],
    decreases bits.len(),
{
    let s = set_positions(bits);
    if bits.len() != 0 {
        let shorter = bits.drop_last();
        let below = set_positions(shorter);
        let top = (bits.len() - 1) as usize;
        lemma_set_positions(shorter);
        assert forall|i: int| 0 <= i < below.len() implies below[i] < top by {
            assert(below.contains(below[i]));
        }
        assert forall|x: usize| #[trigger] s.contains(x) <==> x < bits.len() && bits[x as int] by {
            if s.contains(x) {
                let i = choose|i: int| 0 <= i < s.len() && s[i] == x;
                if i < below.len() {
                    assert(below.contains(x));
                }
            }
            if x < bits.len() && bits[x as int] {
                if x == top {
                    assert(s[s.len() - 1] == x);
                } else {
                    assert(below.contains(x));
                    let i = choose|i: int| 0 <= i < below.len() && below[i] == x;
                    assert(s[i] == x);
                }
            }
        }
    }
}

/// A sequence of flags of which none is set has no set positions.
pub proof fn lemma_empty_positions(bits: Seq<bool>)
    requires
        forall|i: int| 0 <= i < bits.len() ==> !bits[i],
    ensures
        set_positions(bits) == Seq::<usize>::empty(),
    decreases bits.len(),
{
    if bits.len() != 0 {
        lemma_empty_positions(bits.drop_last());
    }
}

/// The subsets that a collection holds, each as a sequence of indices.
pub open spec fn subsets_view(collection: Seq<Vec<usize>>) -> Seq<Seq<usize>> {
    Seq::new(collection.len(), |k: int| collection[k]@)
}

/// The positions below `limit` at which `flags` holds a set flag, in
/// increasing order. Positions past the end of `flags` hold none.
pub fn positions_below(flags: &Vec<bool>, limit: usize) -> (positions: Vec<usize>)
    ensures
        positions@ == set_positions(
            flags@.take(if limit <= flags@.len() { limit as int } else { flags@.len() as int }),
        ),
{
    let end = if limit <= flags.len() { limit } else { flags.len() };
    let mut positions: Vec<usize> = Vec::new();
    let mut i: usize = 0;
    while i < end
        invariant
            i <= end <= flags@.len(),
            positions@ == set_positions(flags@.take(i as int)),
        decreases end - i,
    {
        assert(flags@.take(i + 1).drop_last() =~= flags@.take(i as int));
        if flags[i] {
            positions.push(i);
        }
        i += 1;
    }
    positions
}

/// The ground set of `cardinality` points, in canonical form.
pub fn ground_set(cardinality: usize) -> (whole: Vec<usize>)
    ensures
        whole@ == whole_set(cardinality as nat),
{
    let mut whole: Vec<usize> = Vec::new();
    let mut i: usize = 0;
    while i < cardinality
        invariant
            i <= cardinality,
            whole@ == whole_set(i as nat),
        decreases cardinality - i,
    {
        whole.push(i);
        assert(whole@ =~= whole_set((i + 1) as nat));
        i += 1;
    }
    whole
}

/// Whether `index` occurs in `subset`.
pub fn has_index(subset: &Vec<usize>, index: usize) -> (found: bool)
    ensures
        found == subset@.contains(index),
{
    let mut i: usize = 0;
    while i < subset.len()
        invariant
            i <= subset@.len(),
            forall|j: int| 0 <= j < i ==> subset@[j] != index,
        decreases subset@.len() - i,
    {
        if subset[i] == index {
            return true;
        }
        i += 1;
    }
    false
}

/// Whether two subsets are the same sequence of indices.
pub fn same_subset(a: &Vec<usize>, b: &Vec<usize>) -> (same: bool)
    ensures
        same == (a@ == b@),
{
    if a.len() != b.len() {
        return false;
    }
    let mut i: usize = 0;
    while i < a.len()
        invariant
            i <= a@.len(),
            a@.len() == b@.len(),
            forall|j: int| 0 <= j < i ==> a@[j] == b@[j],
        decreases a@.len() - i,
    {
        if a[i] != b[i] {
            return false;
        }
        i += 1;
    }
    assert(a@ =~= b@);
    true
}

/// Whether `collection` holds a subset equal, index for index, to `subset`.
pub fn has_subset(collection: &Vec<Vec<usize>>, subset: &Vec<usize>) -> (found: bool)
    ensures
        found == subsets_view(collection@).contains(subset@),
{
    let mut k: usize = 0;
    while k < collection.len()
        invariant
            k <= collection@.len(),
            forall|j: int| 0 <= j < k ==> subsets_view(collection@)[j] != subset@,
        decreases collection@.len() - k,
    {
        if same_subset(&collection[k], subset) {
            assert(subsets_view(collection@)[k as int] == subset@);
            return true;
        }
        k += 1;
    }
    false
}

/// Puts `index` into an ascending sequence at its place, unless it is there
/// already.
fn insert_ascending(subset: &mut Vec<usize>, index: usize)
    requires
        is_ascending(old(subset)@),
    ensures
        is_ascending(final(subset)@),
        forall|x: usize| #[trigger]
            final(subset)@.contains(x) <==> old(subset)@.contains(x) || x == index,
{
    let ghost before = subset@;
    let mut at: usize = 0;
    while at < subset.len() && subset[at] < index
        invariant
            at <= subset@.len(),
            subset@ == before,
            forall|j: int| 0 <= j < at ==> before[j] < index,
        decreases subset@.len() - at,
    {
        at += 1;
    }
    if at < subset.len() && subset[at] == index {
        assert(before.contains(index));
        return ;
    }
    subset.insert(at, index);
    let ghost after = subset@;
    assert forall|x: usize| #[trigger] after.contains(x) <==> before.contains(x) || x == index by {
        if after.contains(x) {
            let i = choose|i: int| 0 <= i < after.len() && after[i] == x;
            if i < at {
                assert(before[i] == x);
            } else if i > at {
                assert(before[i - 1] == x);
            }
        }
        if before.contains(x) {
            let i = choose|i: int| 0 <= i < before.len() && before[i] == x;
            if i < at {
                assert(after[i] == x);
            } else {
                assert(after[i + 1] == x);
            }
        }
        if x == index {
            assert(after[at as int] == x);
        }
    }
}

/// The union of two subsets in canonical form: every index that occurs in
/// either, once, in increasing order.
pub fn union(a: &Vec<usize>, b: &Vec<usize>) -> (u: Vec<usize>)
    ensures
        is_union_of(u@, a@, b@),
        u@ == union_of(a@, b@),
{
    let mut u: Vec<usize> = Vec::new();
    let mut i: usize = 0;
    while i < a.len()
        invariant
            i <= a@.len(),
            is_ascending(u@),
            forall|x: usize| #[trigger] u@.contains(x) <==> a@.take(i as int).contains(x),
        decreases a@.len() - i,
    {
        let ghost grown = a@.take(i + 1);
        let ghost so_far = a@.take(i as int);
        let ghost held = u@;
        insert_ascending(&mut u, a[i]);
        assert forall|x: usize| #[trigger] u@.contains(x) <==> grown.contains(x) by {
            assert(grown =~= so_far.push(a@[i as int]));
            assert(held.contains(x) <==> so_far.contains(x));
            if grown.contains(x) {
                let j = choose|j: int| 0 <= j < grown.len() && grown[j] == x;
                if j < i {
                    assert(so_far[j] == x);
                }
            }
            if so_far.contains(x) {
                let j = choose|j: int| 0 <= j < so_far.len() && so_far[j] == x;
                assert(grown[j] == x);
            }
            if x == a@[i as int] {
                assert(grown[i as int] == x);
            }
        }
        i += 1;
    }
    assert(a@.take(a@.len() as int) =~= a@);
    let mut j: usize = 0;
    while j < b.len()
        invariant
            j <= b@.len(),
            is_ascending(u@),
            forall|x: usize| #[trigger]
                u@.contains(x) <==> a@.contains(x) || b@.take(j as int).contains(x),
        decreases b@.len() - j,
    {
        let ghost grown = b@.take(j + 1);
        let ghost so_far = b@.take(j as int);
        let ghost held = u@;
        insert_ascending(&mut u, b[j]);
        assert forall|x: usize| #[trigger]
            u@.contains(x) <==> a@.contains(x) || grown.contains(x) by {
            assert(grown =~= so_far.push(b@[j as int]));
            assert(held.contains(x) <==> a@.contains(x) || so_far.contains(x));
            if grown.contains(x) {
                let k = choose|k: int| 0 <= k < grown.len() && grown[k] == x;
                if k < j {
                    assert(so_far[k] == x);
                }
            }
            if so_far.contains(x) {
                let k = choose|k: int| 0 <= k < so_far.len() && so_far[k] == x;
                assert(grown[k] == x);
            }
            if x == b@[j as int] {
                assert(grown[j as int] == x);
            }
        }
        j += 1;
    }
    assert(b@.take(b@.len() as int) =~= b@);
    proof {
        lemma_union_of(u@, a@, b@);
    }
    u
}

/// The intersection of two subsets: the indices of `a` that occur in `b`, in
/// the order of `a`.
pub fn intersection(a: &Vec<usize>, b: &Vec<usize>) -> (common: Vec<usize>)
    ensures
        common@ == intersection_of(a@, b@),
{
    let mut common: Vec<usize> = Vec::new();
    let mut i: usize = 0;
    proof {
        reveal(Seq::filter);
    }
    while i < a.len()
        invariant
            i <= a@.len(),
            common@ == intersection_of(a@.take(i as int), b@),
        decreases a@.len() - i,
    {
        proof {
            reveal(Seq::filter);
            assert(a@.take(i + 1).drop_last() =~= a@.take(i as int));
        }
        if has_index(b, a[i]) {
            common.push(a[i]);
        }
        i += 1;
    }
    assert(a@.take(a@.len() as int) =~= a@);
    common
}

} // verus!
