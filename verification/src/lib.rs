//! Brute-force enumeration of the topologies on a finite set of labelled
//! points.
//!
//! The ground set is `{0, .., n - 1}`. Its subsets are laid out in the order of
//! a binary counter of `n` bits, and a second counter with one bit per subset
//! walks through every non-empty collection of subsets. A collection counts
//! when it holds the empty set and the whole set and is closed under pairwise
//! union and intersection.

use vstd::prelude::*;
use vstd::arithmetic::power2::pow2;
use vstd::arithmetic::power2::lemma2_to64;
use vstd::arithmetic::power2::lemma_pow2_pos;
use vstd::arithmetic::power2::lemma_pow2_unfold;
use vstd::arithmetic::power2::lemma_pow2_strictly_increases;

pub mod binary;
pub mod subsets;
pub mod topology;

use crate::binary::Binary;
use crate::binary::bits_of;
use crate::binary::value_of;
use crate::binary::all_clear;
use crate::binary::lemma_all_clear_value;
use crate::binary::lemma_bits_len;
use crate::binary::lemma_bits_of_value;
use crate::binary::lemma_value_bound;
use crate::binary::lemma_value_of_bits;
use crate::subsets::is_ascending;
use crate::subsets::lemma_ascending_unique;
use crate::subsets::lemma_empty_positions;
use crate::subsets::lemma_set_positions;
use crate::subsets::positions_below;
use crate::subsets::set_positions;
use crate::subsets::subsets_view;
use crate::subsets::whole_set;
use crate::topology::is_topology;
use crate::topology::satisfies_axioms;

verus! {

/// The subset of the ground set of `n` points that stands at `position` in the
/// power set: the indices of the set bits of `position`.
pub open spec fn subset_at(n: nat, position: nat) -> Seq<usize> {
    set_positions(bits_of(position, n))
}

/// The power set of the ground set of `n` points: `2^n` subsets, ordered by the
/// binary value of their bit pattern.
pub open spec fn power_set_of(n: nat) -> Seq<Seq<usize>> {
    Seq::new(pow2(n), |position: int| subset_at(n, position as nat))
}

/// The members of `power_set` that `flags` selects: those at the positions of
/// its set flags, in increasing order of position. Flags past the end of the
/// power set select nothing.
pub open spec fn selection(power_set: Seq<Seq<usize>>, flags: Seq<bool>) -> Seq<Seq<usize>> {
    let reach = if flags.len() <= power_set.len() {
        flags.len()
    } else {
        power_set.len()
    };
    set_positions(flags.take(reach as int)).map_values(|i: usize| power_set[i as int])
}

/// The candidate with the binary value `value` is a topology on `n` points.
pub open spec fn is_topology_value(n: nat, value: nat) -> bool {
    is_topology(n, selection(power_set_of(n), bits_of(value, pow2(n))))
}

/// The values from 1 to `bound` whose candidates are topologies on `n`
/// points.
pub open spec fn topology_values(n: nat, bound: nat) -> Set<nat> {
    Set::new(|value: nat| 1 <= value <= bound && is_topology_value(n, value))
}

/// The number of topologies among the non-empty collections of subsets of the
/// ground set of `n` points.
pub open spec fn topology_count(n: nat) -> nat {
    topology_values(n, (pow2(pow2(n)) - 1) as nat).len()
}

/// The power set of a ground set of fewer than 16 points.
pub struct PowerSet {
    cardinality: usize,
    power_set: Vec<Vec<usize>>,
    power_set_cardinality: usize,
}

impl View for PowerSet {
    type V = Seq<Seq<usize>>;

    closed spec fn view(&self) -> Seq<Seq<usize>> {
        subsets_view(self.power_set@)
    }
}

/// Two to the power of `exponent`.
fn power_of_two(exponent: usize) -> (power: usize)
    requires
        exponent < 16,
    ensures
        power == pow2(exponent as nat),
        power <= 0x8000,
{
    let mut power: usize = 1;
    let mut i: usize = 0;
    proof {
        lemma2_to64();
    }
    while i < exponent
        invariant
            i <= exponent < 16,
            power == pow2(i as nat),
            pow2(15) == 0x8000,
        decreases exponent - i,
    {
        proof {
            lemma_pow2_unfold((i + 1) as nat);
            if i + 1 < 15 {
                lemma_pow2_strictly_increases((i + 1) as nat, 15);
            }
        }
        power = power * 2;
        i += 1;
    }
    proof {
        if exponent < 15 {
            lemma_pow2_strictly_increases(exponent as nat, 15);
        }
    }
    power
}

impl PowerSet {
    #[verifier::type_invariant]
    spec fn well_formed(&self) -> bool {
        &&& self.cardinality < 16
        &&& self.power_set_cardinality == pow2(self.cardinality as nat)
        &&& subsets_view(self.power_set@) == power_set_of(self.cardinality as nat)
    }

    /// The size of the ground set.
    pub closed spec fn points(&self) -> nat {
        self.cardinality as nat
    }

    /// Builds the power set of the ground set of `cardinality` points: the
    /// empty subset first, then one subset for each value of a counter of
    /// `cardinality` bits.
    pub fn new(cardinality: usize) -> (built: PowerSet)
        requires
            cardinality < 16,
        ensures
            built.points() == cardinality,
            built@ == power_set_of(cardinality as nat),
    {
        let power_set_cardinality = power_of_two(cardinality);
        let mut power_set: Vec<Vec<usize>> = Vec::with_capacity(power_set_cardinality);
        power_set.push(Vec::new());
        let ghost n = cardinality as nat;
        proof {
            lemma_all_clear_value(n);
            lemma_bits_of_value(all_clear(n));
            lemma_empty_positions(all_clear(n));
            lemma_pow2_pos(n);
        }
        assert(power_set@[0]@ =~= subset_at(n, 0));
        if cardinality > 0 {
            let mut binary_counter = Binary::new(cardinality);
            let ghost mut value: nat = 0;
            loop
                invariant
                    n == cardinality,
                    binary_counter@.len() == n,
                    value_of(binary_counter@) == value,
                    power_set@.len() == value + 1,
                    forall|position: int|
                        0 <= position <= value ==> (#[trigger] power_set@[position])@
                            == subset_at(n, position as nat),
                ensures
                    power_set@.len() == pow2(n),
                    forall|position: int|
                        0 <= position < power_set@.len() ==> (#[trigger] power_set@[position])@
                            == subset_at(n, position as nat),
                decreases pow2(n) - value,
            {
                proof {
                    lemma_value_bound(binary_counter@);
                }
                match binary_counter.next() {
                    Some(binary) => {
                        let subset = positions_below(binary.get(), cardinality);
                        proof {
                            value = value + 1;
                            lemma_bits_of_value(binary@);
                            assert(binary@.take(n as int) =~= binary@);
                        }
                        power_set.push(subset);
                    },
                    None => {
                        break ;
                    },
                }
            }
        } else {
            proof {
                lemma2_to64();
            }
        }
        assert(subsets_view(power_set@) =~= power_set_of(n));
        PowerSet { cardinality, power_set, power_set_cardinality }
    }

    /// The size of the ground set.
    pub fn cardinality(&self) -> (cardinality: usize)
        ensures
            cardinality == self.points(),
            cardinality < 16,
    {
        proof {
            use_type_invariant(self);
        }
        self.cardinality
    }

    /// The subsets, in the order in which the power set holds them.
    pub fn subsets(&self) -> (subsets: &Vec<Vec<usize>>)
        ensures
            subsets_view(subsets@) == self@,
            self@ == power_set_of(self.points()),
    {
        proof {
            use_type_invariant(self);
        }
        &self.power_set
    }

    /// The candidate that `binary` selects: a copy of each subset whose
    /// position holds a set flag.
    pub fn select(&self, binary: &Binary) -> (candidate: Vec<Vec<usize>>)
        ensures
            subsets_view(candidate@) == selection(self@, binary@),
    {
        proof {
            use_type_invariant(self);
        }
        let flags = binary.get();
        let positions = positions_below(flags, self.power_set_cardinality);
        let ghost reach = if flags@.len() <= self@.len() {
            flags@.len()
        } else {
            self@.len()
        };
        proof {
            lemma_set_positions(flags@.take(reach as int));
            assert forall|t: int| 0 <= t < positions@.len() implies (#[trigger] positions@[t])
                < self.power_set@.len() by {
                assert(positions@.contains(positions@[t]));
            }
        }
        let mut candidate: Vec<Vec<usize>> = Vec::new();
        let mut k: usize = 0;
        while k < positions.len()
            invariant
                k <= positions@.len(),
                self@ == subsets_view(self.power_set@),
                forall|t: int|
                    0 <= t < positions@.len() ==> (#[trigger] positions@[t]) < self.power_set@.len(),
                candidate@.len() == k,
                forall|t: int|
                    0 <= t < k ==> (#[trigger] candidate@[t])@ == self@[positions@[t] as int],
            decreases positions@.len() - k,
        {
            let subset = self.power_set[positions[k]].clone();
            candidate.push(subset);
            k += 1;
        }
        assert(subsets_view(candidate@) =~= selection(self@, binary@));
        candidate
    }

    /// Whether the candidate that `binary` selects is a topology on the ground
    /// set.
    pub fn is_topology(&self, binary: &Binary) -> (valid: bool)
        ensures
            valid == is_topology(self.points(), selection(self@, binary@)),
    {
        let candidate = self.select(binary);
        satisfies_axioms(self.cardinality, &candidate)
    }

    /// Counts the topologies on the ground set: every non-empty collection of
    /// subsets is tested, in the order of a counter with one flag per subset.
    /// Returns `None` when the count does not fit the machine word.
    pub fn try_count_topologies(&self) -> (count: Option<usize>)
        ensures
            match count {
                Some(found) => found == topology_count(self.points()),
                None => topology_count(self.points()) > usize::MAX,
            },
    {
        proof {
            use_type_invariant(self);
            lemma_pow2_pos(self.points());
        }
        let ghost n = self.points();
        let ghost flags = pow2(n);
        let ghost last = (pow2(flags) - 1) as nat;
        let mut binary_counter = Binary::new(self.power_set_cardinality);
        let mut count_of_topologies: usize = 0;
        let ghost mut value: nat = 0;
        proof {
            lemma_pow2_pos(flags);
            lemma_all_clear_value(flags);
            lemma_topology_values(n, 0);
        }
        loop
            invariant
                n == self.points(),
                flags == pow2(n),
                last == pow2(flags) - 1,
                self@ == power_set_of(n),
                binary_counter@.len() == flags,
                value_of(binary_counter@) == value,
                count_of_topologies == topology_values(n, value).len(),
            ensures
                count_of_topologies == topology_values(n, last).len(),
            decreases pow2(flags) - value,
        {
            proof {
                lemma_value_bound(binary_counter@);
            }
            match binary_counter.next() {
                Some(binary) => {
                    proof {
                        value = value + 1;
                        lemma_bits_of_value(binary@);
                        lemma_value_bound(binary@);
                        lemma_topology_values(n, value);
                        lemma_topology_values_grow(n, value, last);
                    }
                    if self.is_topology(&binary) {
                        if count_of_topologies == usize::MAX {
                            return None;
                        }
                        count_of_topologies += 1;
                    }
                },
                None => {
                    break ;
                },
            }
        }
        Some(count_of_topologies)
    }

    /// The number of topologies on the ground set, where it fits the machine
    /// word.
    pub fn count_topologies(&self) -> (count: usize)
        requires
            topology_count(self.points()) <= usize::MAX,
        ensures
            count == topology_count(self.points()),
    {
        match self.try_count_topologies() {
            Some(count) => count,
            None => unreached(),
        }
    }
}

/// The topologies with a value of at most `bound` are finitely many, at most
/// `bound`, and the value `bound` itself adds one exactly when its candidate
/// is a topology.
pub proof fn lemma_topology_values(n: nat, bound: nat)
    ensures
        topology_values(n, bound).finite(),
        topology_values(n, bound).len() <= bound,
        bound > 0 ==> topology_values(n, bound).len() == topology_values(
            n,
            (bound - 1) as nat,
        ).len() + if is_topology_value(n, bound) {
            1nat
        } else {
            0nat
        },
    decreases bound,
{
    if bound == 0 {
        assert(topology_values(n, bound) =~= Set::<nat>::empty());
    } else {
        let fewer = topology_values(n, (bound - 1) as nat);
        lemma_topology_values(n, (bound - 1) as nat);
        if is_topology_value(n, bound) {
            assert(topology_values(n, bound) =~= fewer.insert(bound));
        } else {
            assert(topology_values(n, bound) =~= fewer);
        }
    }
}

/// A larger bound admits no fewer topologies.
pub proof fn lemma_topology_values_grow(n: nat, lower: nat, upper: nat)
    requires
        lower <= upper,
    ensures
        topology_values(n, lower).len() <= topology_values(n, upper).len(),
{
    lemma_topology_values(n, upper);
    vstd::set_lib::lemma_len_subset(topology_values(n, lower), topology_values(n, upper));
}

/// The subset at a position of the power set is in canonical form: ascending,
/// with every index below `n`.
pub proof fn lemma_subset_at_canonical(n: nat, position: nat)
    requires
        n <= usize::MAX,
    ensures
        is_ascending(subset_at(n, position)),
        forall|t: int|
            0 <= t < subset_at(n, position).len() ==> (#[trigger] subset_at(n, position)[t]) < n,
{
    let bits = bits_of(position, n);
    let subset = subset_at(n, position);
    lemma_bits_len(position, n);
    lemma_set_positions(bits);
    assert forall|t: int| 0 <= t < subset.len() implies (#[trigger] subset[t]) < n by {
        assert(subset.contains(subset[t]));
    }
}

/// Different positions of the power set hold different subsets.
pub proof fn lemma_subset_at_injective(n: nat, p: nat, q: nat)
    requires
        n <= usize::MAX,
        p < pow2(n),
        q < pow2(n),
        subset_at(n, p) == subset_at(n, q),
    ensures
        p == q,
{
    let a = bits_of(p, n);
    let b = bits_of(q, n);
    lemma_value_of_bits(p, n);
    lemma_value_of_bits(q, n);
    lemma_set_positions(a);
    lemma_set_positions(b);
    assert forall|i: int| 0 <= i < n implies a[i] == b[i] by {
        let x = i as usize;
        assert(set_positions(a).contains(x) <==> a[i]);
        assert(set_positions(b).contains(x) <==> b[i]);
    }
    assert(a =~= b);
}

/// The empty subset stands first in the power set and the whole set last.
pub proof fn lemma_subset_at_ends(n: nat)
    requires
        n <= usize::MAX,
    ensures
        pow2(n) >= 1,
        subset_at(n, 0) == Seq::<usize>::empty(),
        subset_at(n, (pow2(n) - 1) as nat) == whole_set(n),
{
    lemma_pow2_pos(n);
    lemma_all_clear_value(n);
    lemma_bits_of_value(all_clear(n));
    lemma_empty_positions(all_clear(n));
    let last = (pow2(n) - 1) as nat;
    let bits = bits_of(last, n);
    lemma_value_of_bits(last, n);
    lemma_value_bound(bits);
    lemma_set_positions(bits);
    let whole = whole_set(n);
    assert forall|x: usize| #[trigger] set_positions(bits).contains(x) <==> whole.contains(x) by {
        if x < n {
            assert(whole[x as int] == x);
        }
    }
    lemma_ascending_unique(set_positions(bits), whole);
}

/// The power set of `n` points has `2^n` members, each an ascending sequence
/// of indices below `n`. No subset stands at two positions; the empty subset
/// stands at position 0 and nowhere else, the whole set at the last position
/// and nowhere else.
pub proof fn lemma_power_set_members(n: nat)
    requires
        n <= usize::MAX,
    ensures
        power_set_of(n).len() == pow2(n),
        forall|p: int|
            0 <= p < pow2(n) ==> is_ascending(#[trigger] power_set_of(n)[p]) && forall|t: int|
                0 <= t < power_set_of(n)[p].len() ==> (#[trigger] power_set_of(n)[p][t]) < n,
        forall|p: int, q: int|
            0 <= p < pow2(n) && 0 <= q < pow2(n) && p != q ==> #[trigger] power_set_of(n)[p]
                != #[trigger] power_set_of(n)[q],
        forall|p: int|
            0 <= p < pow2(n) ==> (#[trigger] power_set_of(n)[p] == Seq::<usize>::empty() <==> p
                == 0),
        forall|p: int|
            0 <= p < pow2(n) ==> (#[trigger] power_set_of(n)[p] == whole_set(n) <==> p == pow2(n)
                - 1),
{
    let members = power_set_of(n);
    lemma_subset_at_ends(n);
    assert forall|p: int| 0 <= p < pow2(n) implies is_ascending(#[trigger] members[p])
        && forall|t: int| 0 <= t < members[p].len() ==> (#[trigger] members[p][t]) < n by {
        lemma_subset_at_canonical(n, p as nat);
    }
    assert forall|p: int, q: int| 0 <= p < pow2(n) && 0 <= q < pow2(n) && p != q implies
        #[trigger] members[p] != #[trigger] members[q] by {
        if members[p] == members[q] {
            lemma_subset_at_injective(n, p as nat, q as nat);
        }
    }
    assert forall|p: int| 0 <= p < pow2(n) implies (#[trigger] members[p] == Seq::<usize>::empty()
        <==> p == 0) by {
        if members[p] == Seq::<usize>::empty() {
            lemma_subset_at_injective(n, p as nat, 0);
        }
    }
    assert forall|p: int| 0 <= p < pow2(n) implies (#[trigger] members[p] == whole_set(n) <==> p
        == pow2(n) - 1) by {
        if members[p] == whole_set(n) {
            lemma_subset_at_injective(n, p as nat, (pow2(n) - 1) as nat);
        }
    }
}

/// The number of topologies is at most the number of candidates tested: the
/// `2^(2^n) - 1` non-empty collections of subsets.
pub proof fn lemma_count_bound(n: nat)
    ensures
        topology_count(n) <= pow2(pow2(n)) - 1,
{
    lemma_pow2_pos(pow2(n));
    lemma_topology_values(n, (pow2(pow2(n)) - 1) as nat);
}

/// On at most five points the number of candidates, and so the number of
/// topologies, fits every machine word.
pub proof fn lemma_small_count_fits(n: nat)
    requires
        n <= 5,
    ensures
        topology_count(n) <= usize::MAX,
{
    lemma_count_bound(n);
    lemma2_to64();
    if n < 5 {
        lemma_pow2_strictly_increases(n, 5);
    }
    if pow2(n) < 32 {
        lemma_pow2_strictly_increases(pow2(n), 32);
    }
}

/// The collection that no flag selects is no topology: it lacks the empty
/// set. Leaving the value 0 out of the count therefore loses nothing.
pub proof fn lemma_zero_is_no_topology(n: nat)
    ensures
        !is_topology_value(n, 0),
{
    let flags = bits_of(0, pow2(n));
    let members = selection(power_set_of(n), flags);
    lemma_bits_len(0, pow2(n));
    lemma_all_clear_value(pow2(n));
    lemma_bits_of_value(all_clear(pow2(n)));
    lemma_empty_positions(flags.take(pow2(n) as int));
    assert(members.len() == 0);
}

} // verus!
