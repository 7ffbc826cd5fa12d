//! A binary counter of fixed length, least significant bit first.

use vstd::prelude::*;
use vstd::string::StringExecFns;
use vstd::arithmetic::power2::pow2;
use vstd::arithmetic::power2::lemma_pow2_unfold;
use vstd::arithmetic::power2::lemma2_to64;

verus! {

/// The number that `bits` spells, bit 0 being the least significant.
pub open spec fn value_of(bits: Seq<bool>) -> nat
    decreases bits.len(),
{
    if bits.len() == 0 {
        0
    } else {
        (if bits[0] { 1nat } else { 0nat }) + 2 * value_of(bits.drop_first())
    }
}

/// The `len` low bits of `value`, bit 0 first.
pub open spec fn bits_of(value: nat, len: nat) -> Seq<bool>
    decreases len,
{
    if len == 0 {
        Seq::empty()
    } else {
        seq![value % 2 == 1] + bits_of(value / 2, (len - 1) as nat)
    }
}

/// One digit for each flag, in the order of the flags.
pub open spec fn digits_of(bits: Seq<bool>) -> Seq<char> {
    Seq::new(
        bits.len(),
        |i: int|
            if bits[i] {
                '1'
            } else {
                '0'
            },
    )
}

/// The state of a fresh counter: `len` flags, none set.
pub open spec fn all_clear(len: nat) -> Seq<bool> {
    Seq::new(len, |i: int| false)
}

/// Every flag is set: the counter holds its largest value.
pub open spec fn is_exhausted(bits: Seq<bool>) -> bool {
    forall|i: int| 0 <= i < bits.len() ==> bits[i]
}

/// The index of the first flag that is not set, or the length if all are.
pub open spec fn first_clear(bits: Seq<bool>) -> nat
    decreases bits.len(),
{
    if bits.len() == 0 || !bits[0] {
        0
    } else {
        1 + first_clear(bits.drop_first())
    }
}

/// The state that follows `bits`: the carries below the first clear flag are
/// cleared, that flag is set, and the flags above it stay.
pub open spec fn successor(bits: Seq<bool>) -> Seq<bool> {
    let k = first_clear(bits);
    Seq::new(
        bits.len(),
        |i: int|
            if i < k {
                false
            } else if i == k {
                true
            } else {
                bits[i]
            },
    )
}

/// The state of a counter of `len` flags after `steps` successful advances.
pub open spec fn state_after(len: nat, steps: nat) -> Seq<bool>
    decreases steps,
{
    if steps == 0 {
        all_clear(len)
    } else {
        successor(state_after(len, (steps - 1) as nat))
    }
}

/// `first_clear` is the only index below which every flag is set and at which
/// none is.
pub proof fn lemma_first_clear(bits: Seq<bool>, k: nat)
    requires
        k <= bits.len(),
        forall|i: int| 0 <= i < k ==> bits[i],
        k < bits.len() ==> !bits[k as int],
    ensures
        first_clear(bits) == k,
    decreases bits.len(),
{
    if bits.len() != 0 && bits[0] {
        let rest = bits.drop_first();
        assert forall|i: int| 0 <= i < k - 1 implies rest[i] by {
            assert(rest[i] == bits[i + 1]);
        }
        lemma_first_clear(rest, (k - 1) as nat);
    }
}

/// `first_clear` stays within the sequence and reaches its end exactly when
/// the counter is exhausted.
pub proof fn lemma_first_clear_bounds(bits: Seq<bool>)
    ensures
        first_clear(bits) <= bits.len(),
        forall|i: int| 0 <= i < first_clear(bits) ==> bits[i],
        first_clear(bits) < bits.len() ==> !bits[first_clear(bits) as int],
        first_clear(bits) == bits.len() <==> is_exhausted(bits),
    decreases bits.len(),
{
    if bits.len() != 0 && bits[0] {
        let rest = bits.drop_first();
        lemma_first_clear_bounds(rest);
        assert forall|i: int| 0 <= i < first_clear(bits) implies bits[i] by {
            if i > 0 {
                assert(bits[i] == rest[i - 1]);
            }
        }
        if first_clear(bits) < bits.len() {
            assert(bits[first_clear(bits) as int] == rest[first_clear(rest) as int]);
        }
    }
}

/// A value of `len` bits is below `2^len`, and equals `2^len - 1` exactly when
/// every bit is set.
pub proof fn lemma_value_bound(bits: Seq<bool>)
    ensures
        value_of(bits) < pow2(bits.len()),
        value_of(bits) == pow2(bits.len()) - 1 <==> is_exhausted(bits),
    decreases bits.len(),
{
    if bits.len() == 0 {
        lemma2_to64();
    } else {
        let rest = bits.drop_first();
        lemma_value_bound(rest);
        lemma_pow2_unfold(bits.len());
        if is_exhausted(bits) {
            assert forall|i: int| 0 <= i < rest.len() implies rest[i] by {
                assert(rest[i] == bits[i + 1]);
            }
            assert(bits[0]);
        }
        if value_of(bits) == pow2(bits.len()) - 1 {
            assert(bits[0]);
            assert(is_exhausted(rest));
            assert forall|i: int| 0 <= i < bits.len() implies bits[i] by {
                if i > 0 {
                    assert(bits[i] == rest[i - 1]);
                }
            }
        }
    }
}

/// Advancing a counter that is not exhausted adds one to its value.
pub proof fn lemma_successor_value(bits: Seq<bool>)
    requires
        !is_exhausted(bits),
    ensures
        successor(bits).len() == bits.len(),
        value_of(successor(bits)) == value_of(bits) + 1,
    decreases bits.len(),
{
    let next = successor(bits);
    let rest = bits.drop_first();
    if !bits[0] {
        assert(next.drop_first() =~= rest);
    } else {
        if is_exhausted(rest) {
            assert forall|i: int| 0 <= i < bits.len() implies bits[i] by {
                if i > 0 {
                    assert(bits[i] == rest[i - 1]);
                }
            }
        }
        lemma_successor_value(rest);
        assert(next.drop_first() =~= successor(rest));
    }
}

/// `bits_of` gives as many bits as it is asked for.
pub proof fn lemma_bits_len(value: nat, len: nat)
    ensures
        bits_of(value, len).len() == len,
    decreases len,
{
    if len != 0 {
        lemma_bits_len(value / 2, (len - 1) as nat);
    }
}

/// Spelling a sequence's value with as many bits gives the sequence back.
pub proof fn lemma_bits_of_value(bits: Seq<bool>)
    ensures
        bits_of(value_of(bits), bits.len()) == bits,
    decreases bits.len(),
{
    if bits.len() != 0 {
        lemma_bits_of_value(bits.drop_first());
        assert(bits_of(value_of(bits), bits.len()) =~= bits);
    }
}

/// The `len` low bits of `value` spell `value` whenever it is below `2^len`.
pub proof fn lemma_value_of_bits(value: nat, len: nat)
    requires
        value < pow2(len),
    ensures
        bits_of(value, len).len() == len,
        value_of(bits_of(value, len)) == value,
    decreases len,
{
    if len == 0 {
        lemma2_to64();
    } else {
        lemma_pow2_unfold(len);
        lemma_value_of_bits(value / 2, (len - 1) as nat);
        assert(bits_of(value, len).drop_first() =~= bits_of(value / 2, (len - 1) as nat));
    }
}

/// Two sequences of one length that spell the same value are the same.
pub proof fn lemma_value_injective(a: Seq<bool>, b: Seq<bool>)
    requires
        a.len() == b.len(),
        value_of(a) == value_of(b),
    ensures
        a == b,
{
    lemma_bits_of_value(a);
    lemma_bits_of_value(b);
}

/// A counter of `len >= 1` flags that has advanced `steps < 2^len` times
/// holds the binary representation of `steps`, bit 0 least significant.
pub proof fn lemma_state_after_is_binary(len: nat, steps: nat)
    requires
        len >= 1,
        steps < pow2(len),
    ensures
        state_after(len, steps) == bits_of(steps, len),
        state_after(len, steps).len() == len,
        value_of(state_after(len, steps)) == steps,
    decreases steps,
{
    if steps == 0 {
        lemma_all_clear_value(len);
        lemma_bits_of_value(all_clear(len));
    } else {
        let before = state_after(len, (steps - 1) as nat);
        lemma_state_after_is_binary(len, (steps - 1) as nat);
        lemma_value_bound(before);
        lemma_successor_value(before);
        lemma_bits_of_value(successor(before));
    }
}

/// Started fresh, a counter of `len >= 1` flags can advance `2^len - 1` times
/// and no further: it is exhausted after exactly that many advances.
pub proof fn lemma_exhausted_after_last(len: nat, steps: nat)
    requires
        len >= 1,
        steps < pow2(len),
    ensures
        is_exhausted(state_after(len, steps)) <==> steps == pow2(len) - 1,
{
    lemma_state_after_is_binary(len, steps);
    lemma_value_bound(state_after(len, steps));
}

/// The value of a counter grows with every advance.
pub proof fn lemma_values_increase(len: nat, earlier: nat, later: nat)
    requires
        len >= 1,
        earlier < later < pow2(len),
    ensures
        value_of(state_after(len, earlier)) < value_of(state_after(len, later)),
{
    lemma_state_after_is_binary(len, earlier);
    lemma_state_after_is_binary(len, later);
}

/// A fresh counter spells zero.
pub proof fn lemma_all_clear_value(len: nat)
    ensures
        value_of(all_clear(len)) == 0,
    decreases len,
{
    if len != 0 {
        lemma_all_clear_value((len - 1) as nat);
        assert(all_clear(len).drop_first() =~= all_clear((len - 1) as nat));
    }
}

/// A counter of a fixed number of flags, all clear at first, that steps
/// through the binary numbers in increasing order.
pub struct Binary {
    binary: Vec<bool>,
}

impl View for Binary {
    type V = Seq<bool>;

    closed spec fn view(&self) -> Seq<bool> {
        self.binary@
    }
}

impl Clone for Binary {
    fn clone(&self) -> (copy: Self)
        ensures
            copy@ == self@,
    {
        proof {
            use_type_invariant(self);
        }
        Binary { binary: self.binary.clone() }
    }
}

impl Binary {
    #[verifier::type_invariant]
    spec fn has_flags(&self) -> bool {
        self.binary@.len() >= 1
    }

    /// A counter of `len` flags, none of them set.
    pub fn new(len: usize) -> (counter: Binary)
        requires
            len > 0,
        ensures
            counter@ == all_clear(len as nat),
    {
        let mut flags: Vec<bool> = Vec::with_capacity(len);
        let mut i: usize = 0;
        while i < len
            invariant
                i <= len,
                flags@ == all_clear(i as nat),
            decreases len - i,
        {
            flags.push(false);
            i += 1;
        }
        Binary { binary: flags }
    }

    /// The flags as they stand, bit 0 first. Reading does not advance the
    /// counter.
    pub fn get(&self) -> (flags: &Vec<bool>)
        ensures
            flags@ == self@,
            flags@.len() >= 1,
    {
        proof {
            use_type_invariant(self);
        }
        &self.binary
    }

    /// The flags as text, bit 0 first: `1` for a set flag, `0` for a clear one.
    pub fn to_bit_string(&self) -> (text: String)
        ensures
            text@ == digits_of(self@),
    {
        let mut output = String::new();
        let mut i: usize = 0;
        while i < self.binary.len()
            invariant
                i <= self.binary@.len(),
                output@ == digits_of(self.binary@.take(i as int)),
            decreases self.binary@.len() - i,
        {
            proof {
                reveal_strlit("1");
                reveal_strlit("0");
            }
            if self.binary[i] {
                output.append("1");
            } else {
                output.append("0");
            }
            assert(output@ =~= digits_of(self.binary@.take(i + 1)));
            i += 1;
        }
        assert(self.binary@.take(self.binary@.len() as int) =~= self.binary@);
        output
    }

    /// Advances the counter by one and returns a copy of the new state, or
    /// returns `None` and leaves the counter as it is when every flag is set.
    pub fn next(&mut self) -> (item: Option<Binary>)
        ensures
            is_exhausted(old(self)@) ==> item is None && final(self)@ == old(self)@,
            !is_exhausted(old(self)@) ==> item is Some && item.unwrap()@ == final(self)@
                && final(self)@ == successor(old(self)@),
            !is_exhausted(old(self)@) ==> value_of(final(self)@) == value_of(old(self)@) + 1,
            final(self)@.len() == old(self)@.len(),
    {
        proof {
            use_type_invariant(&*self);
        }
        let ghost before = self.binary@;
        let len = self.binary.len();
        let mut index_of_first_false: usize = 0;
        while index_of_first_false < len && self.binary[index_of_first_false]
            invariant
                index_of_first_false <= len,
                len == self.binary@.len(),
                self.binary@ == before,
                forall|i: int| 0 <= i < index_of_first_false ==> before[i],
            decreases len - index_of_first_false,
        {
            index_of_first_false += 1;
        }
        proof {
            lemma_first_clear(before, index_of_first_false as nat);
            lemma_first_clear_bounds(before);
        }
        if index_of_first_false < len {
            let mut i: usize = 0;
            while i < index_of_first_false
                invariant
                    i <= index_of_first_false < len,
                    self.binary@.len() == len,
                    before.len() == len,
                    forall|j: int| 0 <= j < i ==> !self.binary@[j],
                    forall|j: int| i <= j < len ==> self.binary@[j] == before[j],
                decreases index_of_first_false - i,
            {
                self.binary[i] = false;
                i += 1;
            }
            self.binary[index_of_first_false] = true;
            proof {
                lemma_successor_value(before);
            }
            assert(self.binary@ =~= successor(before));
            Some(self.clone())
        } else {
            None
        }
    }
}

} // verus!
