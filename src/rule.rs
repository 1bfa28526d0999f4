use crate::neighbours::Neighbourhood;
use std::ops::RangeInclusive;
use vstd::prelude::*;

verus! {

/// Number of neighbour counts a `Value` can hold: `0..=26`.
pub const VALUE_SIZE: usize = 27;

/// A set of neighbour counts in `0..=26`, stored as one flag per count.
#[derive(Clone, Copy, Debug)]
pub struct Value(pub [bool; 27]);

/// Relies on RangeInclusive::is_empty: true when the range yields no value.
#[verifier::external_body]
fn range_is_empty(r: &RangeInclusive<u8>) -> (b: bool)
    ensures
        b == (r@.exhausted || r@.start > r@.end),
{
    r.is_empty()
}

/// Relies on RangeInclusive::start: the lower bound the range was made with.
#[verifier::external_body]
fn range_start(r: &RangeInclusive<u8>) -> (s: u8)
    requires
        !r@.exhausted,
    ensures
        s == r@.start,
{
    *r.start()
}

/// Relies on RangeInclusive::end: the upper bound the range was made with.
#[verifier::external_body]
fn range_end(r: &RangeInclusive<u8>) -> (e: u8)
    requires
        !r@.exhausted,
    ensures
        e == r@.end,
{
    *r.end()
}

/// Whether an inclusive range yields the value `k`.
pub open spec fn range_holds(r: RangeInclusive<u8>, k: int) -> bool {
    !r@.exhausted && r@.start <= k <= r@.end
}

impl Value {
    /// Whether `k` is in the set; `false` for every `k` outside `0..=26`.
    pub open spec fn contains(self, k: int) -> bool {
        0 <= k < 27 && self.0@[k]
    }

    /// The set holding exactly the given counts.
    pub fn new(indices: &[u8]) -> (r: Value)
        requires
            forall|t: int| 0 <= t < indices@.len() ==> #[trigger] indices@[t] < 27,
        ensures
            forall|k: int|
                0 <= k < 27 ==> (#[trigger] r.0@[k] <==> indices@.contains(k as u8)),
    {
        let mut result = Value([false; 27]);
        let mut t: usize = 0;
        while t < indices.len()
            invariant
                t <= indices@.len(),
                forall|u: int| 0 <= u < indices@.len() ==> #[trigger] indices@[u] < 27,
                forall|k: int|
                    0 <= k < 27 ==> (#[trigger] result.0@[k] <==> exists|u: int|
                        0 <= u < t && #[trigger] indices@[u] == k as u8),
            decreases indices@.len() - t,
        {
            let index = indices[t];
            result.0[index as usize] = true;
            proof {
                assert forall|k: int| 0 <= k < 27 implies (#[trigger] result.0@[k]
                    <==> exists|u: int| 0 <= u < t + 1 && #[trigger] indices@[u] == k as u8) by {
                    if k == index as int {
                        assert(indices@[t as int] == k as u8);
                    }
                }
            }
            t += 1;
        }
        result
    }

    /// The set holding exactly the counts of an inclusive range.
    pub fn from_range(indices: RangeInclusive<u8>) -> (r: Value)
        requires
            indices@.exhausted || indices@.start > indices@.end || indices@.end < 27,
        ensures
            forall|k: int| 0 <= k < 27 ==> (#[trigger] r.0@[k] <==> range_holds(indices, k)),
    {
        let mut result = Value([false; 27]);
        if range_is_empty(&indices) {
            return result;
        }
        let start = range_start(&indices);
        let end = range_end(&indices);
        let mut index: u8 = start;
        while index <= end
            invariant
                start <= index <= end + 1,
                end < 27,
                forall|k: int| 0 <= k < 27 ==> (#[trigger] result.0@[k] <==> start <= k < index),
            decreases end + 1 - index,
        {
            result.0[index as usize] = true;
            index += 1;
        }
        result
    }

    /// Whether `value` is in the set; `false` for a count past 26.
    pub fn is_valid(&self, value: u8) -> (r: bool)
        ensures
            r == self.contains(value as int),
    {
        if (value as usize) < VALUE_SIZE {
            self.0[value as usize]
        } else {
            false
        }
    }

    /// The set with the membership of `index` flipped.
    pub fn change_value(self, index: usize) -> (r: Value)
        requires
            index < 27,
        ensures
            r.0@ == self.0@.update(index as int, !self.0@[index as int]),
    {
        let mut result = self;
        result.0[index] = !self.0[index];
        result
    }

    /// Whether `index` is in the set.
    pub fn get_value(self, index: usize) -> (r: bool)
        requires
            index < 27,
        ensures
            r == self.0@[index as int],
    {
        self.0[index]
    }

    /// Whether two sets hold the same counts.
    pub fn equals(&self, other: &Value) -> (r: bool)
        ensures
            r == (self.0@ == other.0@),
    {
        let mut k: usize = 0;
        while k < VALUE_SIZE
            invariant
                k <= 27,
                forall|j: int| 0 <= j < k ==> self.0@[j] == other.0@[j],
            decreases 27 - k,
        {
            if self.0[k] != other.0[k] {
                return false;
            }
            k += 1;
        }
        assert(self.0@ =~= other.0@);
        true
    }
}

impl PartialEq for Value {
    fn eq(&self, other: &Value) -> (r: bool) {
        self.equals(other)
    }
}

impl vstd::std_specs::cmp::PartialEqSpecImpl for Value {
    open spec fn obeys_eq_spec() -> bool {
        true
    }

    open spec fn eq_spec(&self, other: &Value) -> bool {
        self.0@ == other.0@
    }
}

/// The rule of the automaton.
#[derive(Clone, Copy, Debug)]
pub struct Rule {
    /// Neighbour counts at which a dead cell comes alive.
    pub birth: Value,
    /// Neighbour counts at which a fully alive cell stays fully alive.
    pub survival: Value,
    /// Which cells count as neighbours.
    pub neighbourhood: Neighbourhood,
    /// The state of a fully alive cell; a cell decays from it down to 0.
    pub states: u8,
}

impl Rule {
    /// Whether two rules are the same in every part.
    pub fn equals(&self, other: &Rule) -> (r: bool)
        ensures
            r == (self.birth.0@ == other.birth.0@ && self.survival.0@ == other.survival.0@
                && self.neighbourhood == other.neighbourhood && self.states == other.states),
    {
        self.birth.equals(&other.birth) && self.survival.equals(&other.survival)
            && self.neighbourhood == other.neighbourhood && self.states == other.states
    }
}

impl PartialEq for Rule {
    fn eq(&self, other: &Rule) -> (r: bool) {
        self.equals(other)
    }
}

impl vstd::std_specs::cmp::PartialEqSpecImpl for Rule {
    open spec fn obeys_eq_spec() -> bool {
        true
    }

    open spec fn eq_spec(&self, other: &Rule) -> bool {
        self.birth.0@ == other.birth.0@ && self.survival.0@ == other.survival.0@
            && self.neighbourhood == other.neighbourhood && self.states == other.states
    }
}

} // verus!
