//! Maps whose keys are ranges of a text.
use vstd::prelude::*;
use std::collections::HashMap;

verus! {

/// The bound on the offsets of a range.
pub const MAX_OFFSET: u64 = 0x1_0000_0000;

/// A map from ranges, given by their start and end, to values.
pub struct RangeMap<T> {
    slots: HashMap<u64, usize>,
    entries: Vec<(usize, usize, T)>,
}

/// Whether a range can be a key.
pub open spec fn is_range(range: (int, int)) -> bool {
    0 <= range.0 < MAX_OFFSET && 0 <= range.1 < MAX_OFFSET
}

/// The number that stands for a range.
spec fn number_of(range: (int, int)) -> u64 {
    (range.0 * MAX_OFFSET + range.1) as u64
}

proof fn lemma_number_of(a: (int, int), b: (int, int))
    requires
        is_range(a),
        is_range(b),
    ensures
        0 <= a.0 * MAX_OFFSET + a.1 <= u64::MAX,
        number_of(a) == number_of(b) ==> a == b,
{
}

/// The number that stands for a range.
fn number(start: usize, end: usize) -> (n: u64)
    requires
        is_range((start as int, end as int)),
    ensures
        n == number_of((start as int, end as int)),
{
    (start as u64) * MAX_OFFSET + (end as u64)
}

impl<T> View for RangeMap<T> {
    type V = Map<(int, int), T>;

    closed spec fn view(&self) -> Map<(int, int), T> {
        Map::new(
            |range: (int, int)| is_range(range) && self.slots@.contains_key(number_of(range)),
            |range: (int, int)| self.entries@[self.slots@[number_of(range)] as int].2,
        )
    }
}

impl<T> RangeMap<T> {
    /// Every entry has a slot, and every slot leads to the entry of its range.
    pub closed spec fn wf(self) -> bool {
        &&& forall|j: int|
            0 <= j < self.entries.len() ==> is_range(self.range(j)) && self.slots@.contains_key(
                number_of(#[trigger] self.range(j)),
            ) && self.slots@[number_of(self.range(j))] == j
        &&& forall|n: u64| #[trigger]
            self.slots@.contains_key(n) ==> self.slots@[n] < self.entries.len() && number_of(
                self.range(self.slots@[n] as int),
            ) == n
    }

    /// The range of entry `j`.
    spec fn range(self, j: int) -> (int, int) {
        (self.entries@[j].0 as int, self.entries@[j].1 as int)
    }

    /// The empty map.
    pub fn new() -> (map: RangeMap<T>)
        ensures
            map.wf(),
            map@ == Map::<(int, int), T>::empty(),
    {
        broadcast use vstd::std_specs::hash::group_hash_axioms;

        let map = RangeMap { slots: HashMap::new(), entries: Vec::new() };
        assert(map@ =~= Map::<(int, int), T>::empty());
        map
    }

    /// Gives the range from `start` to `end` the value `value`, in place of an earlier one.
    pub fn insert(&mut self, start: usize, end: usize, value: T)
        requires
            old(self).wf(),
            is_range((start as int, end as int)),
        ensures
            final(self).wf(),
            final(self)@ == old(self)@.insert((start as int, end as int), value),
    {
        broadcast use vstd::std_specs::hash::group_hash_axioms;

        let ghost was = *self;
        let ghost key = (start as int, end as int);
        let n = number(start, end);
        let found: Option<usize> = match self.slots.get(&n) {
            Some(slot) => Some(*slot),
            None => None,
        };
        match found {
            Some(slot) => {
                assert(was.range(slot as int) == key) by {
                    assert(is_range(was.range(slot as int)));
                    lemma_number_of(was.range(slot as int), key);
                }
                self.entries.set(slot, (start, end, value));
                assert(forall|j: int|
                    0 <= j < self.entries.len() ==> #[trigger] self.range(j) == was.range(j));
            },
            None => {
                let slot = self.entries.len();
                self.entries.push((start, end, value));
                self.slots.insert(n, slot);
                assert(forall|j: int|
                    0 <= j < was.entries.len() ==> #[trigger] self.range(j) == was.range(j));
                assert(self.range(slot as int) == key);
            },
        }
        proof {
            assert forall|other: (int, int)| is_range(other) && other != key implies number_of(
                other,
            ) != n by {
                lemma_number_of(other, key);
            }
            assert(self@ =~= was@.insert(key, value));
        }
    }

    /// The value of the range from `start` to `end`.
    pub fn get(&self, start: usize, end: usize) -> (value: Option<&T>)
        requires
            self.wf(),
        ensures
            match value {
                Some(value) => self@.contains_key((start as int, end as int)) && *value
                    == self@[(start as int, end as int)],
                None => !self@.contains_key((start as int, end as int)),
            },
    {
        broadcast use vstd::std_specs::hash::group_hash_axioms;

        if start as u64 >= MAX_OFFSET || end as u64 >= MAX_OFFSET {
            return None;
        }
        match self.slots.get(&number(start, end)) {
            Some(slot) => Some(&self.entries[*slot].2),
            None => None,
        }
    }

    /// The number of ranges that have a value.
    pub fn len(&self) -> (n: usize)
        requires
            self.wf(),
        ensures
            n == self.values().len(),
            n == 0 <==> self@ == Map::<(int, int), T>::empty(),
    {
        proof {
            if self.entries.len() == 0 {
                assert forall|range: (int, int)| !#[trigger] self@.contains_key(range) by {
                    if self@.contains_key(range) {
                        assert(self.slots@.contains_key(number_of(range)));
                    }
                }
                assert(self@ =~= Map::<(int, int), T>::empty());
            } else {
                assert(self@.contains_key(self.range(0)));
            }
        }
        self.entries.len()
    }

    /// The values, in the order in which their ranges were first inserted.
    pub closed spec fn values(self) -> Seq<T> {
        self.entries@.map_values(|entry: (usize, usize, T)| entry.2)
    }

    /// Whether `value` is the value of some range.
    pub open spec fn holds(self, value: T) -> bool {
        exists|range: (int, int)| self@.contains_key(range) && #[trigger] self@[range] == value
    }

    /// What some range has for its value is listed among the values, and nothing else.
    pub proof fn lemma_values(self)
        requires
            self.wf(),
        ensures
            forall|j: int| 0 <= j < self.values().len() ==> self.holds(#[trigger] self.values()[j]),
            forall|value: T| #[trigger] self.holds(value) ==> self.values().contains(value),
    {
        assert forall|j: int| 0 <= j < self.values().len() implies self.holds(
            #[trigger] self.values()[j],
        ) by {
            assert(self@.contains_key(self.range(j)));
            assert(self@[self.range(j)] == self.values()[j]);
        }
        assert forall|value: T| #[trigger] self.holds(value) implies self.values().contains(
            value,
        ) by {
            let range = choose|range: (int, int)|
                self@.contains_key(range) && #[trigger] self@[range] == value;
            let j = self.slots@[number_of(range)] as int;
            assert(self.values()[j] == value);
        }
    }

    /// Value `j`.
    pub fn value(&self, j: usize) -> (value: &T)
        requires
            j < self.values().len(),
        ensures
            *value == self.values()[j as int],
    {
        &self.entries[j].2
    }
}

} // verus!
