//! Sets of names kept under the path of the scope that they belong to.
use vstd::prelude::*;
use vstd::hash_map::StringHashMap;
use vstd::hash_set::StringHashSet;

verus! {

/// A set of pairs of a path and a name.
pub struct NameTable {
    slots: StringHashMap<usize>,
    sets: Vec<StringHashSet>,
}

impl View for NameTable {
    type V = Set<(Seq<char>, Seq<char>)>;

    closed spec fn view(&self) -> Set<(Seq<char>, Seq<char>)> {
        Set::new(
            |entry: (Seq<char>, Seq<char>)|
                self.slots@.contains_key(entry.0)
                    && self.sets@[self.slots@[entry.0] as int]@.contains(entry.1),
        )
    }
}

impl NameTable {
    /// Every path has a slot of its own.
    pub closed spec fn wf(self) -> bool {
        &&& forall|path: Seq<char>| #[trigger]
            self.slots@.contains_key(path) ==> self.slots@[path] < self.sets.len()
        &&& forall|p: Seq<char>, q: Seq<char>|
            #![trigger self.slots@[p], self.slots@[q]]
            self.slots@.contains_key(p) && self.slots@.contains_key(q) && self.slots@[p]
                == self.slots@[q] ==> p == q
    }

    /// The empty table.
    pub fn new() -> (table: NameTable)
        ensures
            table.wf(),
            table@ == Set::<(Seq<char>, Seq<char>)>::empty(),
    {
        let table = NameTable { slots: StringHashMap::new(), sets: Vec::new() };
        assert(table@ =~= Set::<(Seq<char>, Seq<char>)>::empty());
        table
    }

    /// Adds the name `name` under the path `path`.
    pub fn insert(&mut self, path: String, name: String)
        requires
            old(self).wf(),
        ensures
            final(self).wf(),
            final(self)@ == old(self)@.insert((path@, name@)),
    {
        let ghost was = *self;
        let found: Option<usize> = match self.slots.get(path.as_str()) {
            Some(slot) => Some(*slot),
            None => None,
        };
        match found {
            Some(slot) => {
                let set = &mut self.sets[slot];
                set.insert(name);
            },
            None => {
                let slot = self.sets.len();
                let mut set = StringHashSet::new();
                set.insert(name);
                self.sets.push(set);
                self.slots.insert(path, slot);
            },
        }
        assert(self@ =~= was@.insert((path@, name@)));
    }

    /// Whether the name `name` was added under the path `path`.
    pub fn contains(&self, path: &str, name: &str) -> (result: bool)
        requires
            self.wf(),
        ensures
            result == self@.contains((path@, name@)),
    {
        match self.slots.get(path) {
            Some(slot) => self.sets[*slot].contains(name),
            None => false,
        }
    }
}

} // verus!
