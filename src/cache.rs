use vstd::prelude::*;

verus! {

/// The set of fingerprints of earlier successful runs.
#[derive(Debug, Clone)]
pub struct Cache {
    entries: Vec<String>,
}

impl View for Cache {
    type V = Set<Seq<char>>;

    closed spec fn view(&self) -> Set<Seq<char>> {
        Set::new(|x: Seq<char>| exists|i: int| 0 <= i < self.entries@.len() && #[trigger] self.entries@[i]@ == x)
    }
}

impl Cache {
    /// An empty cache.
    pub fn new() -> (c: Cache)
        ensures
            c@ == Set::<Seq<char>>::empty(),
    {
        let c = Cache { entries: Vec::new() };
        assert(c@ =~= Set::<Seq<char>>::empty());
        c
    }

    /// A cache holding the given fingerprints.
    pub fn from_entries(entries: Vec<String>) -> (c: Cache)
        ensures
            forall|x: Seq<char>| c@.contains(x) <==> exists|i: int| 0 <= i < entries@.len() && #[trigger] entries@[i]@ == x,
    {
        Cache { entries }
    }

    /// Whether the fingerprint is present.
    pub fn contains(&self, key: &String) -> (r: bool)
        ensures
            r == self@.contains(key@),
    {
        let mut i: usize = 0;
        while i < self.entries.len()
            invariant
                i <= self.entries@.len(),
                forall|j: int| 0 <= j < i ==> #[trigger] self.entries@[j]@ != key@,
            decreases self.entries@.len() - i,
        {
            if self.entries[i] == *key {
                assert(self@.contains(self.entries@[i as int]@));
                return true;
            }
            i = i + 1;
        }
        false
    }

    /// Adds a fingerprint; returns whether it was new.
    pub fn insert(&mut self, key: String) -> (added: bool)
        ensures
            final(self)@ == old(self)@.insert(key@),
            added == !old(self)@.contains(key@),
    {
        if self.contains(&key) {
            assert(self@ =~= self@.insert(key@));
            false
        } else {
            let ghost e0 = self.entries@;
            let ghost k = key@;
            self.entries.push(key);
            assert(self.entries@[e0.len() as int]@ == k);
            assert forall|x: Seq<char>| self@.contains(x) == old(self)@.insert(k).contains(x) by {
                if exists|i: int| 0 <= i < e0.len() && #[trigger] e0[i]@ == x {
                    let i = choose|i: int| 0 <= i < e0.len() && #[trigger] e0[i]@ == x;
                    assert(self.entries@[i] == e0[i]);
                }
                if exists|i: int| 0 <= i < self.entries@.len() && #[trigger] self.entries@[i]@ == x {
                    let i = choose|i: int| 0 <= i < self.entries@.len() && #[trigger] self.entries@[i]@ == x;
                    if i < e0.len() {
                        assert(self.entries@[i] == e0[i]);
                    }
                }
            }
            assert(self@ =~= old(self)@.insert(k));
            true
        }
    }

    /// The fingerprints, in the order they were added.
    pub fn entries(&self) -> (r: &Vec<String>)
        ensures
            forall|x: Seq<char>| self@.contains(x) <==> exists|i: int| 0 <= i < r@.len() && #[trigger] r@[i]@ == x,
    {
        &self.entries
    }
}

} // verus!
