//! The in-memory index from keys to record offsets.
use vstd::prelude::*;

verus! {

/// Maps each key to the offset of its latest record, at most one entry per key.
pub struct Index {
    keys: Vec<String>,
    offsets: Vec<u64>,
    entries: Ghost<Map<Seq<char>, u64>>,
}

impl View for Index {
    type V = Map<Seq<char>, u64>;

    closed spec fn view(&self) -> Map<Seq<char>, u64> {
        self.entries@
    }
}

impl Index {
    /// The two vectors hold the entries of the map, each key once.
    pub closed spec fn wf(&self) -> bool {
        &&& self.keys@.len() == self.offsets@.len()
        &&& forall|i: int|
            0 <= i < self.keys@.len() ==> #[trigger] self.entries@.contains_key(self.keys@[i]@)
                && self.entries@[self.keys@[i]@] == self.offsets@[i]
        &&& forall|k: Seq<char>|
            #[trigger] self.entries@.contains_key(k) ==> exists|i: int|
                0 <= i < self.keys@.len() && #[trigger] self.keys@[i]@ == k
        &&& forall|i: int, j: int|
            0 <= i < j < self.keys@.len() ==> #[trigger] self.keys@[i]@ != #[trigger] self.keys@[j]@
    }

    /// An empty index.
    pub fn new() -> (r: Self)
        ensures
            r.wf(),
            r@ == Map::<Seq<char>, u64>::empty(),
    {
        Index { keys: Vec::new(), offsets: Vec::new(), entries: Ghost(Map::empty()) }
    }

    /// The position of `key` in the vectors.
    fn find(&self, key: &String) -> (r: Option<usize>)
        requires
            self.wf(),
        ensures
            match r {
                Some(i) => i < self.keys@.len() && self.keys@[i as int]@ == key@,
                None => !self@.contains_key(key@),
            },
    {
        let mut i: usize = 0;
        while i < self.keys.len()
            invariant
                self.wf(),
                i <= self.keys@.len(),
                forall|j: int| 0 <= j < i ==> #[trigger] self.keys@[j]@ != key@,
            decreases self.keys@.len() - i,
        {
            if self.keys[i] == *key {
                return Some(i);
            }
            i = i + 1;
        }
        None
    }

    /// Points `key` at `offset`, replacing any offset it had.
    pub fn insert(&mut self, key: &str, offset: u64)
        requires
            old(self).wf(),
        ensures
            final(self).wf(),
            final(self)@ == old(self)@.insert(key@, offset),
    {
        let k = key.to_owned();
        match self.find(&k) {
            Some(i) => {
                self.offsets.set(i, offset);
                self.entries = Ghost(self.entries@.insert(key@, offset));
                assert forall|j: int|
                    0 <= j < self.keys@.len() implies #[trigger] self.entries@.contains_key(
                    self.keys@[j]@,
                ) && self.entries@[self.keys@[j]@] == self.offsets@[j] by {
                    if j != i {
                        assert(old(self).keys@[j]@ != old(self).keys@[i as int]@);
                        assert(old(self).entries@.contains_key(old(self).keys@[j]@));
                    }
                }
                assert forall|k2: Seq<char>| #[trigger] self.entries@.contains_key(k2) implies exists|
                    j: int,
                | 0 <= j < self.keys@.len() && #[trigger] self.keys@[j]@ == k2 by {
                    if k2 == key@ {
                        assert(self.keys@[i as int]@ == k2);
                    } else {
                        assert(old(self).entries@.contains_key(k2));
                        let j = choose|j: int| 0 <= j < old(self).keys@.len() && #[trigger] old(self).keys@[j]@ == k2;
                        assert(self.keys@[j]@ == k2);
                    }
                }
            },
            None => {
                self.keys.push(k);
                self.offsets.push(offset);
                self.entries = Ghost(self.entries@.insert(key@, offset));
                assert forall|k2: Seq<char>| #[trigger] self.entries@.contains_key(k2) implies exists|
                    j: int,
                | 0 <= j < self.keys@.len() && #[trigger] self.keys@[j]@ == k2 by {
                    if k2 == key@ {
                        assert(self.keys@[self.keys@.len() - 1]@ == k2);
                    } else {
                        let j = choose|j: int| 0 <= j < old(self).keys@.len() && #[trigger] old(self).keys@[j]@ == k2;
                        assert(self.keys@[j]@ == k2);
                    }
                }
            },
        }
    }

    /// The offset that `key` points at, if any.
    pub fn get_offset(&self, key: &str) -> (r: Option<u64>)
        requires
            self.wf(),
        ensures
            r == self@.get(key@),
    {
        let k = key.to_owned();
        match self.find(&k) {
            Some(i) => Some(self.offsets[i]),
            None => None,
        }
    }

    /// Removes the entry of `key`, if there is one.
    pub fn remove(&mut self, key: &str)
        requires
            old(self).wf(),
        ensures
            final(self).wf(),
            final(self)@ == old(self)@.remove(key@),
    {
        let k = key.to_owned();
        match self.find(&k) {
            Some(i) => {
                let ghost old_keys = self.keys@;
                let ghost old_offsets = self.offsets@;
                let ghost old_entries = self.entries@;
                self.keys.remove(i);
                self.offsets.remove(i);
                self.entries = Ghost(self.entries@.remove(key@));
                assert(self.keys@ == old_keys.remove(i as int));
                assert(self.offsets@ == old_offsets.remove(i as int));
                assert forall|j: int|
                    0 <= j < self.keys@.len() implies #[trigger] self.entries@.contains_key(
                    self.keys@[j]@,
                ) && self.entries@[self.keys@[j]@] == self.offsets@[j] by {
                    if j < i {
                        assert(old_keys[j]@ != old_keys[i as int]@);
                        assert(self.keys@[j] == old_keys[j]);
                        assert(self.offsets@[j] == old_offsets[j]);
                        assert(old_entries.contains_key(old_keys[j]@));
                    } else {
                        assert(old_keys[j + 1]@ != old_keys[i as int]@);
                        assert(self.keys@[j] == old_keys[j + 1]);
                        assert(self.offsets@[j] == old_offsets[j + 1]);
                        assert(old_entries.contains_key(old_keys[j + 1]@));
                    }
                }
                assert forall|k2: Seq<char>| #[trigger] self.entries@.contains_key(k2) implies exists|
                    j: int,
                | 0 <= j < self.keys@.len() && #[trigger] self.keys@[j]@ == k2 by {
                    let j = choose|j: int| 0 <= j < old_keys.len() && #[trigger] old_keys[j]@ == k2;
                    if j < i {
                        assert(self.keys@[j]@ == k2);
                    } else {
                        assert(j != i);
                        assert(self.keys@[j - 1]@ == k2);
                    }
                }
                assert forall|a: int, b: int|
                    0 <= a < b < self.keys@.len() implies #[trigger] self.keys@[a]@
                    != #[trigger] self.keys@[b]@ by {
                    let a2 = if a < i { a } else { a + 1 };
                    let b2 = if b < i { b } else { b + 1 };
                    assert(self.keys@[a] == old_keys[a2]);
                    assert(self.keys@[b] == old_keys[b2]);
                }
            },
            None => {
                assert(self.entries@.remove(key@) =~= self.entries@);
                self.entries = Ghost(self.entries@.remove(key@));
            },
        }
    }
}

} // verus!
