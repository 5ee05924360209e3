//! The in-memory key-value mapping: unique byte-string keys, each with one value.
use vstd::prelude::*;

verus! {

/// Whether two byte strings are equal.
pub fn bytes_eq(a: &[u8], b: &[u8]) -> (r: bool)
    ensures
        r == (a@ == b@),
{
    if a.len() != b.len() {
        return false;
    }
    let mut i: usize = 0;
    while i < a.len()
        invariant
            a@.len() == b@.len(),
            i <= a@.len(),
            forall|j: int| 0 <= j < i ==> a@[j] == b@[j],
        decreases a@.len() - i,
    {
        if a[i] != b[i] {
            return false;
        }
        i = i + 1;
    }
    assert(a@ =~= b@);
    true
}

/// A key-value mapping held in memory.
pub struct KV {
    mem: Vec<(Vec<u8>, Vec<u8>)>,
    model: Ghost<Map<Seq<u8>, Seq<u8>>>,
}

/// The mapping's error; no operation on it fails.
#[derive(Debug)]
pub struct KVError {}

impl View for KV {
    type V = Map<Seq<u8>, Seq<u8>>;

    closed spec fn view(&self) -> Map<Seq<u8>, Seq<u8>> {
        self.model@
    }
}

impl KV {
    /// Each key is held once, and the pairs held are exactly the mapping.
    pub closed spec fn wf(&self) -> bool {
        &&& forall|i: int, j: int|
            0 <= i < j < self.mem@.len() ==> #[trigger] self.mem@[i].0@ != #[trigger] self.mem@[j].0@
        &&& forall|i: int|
            0 <= i < self.mem@.len() ==> self.model@.contains_key(#[trigger] self.mem@[i].0@)
                && self.model@[self.mem@[i].0@] == self.mem@[i].1@
        &&& forall|k: Seq<u8>|
            #[trigger] self.model@.contains_key(k) ==> exists|i: int|
                0 <= i < self.mem@.len() && #[trigger] self.mem@[i].0@ == k
    }

    /// An empty mapping.
    pub fn empty() -> (r: KV)
        ensures
            r.wf(),
            r@ == Map::<Seq<u8>, Seq<u8>>::empty(),
    {
        KV { mem: Vec::new(), model: Ghost(Map::empty()) }
    }

    /// Opens an empty mapping.
    pub fn open() -> (r: Result<KV, KVError>)
        ensures
            r matches Ok(kv) && kv.wf() && kv@ == Map::<Seq<u8>, Seq<u8>>::empty(),
    {
        Ok(KV::empty())
    }

    /// Closes the mapping; nothing changes.
    pub fn close(&mut self) -> (r: Result<(), KVError>)
        ensures
            r is Ok,
            *final(self) == *old(self),
    {
        Ok(())
    }

    /// Where `key` is held, if it is.
    fn find(&self, key: &[u8]) -> (r: Option<usize>)
        requires
            self.wf(),
        ensures
            match r {
                Some(i) => i < self.mem@.len() && self.mem@[i as int].0@ == key@,
                None => !self@.contains_key(key@),
            },
    {
        let mut i: usize = 0;
        while i < self.mem.len()
            invariant
                self.wf(),
                i <= self.mem@.len(),
                forall|j: int| 0 <= j < i ==> #[trigger] self.mem@[j].0@ != key@,
            decreases self.mem@.len() - i,
        {
            if bytes_eq(self.mem[i].0.as_slice(), key) {
                return Some(i);
            }
            i = i + 1;
        }
        None
    }

    /// Whether `key` is held.
    pub fn contains(&self, key: &[u8]) -> (r: bool)
        requires
            self.wf(),
        ensures
            r == self@.contains_key(key@),
    {
        self.find(key).is_some()
    }

    /// The value of `key`, if it is held.
    pub fn lookup(&self, key: &[u8]) -> (r: Option<Vec<u8>>)
        requires
            self.wf(),
        ensures
            match r {
                Some(v) => self@.contains_key(key@) && v@ == self@[key@],
                None => !self@.contains_key(key@),
            },
    {
        match self.find(key) {
            Some(i) => Some(vstd::slice::slice_to_vec(self.mem[i].1.as_slice())),
            None => None,
        }
    }

    /// Maps `key` to `val`; returns whether `key` was held before.
    pub fn insert(&mut self, key: &[u8], val: &[u8]) -> (existed: bool)
        requires
            old(self).wf(),
        ensures
            final(self).wf(),
            existed == old(self)@.contains_key(key@),
            final(self)@ == old(self)@.insert(key@, val@),
    {
        let k = vstd::slice::slice_to_vec(key);
        let v = vstd::slice::slice_to_vec(val);
        match self.find(key) {
            Some(i) => {
                self.mem.set(i, (k, v));
                self.model = Ghost(self.model@.insert(key@, val@));
                assert forall|k2: Seq<u8>| #[trigger] self.model@.contains_key(k2) implies exists|
                    j: int,
                | 0 <= j < self.mem@.len() && #[trigger] self.mem@[j].0@ == k2 by {
                    if k2 != key@ {
                        let j = choose|j: int|
                            0 <= j < old(self).mem@.len() && #[trigger] old(self).mem@[j].0@ == k2;
                        assert(self.mem@[j].0@ == k2);
                    } else {
                        assert(self.mem@[i as int].0@ == k2);
                    }
                }
                true
            },
            None => {
                self.mem.push((k, v));
                self.model = Ghost(self.model@.insert(key@, val@));
                assert forall|k2: Seq<u8>| #[trigger] self.model@.contains_key(k2) implies exists|
                    j: int,
                | 0 <= j < self.mem@.len() && #[trigger] self.mem@[j].0@ == k2 by {
                    if k2 != key@ {
                        let j = choose|j: int|
                            0 <= j < old(self).mem@.len() && #[trigger] old(self).mem@[j].0@ == k2;
                        assert(self.mem@[j].0@ == k2);
                    } else {
                        assert(self.mem@[old(self).mem@.len() as int].0@ == k2);
                    }
                }
                false
            },
        }
    }

    /// Removes `key`; returns whether it was held.
    pub fn remove(&mut self, key: &[u8]) -> (existed: bool)
        requires
            old(self).wf(),
        ensures
            final(self).wf(),
            existed == old(self)@.contains_key(key@),
            final(self)@ == old(self)@.remove(key@),
    {
        match self.find(key) {
            Some(i) => {
                self.mem.remove(i);
                self.model = Ghost(self.model@.remove(key@));
                assert forall|k2: Seq<u8>| #[trigger] self.model@.contains_key(k2) implies exists|
                    j: int,
                | 0 <= j < self.mem@.len() && #[trigger] self.mem@[j].0@ == k2 by {
                    let j = choose|j: int|
                        0 <= j < old(self).mem@.len() && #[trigger] old(self).mem@[j].0@ == k2;
                    assert(j != i);
                    if j < i {
                        assert(self.mem@[j].0@ == k2);
                    } else {
                        assert(self.mem@[j - 1].0@ == k2);
                    }
                }
                assert forall|a: int, b: int|
                    0 <= a < b < self.mem@.len() implies #[trigger] self.mem@[a].0@
                    != #[trigger] self.mem@[b].0@ by {
                    let a0 = if a < i {
                        a
                    } else {
                        a + 1
                    };
                    let b0 = if b < i {
                        b
                    } else {
                        b + 1
                    };
                    assert(old(self).mem@[a0].0@ != old(self).mem@[b0].0@);
                }
                assert forall|a: int| 0 <= a < self.mem@.len() implies self.model@.contains_key(
                    #[trigger] self.mem@[a].0@,
                ) && self.model@[self.mem@[a].0@] == self.mem@[a].1@ by {
                    let a0 = if a < i {
                        a
                    } else {
                        a + 1
                    };
                    assert(old(self).mem@[a0].0@ != old(self).mem@[i as int].0@);
                }
                true
            },
            None => {
                assert(self.model@.remove(key@) =~= self.model@);
                false
            },
        }
    }

    /// The value of `key`, or none where it is not held.
    pub fn get(&self, key: &[u8]) -> (r: Result<Option<Vec<u8>>, KVError>)
        requires
            self.wf(),
        ensures
            r matches Ok(o) && match o {
                Some(v) => self@.contains_key(key@) && v@ == self@[key@],
                None => !self@.contains_key(key@),
            },
    {
        Ok(self.lookup(key))
    }

    /// Maps `key` to `val`; returns whether `key` was held before.
    pub fn set(&mut self, key: &[u8], val: &[u8]) -> (r: Result<bool, KVError>)
        requires
            old(self).wf(),
        ensures
            final(self).wf(),
            r matches Ok(existed) && existed == old(self)@.contains_key(key@),
            final(self)@ == old(self)@.insert(key@, val@),
    {
        Ok(self.insert(key, val))
    }

    /// Removes `key`; returns whether it was held.
    pub fn del(&mut self, key: &[u8]) -> (r: Result<bool, KVError>)
        requires
            old(self).wf(),
        ensures
            final(self).wf(),
            r matches Ok(existed) && existed == old(self)@.contains_key(key@),
            final(self)@ == old(self)@.remove(key@),
    {
        Ok(self.remove(key))
    }
}

} // verus!
