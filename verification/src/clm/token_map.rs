//! An insertion-ordered table keyed by token code.

use vstd::prelude::*;

verus! {

/// A token: the fixed-length byte string that stands for a text fragment in
/// the stream handed to the compressor.
pub type Token = Vec<u8>;

/// Whether two tokens hold the same bytes.
pub fn same_token(a: &Vec<u8>, b: &Vec<u8>) -> (r: bool)
    ensures
        r == (a@ == b@),
{
    if a.len() != b.len() {
        return false;
    }
    let mut i: usize = 0;
    while i < a.len()
        invariant
            a.len() == b.len(),
            i <= a.len(),
            forall|j: int| 0 <= j < i ==> a@[j] == b@[j],
        decreases a.len() - i,
    {
        if a[i] != b[i] {
            return false;
        }
        i += 1;
    }
    proof {
        assert(a@ =~= b@);
    }
    true
}

/// A table from tokens to values that remembers the order in which its keys
/// were first inserted. No key occurs twice.
#[derive(Debug, Clone, PartialEq, Eq)]
pub struct TokenMap<V> {
    entries: Vec<(Vec<u8>, V)>,
}

impl<V> TokenMap<V> {
    /// The keys, in the order of their first insertion.
    pub closed spec fn keys(&self) -> Seq<Seq<u8>> {
        Seq::new(self.entries.len() as nat, |i: int| self.entries@[i].0@)
    }

    /// The values, in the order of `keys`.
    pub closed spec fn values(&self) -> Seq<V> {
        Seq::new(self.entries.len() as nat, |i: int| self.entries@[i].1)
    }

    /// The table is well formed: one value for each key, and no key twice.
    pub open spec fn wf(&self) -> bool {
        &&& self.keys().len() == self.values().len()
        &&& self.keys().no_duplicates()
    }

    /// The table as a map.
    pub open spec fn view(&self) -> Map<Seq<u8>, V> {
        Map::new(
            |k: Seq<u8>| self.keys().contains(k),
            |k: Seq<u8>| self.values()[self.keys().index_of(k)],
        )
    }

    /// The value at a position is the value of the key at that position.
    pub proof fn lemma_entry(&self, i: int)
        requires
            self.wf(),
            0 <= i < self.keys().len(),
        ensures
            self@.contains_key(self.keys()[i]),
            self@[self.keys()[i]] == self.values()[i],
    {
        let k = self.keys()[i];
        assert(self.keys().contains(k));
        let j = self.keys().index_of(k);
        assert(self.keys()[j] == k);
    }

    /// An empty table.
    pub fn new() -> (m: Self)
        ensures
            m.wf(),
            m.keys() == Seq::<Seq<u8>>::empty(),
            m.values() == Seq::<V>::empty(),
            m@ == Map::<Seq<u8>, V>::empty(),
    {
        let m = TokenMap { entries: Vec::new() };
        proof {
            assert(m.keys() =~= Seq::<Seq<u8>>::empty());
            assert(m.values() =~= Seq::<V>::empty());
            assert(m@ =~= Map::<Seq<u8>, V>::empty());
        }
        m
    }

    /// The number of keys.
    pub fn len(&self) -> (n: usize)
        ensures
            n == self.keys().len(),
            n == self.values().len(),
    {
        self.entries.len()
    }

    /// The position of `key` among the keys.
    pub fn position(&self, key: &Vec<u8>) -> (r: Option<usize>)
        ensures
            match r {
                Some(i) => i < self.keys().len() && self.keys()[i as int] == key@,
                None => !self.keys().contains(key@),
            },
    {
        let mut i: usize = 0;
        while i < self.entries.len()
            invariant
                i <= self.entries.len(),
                forall|j: int| 0 <= j < i ==> self.keys()[j] != key@,
            decreases self.entries.len() - i,
        {
            if same_token(&self.entries[i].0, key) {
                return Some(i);
            }
            i += 1;
        }
        None
    }

    /// Whether `key` is in the table.
    pub fn contains_key(&self, key: &Vec<u8>) -> (r: bool)
        ensures
            r == self@.contains_key(key@),
    {
        self.position(key).is_some()
    }

    /// The value of `key`, if it is in the table.
    pub fn get(&self, key: &Vec<u8>) -> (r: Option<&V>)
        requires
            self.wf(),
        ensures
            match r {
                Some(v) => self@.contains_key(key@) && *v == self@[key@],
                None => !self@.contains_key(key@),
            },
    {
        match self.position(key) {
            Some(i) => {
                proof {
                    self.lemma_entry(i as int);
                }
                Some(&self.entries[i].1)
            },
            None => None,
        }
    }

    /// The key at position `i`.
    pub fn key_at(&self, i: usize) -> (r: &Vec<u8>)
        requires
            i < self.keys().len(),
        ensures
            r@ == self.keys()[i as int],
    {
        &self.entries[i].0
    }

    /// The value at position `i`.
    pub fn value_at(&self, i: usize) -> (r: &V)
        requires
            i < self.keys().len(),
        ensures
            *r == self.values()[i as int],
    {
        &self.entries[i].1
    }

    /// Gives `key` the value `value`: a new key goes to the end, a known
    /// key keeps its position.
    pub fn insert(&mut self, key: Vec<u8>, value: V)
        requires
            old(self).wf(),
        ensures
            final(self).wf(),
            final(self)@ == old(self)@.insert(key@, value),
            old(self).keys().contains(key@) ==> {
                &&& final(self).keys() == old(self).keys()
                &&& final(self).values() == old(self).values().update(
                    old(self).keys().index_of(key@),
                    value,
                )
            },
            !old(self).keys().contains(key@) ==> {
                &&& final(self).keys() == old(self).keys().push(key@)
                &&& final(self).values() == old(self).values().push(value)
            },
    {
        let ghost before = *self;
        let ghost k = key@;
        match self.position(&key) {
            Some(i) => {
                let (stored, _) = self.entries.remove(i);
                self.entries.insert(i, (stored, value));
                proof {
                    assert(before.keys().index_of(k) == i) by {
                        let j = before.keys().index_of(k);
                        assert(before.keys()[j] == k);
                    }
                    assert(self.keys() =~= before.keys());
                    assert(self.values() =~= before.values().update(i as int, value));
                    assert forall|q: Seq<u8>| #[trigger]
                        self@.contains_key(q) implies self@[q] == before@.insert(k, value)[q] by {
                        let j = self.keys().index_of(q);
                        assert(self.keys()[j] == q);
                    }
                    assert(self@ =~= before@.insert(k, value));
                }
            },
            None => {
                self.entries.push((key, value));
                proof {
                    let n = before.keys().len() as int;
                    assert(self.keys() =~= before.keys().push(k));
                    assert(self.values() =~= before.values().push(value));
                    assert forall|q: Seq<u8>|
                        self.keys().contains(q) == (q == k || before.keys().contains(q)) by {
                        if self.keys().contains(q) {
                            let j = self.keys().index_of(q);
                            assert(self.keys()[j] == q);
                            if j < n {
                                assert(before.keys()[j] == q);
                            }
                        }
                        if q == k {
                            assert(self.keys()[n] == q);
                        }
                        if before.keys().contains(q) {
                            let j = before.keys().index_of(q);
                            assert(before.keys()[j] == q);
                            assert(self.keys()[j] == q);
                        }
                    }
                    assert forall|q: Seq<u8>| #[trigger]
                        self@.contains_key(q) implies self@[q] == before@.insert(k, value)[q] by {
                        let j = self.keys().index_of(q);
                        assert(self.keys()[j] == q);
                        if q != k {
                            let j2 = before.keys().index_of(q);
                            assert(before.keys()[j2] == q);
                            assert(self.keys()[j2] == q);
                        }
                    }
                    assert(self@ =~= before@.insert(k, value));
                }
            },
        }
    }
}

} // verus!
