//! The vocabulary: text fragments in the order of their creation, each with
//! its token code.

use vstd::prelude::*;

verus! {

/// Text fragments, each with its token code, in the order in which the
/// fragments were first inserted. No fragment occurs twice.
#[derive(Debug, Clone, PartialEq, Eq)]
pub struct Vocabulary {
    entries: Vec<(String, Vec<u8>)>,
}

impl Vocabulary {
    /// The fragments, in the order of their first insertion.
    pub closed spec fn fragments(&self) -> Seq<Seq<char>> {
        Seq::new(self.entries.len() as nat, |i: int| self.entries@[i].0@)
    }

    /// The codes, in the order of `fragments`.
    pub closed spec fn codes(&self) -> Seq<Seq<u8>> {
        Seq::new(self.entries.len() as nat, |i: int| self.entries@[i].1@)
    }

    /// The vocabulary is well formed: one code for each fragment, and no
    /// fragment twice.
    pub open spec fn wf(&self) -> bool {
        &&& self.fragments().len() == self.codes().len()
        &&& self.fragments().no_duplicates()
    }

    /// The vocabulary as a map from fragment to code.
    pub open spec fn view(&self) -> Map<Seq<char>, Seq<u8>> {
        Map::new(
            |f: Seq<char>| self.fragments().contains(f),
            |f: Seq<char>| self.codes()[self.fragments().index_of(f)],
        )
    }

    /// The code at a position is the code of the fragment at that position.
    pub proof fn lemma_entry(&self, i: int)
        requires
            self.wf(),
            0 <= i < self.fragments().len(),
        ensures
            self@.contains_key(self.fragments()[i]),
            self@[self.fragments()[i]] == self.codes()[i],
    {
        let f = self.fragments()[i];
        assert(self.fragments().contains(f));
        let j = self.fragments().index_of(f);
        assert(self.fragments()[j] == f);
    }

    /// An empty vocabulary.
    pub fn new() -> (v: Self)
        ensures
            v.wf(),
            v.fragments() == Seq::<Seq<char>>::empty(),
            v.codes() == Seq::<Seq<u8>>::empty(),
            v@ == Map::<Seq<char>, Seq<u8>>::empty(),
    {
        let v = Vocabulary { entries: Vec::new() };
        proof {
            assert(v.fragments() =~= Seq::<Seq<char>>::empty());
            assert(v.codes() =~= Seq::<Seq<u8>>::empty());
            assert(v@ =~= Map::<Seq<char>, Seq<u8>>::empty());
        }
        v
    }

    /// The number of fragments.
    pub fn len(&self) -> (n: usize)
        ensures
            n == self.fragments().len(),
            n == self.codes().len(),
    {
        self.entries.len()
    }

    /// The position of `fragment` among the fragments.
    pub fn position(&self, fragment: &String) -> (r: Option<usize>)
        ensures
            match r {
                Some(i) => i < self.fragments().len() && self.fragments()[i as int] == fragment@,
                None => !self.fragments().contains(fragment@),
            },
    {
        let mut i: usize = 0;
        while i < self.entries.len()
            invariant
                i <= self.entries.len(),
                forall|j: int| 0 <= j < i ==> self.fragments()[j] != fragment@,
            decreases self.entries.len() - i,
        {
            if self.entries[i].0 == *fragment {
                return Some(i);
            }
            i += 1;
        }
        None
    }

    /// The fragment at position `i`.
    pub fn fragment_at(&self, i: usize) -> (r: &String)
        requires
            i < self.fragments().len(),
        ensures
            r@ == self.fragments()[i as int],
    {
        &self.entries[i].0
    }

    /// The code at position `i`.
    pub fn code_at(&self, i: usize) -> (r: &Vec<u8>)
        requires
            i < self.fragments().len(),
        ensures
            r@ == self.codes()[i as int],
    {
        &self.entries[i].1
    }

    /// Gives `fragment` the code `code` and returns the fragment's position:
    /// a new fragment goes to the end, a known one keeps its position.
    pub fn insert(&mut self, fragment: String, code: Vec<u8>) -> (at: usize)
        requires
            old(self).wf(),
        ensures
            final(self).wf(),
            final(self)@ == old(self)@.insert(fragment@, code@),
            at < final(self).fragments().len(),
            final(self).fragments()[at as int] == fragment@,
            old(self).fragments().contains(fragment@) ==> {
                &&& final(self).fragments() == old(self).fragments()
                &&& final(self).codes() == old(self).codes().update(at as int, code@)
            },
            !old(self).fragments().contains(fragment@) ==> {
                &&& at == old(self).fragments().len()
                &&& final(self).fragments() == old(self).fragments().push(fragment@)
                &&& final(self).codes() == old(self).codes().push(code@)
            },
    {
        let ghost before = *self;
        let ghost f = fragment@;
        let ghost c = code@;
        match self.position(&fragment) {
            Some(i) => {
                let (stored, _) = self.entries.remove(i);
                self.entries.insert(i, (stored, code));
                proof {
                    assert(self.fragments() =~= before.fragments());
                    assert(self.codes() =~= before.codes().update(i as int, c));
                    assert forall|q: Seq<char>| #[trigger]
                        self@.contains_key(q) implies self@[q] == before@.insert(f, c)[q] by {
                        let j = self.fragments().index_of(q);
                        assert(self.fragments()[j] == q);
                    }
                    assert(self@ =~= before@.insert(f, c));
                }
                i
            },
            None => {
                let at = self.entries.len();
                self.entries.push((fragment, code));
                proof {
                    let n = before.fragments().len() as int;
                    assert(self.fragments() =~= before.fragments().push(f));
                    assert(self.codes() =~= before.codes().push(c));
                    assert forall|q: Seq<char>|
                        self.fragments().contains(q) == (q == f || before.fragments().contains(
                            q,
                        )) by {
                        if self.fragments().contains(q) {
                            let j = self.fragments().index_of(q);
                            assert(self.fragments()[j] == q);
                            if j < n {
                                assert(before.fragments()[j] == q);
                            }
                        }
                        if q == f {
                            assert(self.fragments()[n] == q);
                        }
                        if before.fragments().contains(q) {
                            let j = before.fragments().index_of(q);
                            assert(before.fragments()[j] == q);
                            assert(self.fragments()[j] == q);
                        }
                    }
                    assert forall|q: Seq<char>| #[trigger]
                        self@.contains_key(q) implies self@[q] == before@.insert(f, c)[q] by {
                        let j = self.fragments().index_of(q);
                        assert(self.fragments()[j] == q);
                        if q != f {
                            let j2 = before.fragments().index_of(q);
                            assert(before.fragments()[j2] == q);
                            assert(self.fragments()[j2] == q);
                        }
                    }
                    assert(self@ =~= before@.insert(f, c));
                }
                at
            },
        }
    }
}

} // verus!
