//! A character-keyed prefix tree from text fragments to token codes, and
//! greedy longest-prefix lookup in it.

use crate::clm::text::chars_of;
use vstd::prelude::*;

verus! {

/// A node of the prefix tree. The node reached from the root along the
/// characters of a fragment carries that fragment's code, if it has one.
pub struct TrieNode {
    children: Vec<(char, TrieNode)>,
    token_code: Option<Vec<u8>>,
}

/// `i` is the first position in `children` labelled with `c`.
pub open spec fn is_first_child(children: Seq<(char, TrieNode)>, c: char, i: int) -> bool {
    &&& 0 <= i < children.len()
    &&& children[i].0 == c
    &&& forall|j: int| 0 <= j < i ==> (#[trigger] children[j]).0 != c
}

/// The first position in `children` labelled with `c`, if there is one.
pub open spec fn first_child(children: Seq<(char, TrieNode)>, c: char) -> Option<int> {
    if exists|i: int| is_first_child(children, c, i) {
        Some(choose|i: int| is_first_child(children, c, i))
    } else {
        None
    }
}

/// The length of the longest non-empty prefix of `input[start..]`, of at
/// most `limit` characters, that is a key of `vocab`; 0 if there is none.
pub open spec fn longest_match_upto(
    vocab: Map<Seq<char>, Seq<u8>>,
    input: Seq<char>,
    start: int,
    limit: nat,
) -> nat
    decreases limit,
{
    if limit == 0 {
        0
    } else if vocab.contains_key(input.subrange(start, start + limit)) {
        limit
    } else {
        longest_match_upto(vocab, input, start, (limit - 1) as nat)
    }
}

/// The length of the longest non-empty prefix of `input[start..]` that is a
/// key of `vocab`; 0 if no prefix is.
pub open spec fn longest_match_len(
    vocab: Map<Seq<char>, Seq<u8>>,
    input: Seq<char>,
    start: int,
) -> nat {
    if 0 <= start <= input.len() {
        longest_match_upto(vocab, input, start, (input.len() - start) as nat)
    } else {
        0
    }
}

proof fn lemma_first_child_unique(children: Seq<(char, TrieNode)>, c: char, i: int)
    requires
        is_first_child(children, c, i),
    ensures
        first_child(children, c) == Some(i),
{
    let w = choose|w: int| is_first_child(children, c, w);
    if w < i {
        assert(children[w].0 != c);
    } else if i < w {
        assert(children[i].0 != c);
    }
}

proof fn lemma_no_child(children: Seq<(char, TrieNode)>, c: char)
    requires
        forall|j: int| 0 <= j < children.len() ==> (#[trigger] children[j]).0 != c,
    ensures
        first_child(children, c) is None,
{
    if exists|i: int| is_first_child(children, c, i) {
        let w = choose|w: int| is_first_child(children, c, w);
        assert(children[w].0 != c);
    }
}

/// Nothing longer than `from` matches, so the longest match among lengths
/// up to `to` is the longest among lengths up to `from`.
proof fn lemma_longest_match_stops(
    vocab: Map<Seq<char>, Seq<u8>>,
    input: Seq<char>,
    start: int,
    from: nat,
    to: nat,
)
    requires
        from <= to,
        forall|l: int| from < l <= to ==> !vocab.contains_key(#[trigger] input.subrange(start, start + l)),
    ensures
        longest_match_upto(vocab, input, start, to) == longest_match_upto(vocab, input, start, from),
    decreases to,
{
    if to > from {
        assert(!vocab.contains_key(input.subrange(start, start + to)));
        lemma_longest_match_stops(vocab, input, start, from, (to - 1) as nat);
    }
}

/// A longest match is a key of the vocabulary and lies within the input.
pub proof fn lemma_longest_match_is_key(
    vocab: Map<Seq<char>, Seq<u8>>,
    input: Seq<char>,
    start: int,
    limit: nat,
)
    ensures
        longest_match_upto(vocab, input, start, limit) <= limit,
        longest_match_upto(vocab, input, start, limit) > 0 ==> vocab.contains_key(
            input.subrange(start, start + longest_match_upto(vocab, input, start, limit)),
        ),
    decreases limit,
{
    if limit > 0 && !vocab.contains_key(input.subrange(start, start + limit)) {
        lemma_longest_match_is_key(vocab, input, start, (limit - 1) as nat);
    }
}

/// Where some prefix of at most `limit` characters is a key, the longest
/// match is at least that long.
pub proof fn lemma_longest_match_covers(
    vocab: Map<Seq<char>, Seq<u8>>,
    input: Seq<char>,
    start: int,
    limit: nat,
    l: nat,
)
    requires
        0 < l <= limit,
        vocab.contains_key(input.subrange(start, start + l)),
    ensures
        longest_match_upto(vocab, input, start, limit) >= l,
    decreases limit,
{
    if !vocab.contains_key(input.subrange(start, start + limit)) {
        lemma_longest_match_covers(vocab, input, start, (limit - 1) as nat, l);
    }
}

impl TrieNode {
    /// The code stored for exactly the fragment `key`, if any.
    pub closed spec fn lookup(self, key: Seq<char>) -> Option<Seq<u8>>
        decreases key.len(),
    {
        if key.len() == 0 {
            match self.token_code {
                Some(code) => Some(code@),
                None => None,
            }
        } else {
            match first_child(self.children@, key[0]) {
                Some(i) => self.children@[i].1.lookup(key.drop_first()),
                None => None,
            }
        }
    }

    /// The fragments stored below this node, each with its code.
    pub closed spec fn view(&self) -> Map<Seq<char>, Seq<u8>> {
        Map::new(|key: Seq<char>| self.lookup(key) is Some, |key: Seq<char>| self.lookup(key)->0)
    }

    /// An empty tree.
    pub fn new() -> (node: Self)
        ensures
            node@ == Map::<Seq<char>, Seq<u8>>::empty(),
    {
        let node = TrieNode { children: Vec::new(), token_code: None };
        proof {
            assert forall|key: Seq<char>| node.lookup(key) is None by {
                if key.len() > 0 {
                    lemma_no_child(node.children@, key[0]);
                }
            }
            assert(node@ =~= Map::<Seq<char>, Seq<u8>>::empty());
        }
        node
    }

    /// Stores `code` for the fragment `token`, replacing an earlier code
    /// for the same fragment.
    pub fn insert(&mut self, token: &str, code: Vec<u8>)
        ensures
            final(self)@ == old(self)@.insert(token@, code@),
    {
        let chars = chars_of(token);
        let ghost before = *self;
        self.insert_from(&chars, 0, code);
        proof {
            assert(chars@.skip(0) =~= token@);
            assert forall|key: Seq<char>|
                self@.contains_key(key) == before@.insert(token@, code@).contains_key(key) && (
                self@.contains_key(key) ==> self@[key] == before@.insert(token@, code@)[key]) by {
                assert(self.lookup(key) == if key == token@ {
                    Some(code@)
                } else {
                    before.lookup(key)
                });
            }
            assert(self@ =~= before@.insert(token@, code@));
        }
    }

    /// The longest non-empty prefix of `input[start..]` that is a stored
    /// fragment: its length and its code, or `None` where no prefix is
    /// stored.
    pub fn longest_match<'a>(&'a self, input: &Vec<char>, start: usize) -> (r: Option<
        (usize, &'a Vec<u8>),
    >)
        requires
            start <= input.len(),
        ensures
            match r {
                Some((len, code)) => {
                    &&& len > 0
                    &&& start + len <= input.len()
                    &&& len == longest_match_len(self@, input@, start as int)
                    &&& self@.contains_key(input@.subrange(start as int, start + len))
                    &&& code@ == self@[input@.subrange(start as int, start + len)]
                },
                None => longest_match_len(self@, input@, start as int) == 0,
            },
    {
        let n = input.len();
        let ghost s = start as int;
        let mut node: &TrieNode = self;
        let mut best: Option<(usize, &Vec<u8>)> = None;
        let mut depth: usize = 0;
        let mut stuck = false;
        proof {
            assert forall|key: Seq<char>|
                self.lookup(input@.subrange(s, s + 0) + key) == #[trigger] node.lookup(key) by {
                assert(input@.subrange(s, s + 0) + key =~= key);
            }
        }
        while !stuck && start + depth < n
            invariant
                n == input.len(),
                s == start,
                start + depth <= n,
                forall|key: Seq<char>|
                    self.lookup(input@.subrange(s, s + depth) + key) == #[trigger] node.lookup(key),
                match best {
                    Some((len, code)) => {
                        &&& 0 < len <= depth
                        &&& len == longest_match_upto(self@, input@, s, depth as nat)
                        &&& self.lookup(input@.subrange(s, s + len)) == Some(code@)
                    },
                    None => longest_match_upto(self@, input@, s, depth as nat) == 0,
                },
                stuck ==> forall|l: int|
                    depth < l <= n - start ==> !self@.contains_key(
                        #[trigger] input@.subrange(s, s + l),
                    ),
            decreases
                    if stuck {
                        0
                    } else {
                        1 + n - start - depth
                    },
        {
            let c = input[start + depth];
            let ghost prefix = input@.subrange(s, s + depth);
            match node.find_child(c) {
                None => {
                    stuck = true;
                    proof {
                        assert forall|l: int| depth < l <= n - start implies !self@.contains_key(
                            #[trigger] input@.subrange(s, s + l),
                        ) by {
                            let key = input@.subrange(s + depth, s + l);
                            assert(input@.subrange(s, s + l) =~= prefix + key);
                            assert(key[0] == c);
                            assert(node.lookup(key) is None);
                        }
                    }
                },
                Some(i) => {
                    let child = &node.children[i].1;
                    proof {
                        let longer = input@.subrange(s, s + depth + 1);
                        assert forall|key: Seq<char>|
                            self.lookup(longer + key) == #[trigger] child.lookup(key) by {
                            let step = seq![c] + key;
                            assert(longer + key =~= prefix + step);
                            assert(step[0] == c);
                            assert(step.drop_first() =~= key);
                            assert(node.lookup(step) == child.lookup(key));
                        }
                        assert(longer + Seq::<char>::empty() =~= longer);
                        assert(self.lookup(longer) == child.lookup(Seq::<char>::empty()));
                        assert(self@.contains_key(longer) == (self.lookup(longer) is Some));
                    }
                    node = child;
                    depth += 1;
                    match &node.token_code {
                        Some(code) => {
                            best = Some((depth, code));
                        },
                        None => {},
                    }
                },
            }
        }
        proof {
            lemma_longest_match_stops(self@, input@, s, depth as nat, (n - start) as nat);
            match best {
                Some((len, code)) => {
                    assert(self@.contains_key(input@.subrange(s, s + len)));
                },
                None => {},
            }
        }
        best
    }

    fn find_child(&self, c: char) -> (r: Option<usize>)
        ensures
            match r {
                Some(i) => first_child(self.children@, c) == Some(i as int) && i < self.children.len(),
                None => first_child(self.children@, c) is None,
            },
    {
        let mut i: usize = 0;
        while i < self.children.len()
            invariant
                i <= self.children.len(),
                forall|j: int| 0 <= j < i ==> (#[trigger] self.children@[j]).0 != c,
            decreases self.children.len() - i,
        {
            if self.children[i].0 == c {
                proof {
                    lemma_first_child_unique(self.children@, c, i as int);
                }
                return Some(i);
            }
            i += 1;
        }
        proof {
            lemma_no_child(self.children@, c);
        }
        None
    }

    fn insert_from(&mut self, chars: &Vec<char>, pos: usize, code: Vec<u8>)
        requires
            pos <= chars.len(),
        ensures
            forall|key: Seq<char>|
                #[trigger] final(self).lookup(key) == if key == chars@.skip(pos as int) {
                    Some(code@)
                } else {
                    old(self).lookup(key)
                },
        decreases chars.len() - pos,
    {
        let ghost before = *self;
        let ghost rest = chars@.skip(pos as int);
        if pos == chars.len() {
            self.token_code = Some(code);
            proof {
                assert forall|key: Seq<char>|
                    #[trigger] self.lookup(key) == if key == rest {
                        Some(code@)
                    } else {
                        before.lookup(key)
                    } by {
                    if key.len() == 0 {
                        assert(key =~= rest);
                    }
                }
            }
        } else {
            let c = chars[pos];
            let ghost tail = chars@.skip(pos as int + 1);
            let ghost child_before;
            let ghost child_after;
            let at = match self.find_child(c) {
                Some(i) => {
                    let (label, mut child) = self.children.remove(i);
                    proof {
                        child_before = child;
                    }
                    child.insert_from(chars, pos + 1, code);
                    proof {
                        child_after = child;
                    }
                    self.children.insert(i, (label, child));
                    proof {
                        assert(self.children@ =~= before.children@.update(
                            i as int,
                            (c, child_after),
                        ));
                        assert(is_first_child(before.children@, c, i as int));
                    }
                    i
                },
                None => {
                    let mut child = TrieNode::new();
                    proof {
                        child_before = child;
                    }
                    child.insert_from(chars, pos + 1, code);
                    proof {
                        child_after = child;
                    }
                    self.children.push((c, child));
                    self.children.len() - 1
                },
            };
            proof {
                let old_children = before.children@;
                let new_children = self.children@;
                assert(rest =~= seq![c] + tail);
                assert(new_children[at as int].1 == child_after);
                lemma_first_child_after_insert(old_children, new_children, c, at as int);
                assert forall|key: Seq<char>|
                    #[trigger] self.lookup(key) == if key == rest {
                        Some(code@)
                    } else {
                        before.lookup(key)
                    } by {
                    if key.len() == 0 {
                        assert(self.token_code == before.token_code);
                    } else if key[0] == c {
                        let shorter = key.drop_first();
                        assert(key =~= seq![c] + shorter);
                        assert(self.lookup(key) == child_after.lookup(shorter));
                        assert(child_after.lookup(shorter) == if shorter == tail {
                            Some(code@)
                        } else {
                            child_before.lookup(shorter)
                        });
                        if first_child(old_children, c) is None {
                            assert(!child_before@.contains_key(shorter));
                        }
                        assert(rest.drop_first() =~= tail);
                    } else {
                        lemma_first_child_kept(old_children, new_children, c, at as int, key[0]);
                    }
                }
            }
        }
    }
}

/// `new` is `old` with the child labelled `c` replaced in place, or, where
/// `old` has no such child, with one added at the end.
spec fn child_inserted(
    old: Seq<(char, TrieNode)>,
    new: Seq<(char, TrieNode)>,
    c: char,
    at: int,
) -> bool {
    &&& 0 <= at < new.len()
    &&& new[at].0 == c
    &&& forall|m: int| 0 <= m < new.len() && m != at ==> m < old.len() && #[trigger] new[m] == old[m]
    &&& (first_child(old, c) == Some(at) && new.len() == old.len()) || (first_child(old, c) is None
        && at == old.len() && new.len() == old.len() + 1)
}

/// A position labelled `c` exists, so a first one does.
proof fn lemma_has_first_child(children: Seq<(char, TrieNode)>, c: char, m: int)
    requires
        0 <= m < children.len(),
        children[m].0 == c,
    ensures
        first_child(children, c) is Some,
    decreases m,
{
    if forall|j: int| 0 <= j < m ==> (#[trigger] children[j]).0 != c {
        assert(is_first_child(children, c, m));
    } else {
        let j = choose|j: int| 0 <= j < m && (#[trigger] children[j]).0 == c;
        lemma_has_first_child(children, c, j);
    }
}

/// After the child labelled `c` was replaced or added at `at`, it is the
/// first child with that label.
proof fn lemma_first_child_after_insert(
    old: Seq<(char, TrieNode)>,
    new: Seq<(char, TrieNode)>,
    c: char,
    at: int,
)
    requires
        child_inserted(old, new, c, at),
    ensures
        first_child(new, c) == Some(at),
{
    assert forall|j: int| 0 <= j < at implies (#[trigger] new[j]).0 != c by {
        if first_child(old, c) == Some(at) {
            assert(is_first_child(old, c, at));
            assert(old[j].0 != c);
        } else if old[j].0 == c {
            lemma_has_first_child(old, c, j);
        }
    }
    lemma_first_child_unique(new, c, at);
}

/// Replacing or adding the child labelled `c` leaves the first child with
/// any other label where and what it was.
proof fn lemma_first_child_kept(
    old: Seq<(char, TrieNode)>,
    new: Seq<(char, TrieNode)>,
    c: char,
    at: int,
    other: char,
)
    requires
        child_inserted(old, new, c, at),
        other != c,
    ensures
        first_child(new, other) == first_child(old, other),
        first_child(old, other) matches Some(j) ==> new[j] == old[j],
{
    match first_child(old, other) {
        Some(j) => {
            assert(is_first_child(old, other, j));
            assert forall|m: int| 0 <= m < j implies (#[trigger] new[m]).0 != other by {
                if m != at {
                    assert(old[m].0 != other);
                }
            }
            lemma_first_child_unique(new, other, j);
        },
        None => {
            assert forall|m: int| 0 <= m < new.len() implies (#[trigger] new[m]).0 != other by {
                if m != at && old[m].0 == other {
                    lemma_has_first_child(old, other, m);
                }
            }
            lemma_no_child(new, other);
        },
    }
}

} // verus!
