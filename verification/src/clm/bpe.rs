//! Byte-pair training: what one round counts, which pair it picks, how it
//! rewrites the corpus, and the vocabulary that training ends with.
//!
//! A corpus is held as chunks of fragment positions: each element is the
//! position of a fragment in the vocabulary, which lists its fragments in
//! the order of their creation. Among pairs with the same count the one
//! whose left fragment is older wins, then the one whose right fragment is
//! older.

use crate::clm::text::{chars_of, string_of_char};
use crate::clm::tokenizer::{token_code, token_code_spec};
use crate::clm::vocabulary::Vocabulary;
use std::collections::HashMap;
use vstd::prelude::*;
use vstd::string::StringExecFns;

verus! {

/// The longest corpus that training reads, in characters.
pub const MAX_TRAINING_CHARS: usize = 50_000;

/// The length of a training chunk, in fragments.
pub const CHUNK_SIZE: usize = 1024;

/// The state of training between two rounds.
pub struct BpeState {
    /// The vocabulary's fragments, in the order of their creation.
    pub fragments: Seq<Seq<char>>,
    /// The merges made so far, oldest first.
    pub merges: Seq<(Seq<char>, Seq<char>)>,
    /// The corpus: chunks of positions in `fragments`.
    pub chunks: Seq<Seq<usize>>,
}

/// A fragment that ends with a space closes a word: no merge starts with it.
pub open spec fn ends_with_space(fragment: Seq<char>) -> bool {
    fragment.len() > 0 && fragment.last() == ' '
}

/// The pair `(a, b)` stands at positions `i` and `i + 1` of `chunk`.
pub open spec fn pair_at(chunk: Seq<usize>, i: int, a: usize, b: usize) -> bool {
    0 <= i && i + 1 < chunk.len() && chunk[i] == a && chunk[i + 1] == b
}

/// How often the pair `(a, b)` starts at one of the first `k` positions of
/// `chunk`.
pub open spec fn occurrences_upto(chunk: Seq<usize>, a: usize, b: usize, k: nat) -> nat
    decreases k,
{
    if k == 0 {
        0
    } else {
        occurrences_upto(chunk, a, b, (k - 1) as nat) + if pair_at(chunk, k - 1, a, b) {
            1nat
        } else {
            0nat
        }
    }
}

/// How often the pair `(a, b)` occurs in `chunk`.
pub open spec fn occurrences(chunk: Seq<usize>, a: usize, b: usize) -> nat {
    occurrences_upto(chunk, a, b, chunk.len())
}

/// How often the pair `(a, b)` occurs in the first `k` chunks.
pub open spec fn total_occurrences_upto(chunks: Seq<Seq<usize>>, a: usize, b: usize, k: nat) -> nat
    decreases k,
{
    if k == 0 {
        0
    } else {
        total_occurrences_upto(chunks, a, b, (k - 1) as nat) + occurrences(chunks[k - 1], a, b)
    }
}

/// The count of the pair `(a, b)` in a round: its occurrences within the
/// chunks, and 0 where the left fragment ends with a space.
pub open spec fn pair_count(st: BpeState, a: usize, b: usize) -> nat {
    if a < st.fragments.len() && ends_with_space(st.fragments[a as int]) {
        0
    } else {
        total_occurrences_upto(st.chunks, a, b, st.chunks.len())
    }
}

/// `(a, b)` comes no later than `(a2, b2)` in the order of creation: the
/// left fragment decides, then the right one.
pub open spec fn precedes(a: usize, b: usize, a2: usize, b2: usize) -> bool {
    a < a2 || (a == a2 && b <= b2)
}

/// `(a, b)` is the pair that a round merges: its count is positive and the
/// highest, and among the pairs with that count it comes first.
pub open spec fn is_best_pair(st: BpeState, a: usize, b: usize) -> bool {
    &&& a < st.fragments.len()
    &&& b < st.fragments.len()
    &&& pair_count(st, a, b) > 0
    &&& forall|a2: usize, b2: usize|
        a2 < st.fragments.len() && b2 < st.fragments.len() ==> {
            ||| #[trigger] pair_count(st, a2, b2) < pair_count(st, a, b)
            ||| (pair_count(st, a2, b2) == pair_count(st, a, b) && precedes(a, b, a2, b2))
        }
}

/// The pair that a round merges, if any pair has a positive count.
pub open spec fn best_pair(st: BpeState) -> Option<(usize, usize)> {
    if exists|a: usize, b: usize| is_best_pair(st, a, b) {
        let pair = choose|pair: (usize, usize)| is_best_pair(st, pair.0, pair.1);
        Some(pair)
    } else {
        None
    }
}

/// `chunk` with every occurrence of the pair `(a, b)` replaced by `m`,
/// scanning from the left; a replaced pair is not looked at again.
pub open spec fn merge_chunk(chunk: Seq<usize>, a: usize, b: usize, m: usize) -> Seq<usize>
    decreases chunk.len(),
{
    if chunk.len() < 2 {
        chunk
    } else if chunk[0] == a && chunk[1] == b {
        seq![m] + merge_chunk(chunk.skip(2), a, b, m)
    } else {
        seq![chunk[0]] + merge_chunk(chunk.skip(1), a, b, m)
    }
}

/// The fragment that merging the pair `(a, b)` creates.
pub open spec fn joined(st: BpeState, a: usize, b: usize) -> Seq<char> {
    st.fragments[a as int] + st.fragments[b as int]
}

/// The position of the fragment that merging `(a, b)` creates: its old
/// position where the vocabulary holds it already, else the next free one.
pub open spec fn joined_position(st: BpeState, a: usize, b: usize) -> int {
    if st.fragments.contains(joined(st, a, b)) {
        st.fragments.index_of(joined(st, a, b))
    } else {
        st.fragments.len() as int
    }
}

/// The state after merging the pair `(a, b)`.
pub open spec fn apply_merge(st: BpeState, a: usize, b: usize) -> BpeState {
    let m = joined_position(st, a, b) as usize;
    BpeState {
        fragments: if st.fragments.contains(joined(st, a, b)) {
            st.fragments
        } else {
            st.fragments.push(joined(st, a, b))
        },
        merges: st.merges.push((st.fragments[a as int], st.fragments[b as int])),
        chunks: Seq::new(st.chunks.len(), |k: int| merge_chunk(st.chunks[k], a, b, m)),
    }
}

/// The number of fragments in the first `k` chunks.
pub open spec fn total_len_upto(chunks: Seq<Seq<usize>>, k: nat) -> nat
    decreases k,
{
    if k == 0 {
        0
    } else {
        total_len_upto(chunks, (k - 1) as nat) + chunks[k - 1].len()
    }
}

/// The number of fragments in the corpus.
pub open spec fn total_len(chunks: Seq<Seq<usize>>) -> nat {
    total_len_upto(chunks, chunks.len())
}

/// The state that training ends with: rounds are made until the vocabulary
/// has `target` fragments or no pair has a positive count.
pub open spec fn train_spec(st: BpeState, target: nat) -> BpeState
    decreases total_len(st.chunks),
    via train_spec_terminates
{
    if st.fragments.len() >= target {
        st
    } else {
        match best_pair(st) {
            None => st,
            Some(pair) => train_spec(apply_merge(st, pair.0, pair.1), target),
        }
    }
}

#[via_fn]
proof fn train_spec_terminates(st: BpeState, target: nat) {
    if st.fragments.len() < target {
        match best_pair(st) {
            None => {},
            Some(pair) => {
                lemma_best_pair(st);
                lemma_merge_shortens_corpus(st, pair.0, pair.1);
            },
        }
    }
}

/// What `best_pair` returns is the pair that the round merges.
pub proof fn lemma_best_pair(st: BpeState)
    ensures
        match best_pair(st) {
            Some(pair) => is_best_pair(st, pair.0, pair.1),
            None => forall|a: usize, b: usize| !is_best_pair(st, a, b),
        },
{
    if exists|a: usize, b: usize| is_best_pair(st, a, b) {
        let (a, b) = choose|a: usize, b: usize| is_best_pair(st, a, b);
        let witness = (a, b);
        assert(is_best_pair(st, witness.0, witness.1));
    }
}

/// Only one pair can be the one that a round merges.
pub proof fn lemma_best_pair_unique(st: BpeState, a: usize, b: usize)
    requires
        is_best_pair(st, a, b),
    ensures
        best_pair(st) == Some((a, b)),
{
    lemma_best_pair(st);
    let pair = best_pair(st)->0;
    assert(pair_count(st, a, b) <= pair_count(st, pair.0, pair.1));
    assert(pair_count(st, pair.0, pair.1) <= pair_count(st, a, b));
}

/// A pair that is counted in a chunk stands somewhere in it.
proof fn lemma_occurrence_witness(chunk: Seq<usize>, a: usize, b: usize, k: nat) -> (i: int)
    requires
        occurrences_upto(chunk, a, b, k) > 0,
    ensures
        pair_at(chunk, i, a, b),
    decreases k,
{
    if pair_at(chunk, k - 1, a, b) {
        k - 1
    } else {
        lemma_occurrence_witness(chunk, a, b, (k - 1) as nat)
    }
}

/// A pair that is counted in the corpus is counted in one of its chunks.
proof fn lemma_chunk_witness(chunks: Seq<Seq<usize>>, a: usize, b: usize, k: nat) -> (c: int)
    requires
        total_occurrences_upto(chunks, a, b, k) > 0,
        k <= chunks.len(),
    ensures
        0 <= c < k,
        occurrences(chunks[c], a, b) > 0,
    decreases k,
{
    if occurrences(chunks[k - 1], a, b) > 0 {
        k - 1
    } else {
        lemma_chunk_witness(chunks, a, b, (k - 1) as nat)
    }
}

/// Merging never makes a chunk longer.
pub proof fn lemma_merge_len(chunk: Seq<usize>, a: usize, b: usize, m: usize)
    ensures
        merge_chunk(chunk, a, b, m).len() <= chunk.len(),
    decreases chunk.len(),
{
    if chunk.len() >= 2 {
        if chunk[0] == a && chunk[1] == b {
            lemma_merge_len(chunk.skip(2), a, b, m);
        } else {
            lemma_merge_len(chunk.skip(1), a, b, m);
        }
    }
}

/// Merging a pair that stands in a chunk makes the chunk shorter.
proof fn lemma_merge_shrinks(chunk: Seq<usize>, a: usize, b: usize, m: usize, i: int)
    requires
        pair_at(chunk, i, a, b),
    ensures
        merge_chunk(chunk, a, b, m).len() < chunk.len(),
    decreases chunk.len(),
{
    if chunk[0] == a && chunk[1] == b {
        lemma_merge_len(chunk.skip(2), a, b, m);
    } else {
        assert(i > 0);
        assert(pair_at(chunk.skip(1), i - 1, a, b));
        lemma_merge_shrinks(chunk.skip(1), a, b, m, i - 1);
    }
}

/// Chunk by chunk no longer, and one chunk shorter: the corpus is shorter.
proof fn lemma_total_len_compare(
    before: Seq<Seq<usize>>,
    after: Seq<Seq<usize>>,
    k: nat,
)
    requires
        before.len() == after.len(),
        k <= before.len(),
        forall|c: int| 0 <= c < before.len() ==> (#[trigger] after[c]).len() <= before[c].len(),
    ensures
        total_len_upto(after, k) <= total_len_upto(before, k),
        (exists|c: int| 0 <= c < k && (#[trigger] after[c]).len() < before[c].len())
            ==> total_len_upto(after, k) < total_len_upto(before, k),
    decreases k,
{
    if k > 0 {
        lemma_total_len_compare(before, after, (k - 1) as nat);
        if exists|c: int| 0 <= c < k && (#[trigger] after[c]).len() < before[c].len() {
            let c = choose|c: int| 0 <= c < k && (#[trigger] after[c]).len() < before[c].len();
            if c < k - 1 {
                assert(0 <= c < k - 1 && after[c].len() < before[c].len());
            }
        }
    }
}

/// Merging a pair with a positive count makes the corpus shorter.
pub proof fn lemma_merge_shortens_corpus(st: BpeState, a: usize, b: usize)
    requires
        pair_count(st, a, b) > 0,
    ensures
        total_len(apply_merge(st, a, b).chunks) < total_len(st.chunks),
{
    let m = joined_position(st, a, b) as usize;
    let after = apply_merge(st, a, b).chunks;
    let c = lemma_chunk_witness(st.chunks, a, b, st.chunks.len());
    let i = lemma_occurrence_witness(st.chunks[c], a, b, st.chunks[c].len());
    lemma_merge_shrinks(st.chunks[c], a, b, m, i);
    assert forall|k: int| 0 <= k < st.chunks.len() implies (#[trigger] after[k]).len()
        <= st.chunks[k].len() by {
        lemma_merge_len(st.chunks[k], a, b, m);
    }
    assert(0 <= c < st.chunks.len() && after[c].len() < st.chunks[c].len());
    lemma_total_len_compare(st.chunks, after, st.chunks.len());
}

/// The fragments that a corpus starts with: one for each distinct
/// character, in the order of first occurrence.
pub open spec fn initial_fragments(text: Seq<char>) -> Seq<Seq<char>>
    decreases text.len(),
{
    if text.len() == 0 {
        Seq::empty()
    } else {
        let earlier = initial_fragments(text.drop_last());
        if earlier.contains(seq![text.last()]) {
            earlier
        } else {
            earlier.push(seq![text.last()])
        }
    }
}

/// The corpus as positions in its initial fragments, one for each
/// character.
pub open spec fn initial_ids(text: Seq<char>) -> Seq<usize> {
    Seq::new(
        text.len(),
        |i: int| initial_fragments(text).index_of(seq![text[i]]) as usize,
    )
}

/// `ids` cut into chunks of `size` elements; the last chunk may be shorter.
pub open spec fn split_chunks(ids: Seq<usize>, size: nat) -> Seq<Seq<usize>>
    decreases ids.len(),
{
    if ids.len() == 0 || size == 0 {
        Seq::empty()
    } else if ids.len() <= size {
        seq![ids]
    } else {
        seq![ids.take(size as int)] + split_chunks(ids.skip(size as int), size)
    }
}

/// The part of a normalized text that training reads: its first 50,000
/// characters.
pub open spec fn training_text(normalized: Seq<char>) -> Seq<char> {
    if normalized.len() > MAX_TRAINING_CHARS {
        normalized.take(MAX_TRAINING_CHARS as int)
    } else {
        normalized
    }
}

/// The state that training starts from.
pub open spec fn initial_state(text: Seq<char>) -> BpeState {
    BpeState {
        fragments: initial_fragments(text),
        merges: Seq::empty(),
        chunks: split_chunks(initial_ids(text), CHUNK_SIZE as nat),
    }
}

/// The chunks of an executable corpus.
pub open spec fn chunks_view(chunks: Seq<Vec<usize>>) -> Seq<Seq<usize>> {
    Seq::new(chunks.len(), |k: int| chunks[k]@)
}

/// The merges of an executable merge list.
pub open spec fn merges_view(merges: Seq<(String, String)>) -> Seq<(Seq<char>, Seq<char>)> {
    Seq::new(merges.len(), |i: int| (merges[i].0@, merges[i].1@))
}

/// The codes that training gives to `fragments`.
pub open spec fn codes_of(fragments: Seq<Seq<char>>, size: nat) -> Seq<Seq<u8>> {
    Seq::new(fragments.len(), |i: int| token_code_spec(fragments[i], size))
}

/// Every element of the corpus is a position in a vocabulary of `n`
/// fragments.
spec fn ids_below(chunks: Seq<Vec<usize>>, n: nat) -> bool {
    forall|k: int, j: int|
        0 <= k < chunks.len() && 0 <= j < chunks[k].len() ==> (#[trigger] chunks[k]@[j]) < n
}

proof fn lemma_total_len_monotone(chunks: Seq<Seq<usize>>, j: nat, k: nat)
    requires
        j <= k,
    ensures
        total_len_upto(chunks, j) <= total_len_upto(chunks, k),
    decreases k,
{
    if j < k {
        lemma_total_len_monotone(chunks, j, (k - 1) as nat);
    }
}

proof fn lemma_total_len_push(chunks: Seq<Seq<usize>>, chunk: Seq<usize>, k: nat)
    requires
        k <= chunks.len(),
    ensures
        total_len_upto(chunks.push(chunk), k) == total_len_upto(chunks, k),
    decreases k,
{
    if k > 0 {
        lemma_total_len_push(chunks, chunk, (k - 1) as nat);
    }
}

/// Whether `fragment` ends with a space.
fn closes_word(fragment: &String) -> (b: bool)
    ensures
        b == ends_with_space(fragment@),
{
    let chars = chars_of(fragment.as_str());
    chars.len() > 0 && chars[chars.len() - 1] == ' '
}

/// For each fragment, whether it ends with a space.
fn word_ends(vocab: &Vocabulary) -> (flags: Vec<bool>)
    ensures
        flags.len() == vocab.fragments().len(),
        forall|i: int|
            0 <= i < flags.len() ==> #[trigger] flags@[i] == ends_with_space(vocab.fragments()[i]),
{
    let mut flags: Vec<bool> = Vec::new();
    let mut i: usize = 0;
    while i < vocab.len()
        invariant
            i <= vocab.fragments().len(),
            flags.len() == i,
            forall|j: int|
                0 <= j < i ==> #[trigger] flags@[j] == ends_with_space(vocab.fragments()[j]),
        decreases vocab.fragments().len() - i,
    {
        flags.push(closes_word(vocab.fragment_at(i)));
        i += 1;
    }
    flags
}

/// The largest number of fragments that a vocabulary can reach: every
/// character read starts at most one fragment, and every merge shortens
/// the corpus.
const MAX_FRAGMENTS: usize = 100_000;

/// The key under which the count of the pair `(a, b)` is kept.
spec fn pair_key(a: usize, b: usize) -> u64 {
    (a * 0x1_0000_0000 + b) as u64
}

/// The count kept under `key`; 0 where none is kept.
spec fn count_at(counts: Map<u64, usize>, key: u64) -> nat {
    if counts.contains_key(key) {
        counts[key] as nat
    } else {
        0
    }
}

/// The pair at position `i` of chunk `k` is no better than the pair
/// `(best_a, best_b)` with the count `best_count`: its count is not higher,
/// and where it is as high, the pair does not come earlier.
spec fn outdone(
    st: BpeState,
    k: int,
    i: int,
    best_a: usize,
    best_b: usize,
    best_count: usize,
) -> bool {
    let a = st.chunks[k][i];
    let b = st.chunks[k][i + 1];
    &&& pair_count(st, a, b) <= best_count
    &&& pair_count(st, a, b) == best_count && best_count > 0 ==> precedes(best_a, best_b, a, b)
}

/// Distinct pairs have distinct keys, and the keys are ordered as the
/// pairs are.
proof fn lemma_pair_key(a: usize, b: usize, a2: usize, b2: usize)
    requires
        a < 0x1_0000_0000,
        b < 0x1_0000_0000,
        a2 < 0x1_0000_0000,
        b2 < 0x1_0000_0000,
    ensures
        pair_key(a, b) == pair_key(a2, b2) <==> (a == a2 && b == b2),
        pair_key(a, b) <= pair_key(a2, b2) <==> precedes(a, b, a2, b2),
{
}

/// A pair with a positive count stands somewhere in the corpus.
proof fn lemma_counted_pair_occurs(st: BpeState, a: usize, b: usize) -> (at: (int, int))
    requires
        pair_count(st, a, b) > 0,
    ensures
        0 <= at.0 < st.chunks.len(),
        pair_at(st.chunks[at.0], at.1, a, b),
{
    let k = lemma_chunk_witness(st.chunks, a, b, st.chunks.len());
    let i = lemma_occurrence_witness(st.chunks[k], a, b, st.chunks[k].len());
    (k, i)
}

/// The key of the pair `(a, b)`.
fn key_of(a: usize, b: usize) -> (key: u64)
    requires
        a < 0x1_0000_0000,
        b < 0x1_0000_0000,
    ensures
        key == pair_key(a, b),
{
    a as u64 * 0x1_0000_0000 + b as u64
}

/// Counts every pair of the corpus.
fn count_pairs(chunks: &Vec<Vec<usize>>, flags: &Vec<bool>, n: usize, Ghost(st): Ghost<BpeState>) -> (counts:
    HashMap<u64, usize>)
    requires
        st.chunks == chunks_view(chunks@),
        st.fragments.len() == n,
        n <= MAX_FRAGMENTS,
        flags.len() == n,
        forall|i: int| 0 <= i < n ==> #[trigger] flags@[i] == ends_with_space(st.fragments[i]),
        ids_below(chunks@, n as nat),
        total_len(st.chunks) <= MAX_TRAINING_CHARS,
    ensures
        forall|a: usize, b: usize|
            a < n && b < n ==> #[trigger] count_at(counts@, pair_key(a, b)) == pair_count(st, a, b),
{
    let mut counts: HashMap<u64, usize> = HashMap::new();
    let mut k: usize = 0;
    while k < chunks.len()
        invariant
            k <= chunks.len(),
            st.chunks == chunks_view(chunks@),
            st.fragments.len() == n,
            n <= MAX_FRAGMENTS,
            flags.len() == n,
            forall|i: int| 0 <= i < n ==> #[trigger] flags@[i] == ends_with_space(st.fragments[i]),
            ids_below(chunks@, n as nat),
            total_len(st.chunks) <= MAX_TRAINING_CHARS,
            forall|a: usize, b: usize|
                a < n && b < n ==> #[trigger] count_at(counts@, pair_key(a, b)) == if flags@[a as int] {
                    0
                } else {
                    total_occurrences_upto(st.chunks, a, b, k as nat)
                },
            forall|key: u64| #[trigger] count_at(counts@, key) <= total_len_upto(st.chunks, k as nat),
        decreases chunks.len() - k,
    {
        let chunk = &chunks[k];
        let len = chunk.len();
        let mut i: usize = 0;
        proof {
            lemma_total_len_monotone(st.chunks, (k + 1) as nat, st.chunks.len());
            assert(st.chunks[k as int] == chunk@);
        }
        while i + 1 < len
            invariant
                k < chunks.len(),
                chunk == &chunks[k as int],
                len == chunk.len(),
                i <= len,
                st.chunks == chunks_view(chunks@),
                st.fragments.len() == n,
                n <= MAX_FRAGMENTS,
                flags.len() == n,
                forall|j: int|
                    0 <= j < n ==> #[trigger] flags@[j] == ends_with_space(st.fragments[j]),
                ids_below(chunks@, n as nat),
                total_len_upto(st.chunks, k as nat) + len <= MAX_TRAINING_CHARS,
                forall|a: usize, b: usize|
                    a < n && b < n ==> #[trigger] count_at(counts@, pair_key(a, b)) == if flags@[a as int] {
                        0
                    } else {
                        total_occurrences_upto(st.chunks, a, b, k as nat) + occurrences_upto(
                            chunk@,
                            a,
                            b,
                            i as nat,
                        )
                    },
                forall|key: u64| #[trigger]
                    count_at(counts@, key) <= total_len_upto(st.chunks, k as nat) + i,
            decreases len - i,
        {
            let x = chunk[i];
            let y = chunk[i + 1];
            proof {
                assert(chunks@[k as int]@[i as int] < n);
                assert(chunks@[k as int]@[i + 1] < n);
                assert forall|a: usize, b: usize| pair_at(chunk@, i as int, a, b) == (a == x && b
                    == y) by {}
            }
            if !flags[x] {
                let key = key_of(x, y);
                let seen = match counts.get(&key) {
                    Some(c) => *c,
                    None => 0,
                };
                let ghost old_counts = counts@;
                proof {
                    assert(seen == count_at(old_counts, key));
                }
                counts.insert(key, seen + 1);
                proof {
                    assert forall|a: usize, b: usize| a < n && b < n implies #[trigger] count_at(
                        counts@,
                        pair_key(a, b),
                    ) == count_at(old_counts, pair_key(a, b)) + if a == x && b == y {
                        1nat
                    } else {
                        0nat
                    } by {
                        lemma_pair_key(a, b, x, y);
                    }
                    assert forall|other: u64| #[trigger]
                        count_at(counts@, other) <= total_len_upto(st.chunks, k as nat) + i
                            + 1 by {
                        assert(count_at(old_counts, other) <= total_len_upto(st.chunks, k as nat)
                            + i);
                    }
                }
            }
            i += 1;
        }
        proof {
            assert forall|a: usize, b: usize|
                occurrences_upto(chunk@, a, b, i as nat) == occurrences(chunk@, a, b) by {
                if len > 0 {
                    assert(!pair_at(chunk@, len - 1, a, b));
                }
            }
        }
        k += 1;
    }
    counts
}

/// Picks the pair with the highest positive count; among equals the one
/// that comes first in the order of creation.
fn pick_best(
    chunks: &Vec<Vec<usize>>,
    flags: &Vec<bool>,
    counts: &HashMap<u64, usize>,
    n: usize,
    Ghost(st): Ghost<BpeState>,
) -> (r: Option<(usize, usize)>)
    requires
        st.chunks == chunks_view(chunks@),
        st.fragments.len() == n,
        n <= MAX_FRAGMENTS,
        flags.len() == n,
        forall|i: int| 0 <= i < n ==> #[trigger] flags@[i] == ends_with_space(st.fragments[i]),
        ids_below(chunks@, n as nat),
        forall|a: usize, b: usize|
            a < n && b < n ==> #[trigger] count_at(counts@, pair_key(a, b)) == pair_count(st, a, b),
    ensures
        r == best_pair(st),
{
    let mut best_a: usize = 0;
    let mut best_b: usize = 0;
    let mut best_count: usize = 0;
    let mut k: usize = 0;
    while k < chunks.len()
        invariant
            k <= chunks.len(),
            best_a <= MAX_FRAGMENTS,
            best_b <= MAX_FRAGMENTS,
            st.chunks == chunks_view(chunks@),
            st.fragments.len() == n,
            n <= MAX_FRAGMENTS,
            flags.len() == n,
            forall|i: int| 0 <= i < n ==> #[trigger] flags@[i] == ends_with_space(st.fragments[i]),
            ids_below(chunks@, n as nat),
            forall|a: usize, b: usize|
                a < n && b < n ==> #[trigger] count_at(counts@, pair_key(a, b)) == pair_count(
                    st,
                    a,
                    b,
                ),
            best_count > 0 ==> best_a < n && best_b < n && pair_count(st, best_a, best_b)
                == best_count,
            forall|k2: int, i2: int|
                0 <= k2 < k && 0 <= i2 && i2 + 1 < st.chunks[k2].len() ==> #[trigger] outdone(
                    st,
                    k2,
                    i2,
                    best_a,
                    best_b,
                    best_count,
                ),
        decreases chunks.len() - k,
    {
        let chunk = &chunks[k];
        let len = chunk.len();
        let pairs = if len == 0 {
            0
        } else {
            len - 1
        };
        let mut i: usize = 0;
        proof {
            assert(st.chunks[k as int] == chunk@);
        }
        while i < pairs
            invariant
                k < chunks.len(),
                chunk == &chunks[k as int],
                len == chunk.len(),
                i <= pairs,
                pairs + 1 == len || (pairs == 0 && len == 0),
                best_a <= MAX_FRAGMENTS,
                best_b <= MAX_FRAGMENTS,
                st.chunks == chunks_view(chunks@),
                st.fragments.len() == n,
                n <= MAX_FRAGMENTS,
                flags.len() == n,
                forall|j: int|
                    0 <= j < n ==> #[trigger] flags@[j] == ends_with_space(st.fragments[j]),
                ids_below(chunks@, n as nat),
                forall|a: usize, b: usize|
                    a < n && b < n ==> #[trigger] count_at(counts@, pair_key(a, b)) == pair_count(
                        st,
                        a,
                        b,
                    ),
                best_count > 0 ==> best_a < n && best_b < n && pair_count(st, best_a, best_b)
                    == best_count,
                forall|k2: int, i2: int|
                    0 <= k2 < k && 0 <= i2 && i2 + 1 < st.chunks[k2].len() ==> #[trigger] outdone(
                        st,
                        k2,
                        i2,
                        best_a,
                        best_b,
                        best_count,
                    ),
                forall|i2: int|
                    0 <= i2 < i ==> #[trigger] outdone(
                        st,
                        k as int,
                        i2,
                        best_a,
                        best_b,
                        best_count,
                    ),
            decreases pairs - i,
        {
            let x = chunk[i];
            let y = chunk[i + 1];
            let ghost old_a = best_a;
            let ghost old_b = best_b;
            let ghost old_count = best_count;
            proof {
                assert(chunks@[k as int]@[i as int] < n);
                assert(chunks@[k as int]@[i + 1] < n);
                assert(st.chunks[k as int][i as int] == x);
                assert(st.chunks[k as int][i + 1] == y);
                assert(count_at(counts@, pair_key(x, y)) == pair_count(st, x, y));
            }
            if !flags[x] {
                let key = key_of(x, y);
                let count = match counts.get(&key) {
                    Some(c) => *c,
                    None => 0,
                };
                let better = count > best_count || (count == best_count && count > 0 && key
                    < key_of(best_a, best_b));
                if better {
                    best_count = count;
                    best_a = x;
                    best_b = y;
                }
                proof {
                    lemma_pair_key(x, y, old_a, old_b);
                }
            }
            proof {
                assert(outdone(st, k as int, i as int, best_a, best_b, best_count));
                assert forall|k2: int, i2: int|
                    0 <= k2 < k && 0 <= i2 && i2 + 1 < st.chunks[k2].len() implies #[trigger] outdone(
                    st,
                    k2,
                    i2,
                    best_a,
                    best_b,
                    best_count,
                ) by {
                    assert(outdone(st, k2, i2, old_a, old_b, old_count));
                }
                assert forall|i2: int| 0 <= i2 < i + 1 implies #[trigger] outdone(
                    st,
                    k as int,
                    i2,
                    best_a,
                    best_b,
                    best_count,
                ) by {
                    if i2 < i {
                        assert(outdone(st, k as int, i2, old_a, old_b, old_count));
                    }
                }
            }
            i += 1;
        }
        k += 1;
    }
    if best_count > 0 {
        proof {
            assert forall|a2: usize, b2: usize| a2 < n && b2 < n implies {
                ||| #[trigger] pair_count(st, a2, b2) < pair_count(st, best_a, best_b)
                ||| (pair_count(st, a2, b2) == pair_count(st, best_a, best_b) && precedes(
                    best_a,
                    best_b,
                    a2,
                    b2,
                ))
            } by {
                if pair_count(st, a2, b2) > 0 {
                    let at = lemma_counted_pair_occurs(st, a2, b2);
                    assert(outdone(st, at.0, at.1, best_a, best_b, best_count));
                }
            }
            assert(is_best_pair(st, best_a, best_b));
            lemma_best_pair_unique(st, best_a, best_b);
        }
        Some((best_a, best_b))
    } else {
        proof {
            assert forall|a2: usize, b2: usize| !is_best_pair(st, a2, b2) by {
                if a2 < n && b2 < n && pair_count(st, a2, b2) > 0 {
                    let at = lemma_counted_pair_occurs(st, a2, b2);
                    assert(outdone(st, at.0, at.1, best_a, best_b, best_count));
                }
            }
            lemma_best_pair(st);
        }
        None
    }
}

/// Replaces the pair `(a, b)` by `m` throughout a chunk.
fn merge_pair(chunk: &Vec<usize>, a: usize, b: usize, m: usize, bound: usize) -> (out: Vec<usize>)
    requires
        m < bound,
        forall|j: int| 0 <= j < chunk.len() ==> chunk@[j] < bound,
    ensures
        out@ == merge_chunk(chunk@, a, b, m),
        forall|j: int| 0 <= j < out.len() ==> out@[j] < bound,
{
    let mut out: Vec<usize> = Vec::new();
    let mut i: usize = 0;
    let len = chunk.len();
    proof {
        assert(chunk@.skip(0) =~= chunk@);
    }
    while i < len
        invariant
            len == chunk.len(),
            i <= len,
            m < bound,
            forall|j: int| 0 <= j < chunk.len() ==> chunk@[j] < bound,
            forall|j: int| 0 <= j < out.len() ==> out@[j] < bound,
            out@ + merge_chunk(chunk@.skip(i as int), a, b, m) == merge_chunk(chunk@, a, b, m),
        decreases len - i,
    {
        let ghost rest = chunk@.skip(i as int);
        let ghost done = out@;
        if i + 1 < len && chunk[i] == a && chunk[i + 1] == b {
            out.push(m);
            proof {
                assert(rest.skip(2) =~= chunk@.skip(i + 2));
                assert(out@ + merge_chunk(chunk@.skip(i + 2), a, b, m) =~= done + merge_chunk(
                    rest,
                    a,
                    b,
                    m,
                ));
            }
            i += 2;
        } else {
            out.push(chunk[i]);
            proof {
                assert(rest[0] == chunk@[i as int]);
                if rest.len() >= 2 {
                    assert(rest[1] == chunk@[i + 1]);
                    assert(rest.skip(1) =~= chunk@.skip(i + 1));
                } else {
                    assert(chunk@.skip(i + 1) =~= Seq::<usize>::empty());
                    assert(rest =~= seq![chunk@[i as int]]);
                }
                assert(out@ + merge_chunk(chunk@.skip(i + 1), a, b, m) =~= done + merge_chunk(
                    rest,
                    a,
                    b,
                    m,
                ));
            }
            i += 1;
        }
    }
    proof {
        assert(chunk@.skip(len as int) =~= Seq::<usize>::empty());
        assert(out@ + Seq::<usize>::empty() =~= out@);
    }
    out
}

/// Replaces the pair `(a, b)` by `m` throughout the corpus.
fn merge_all(chunks: &Vec<Vec<usize>>, a: usize, b: usize, m: usize, bound: usize) -> (out: Vec<
    Vec<usize>,
>)
    requires
        m < bound,
        ids_below(chunks@, bound as nat),
    ensures
        chunks_view(out@) == Seq::new(
            chunks.len() as nat,
            |k: int| merge_chunk(chunks_view(chunks@)[k], a, b, m),
        ),
        ids_below(out@, bound as nat),
{
    let mut out: Vec<Vec<usize>> = Vec::new();
    let mut k: usize = 0;
    while k < chunks.len()
        invariant
            k <= chunks.len(),
            m < bound,
            ids_below(chunks@, bound as nat),
            out.len() == k,
            forall|c: int| 0 <= c < k ==> (#[trigger] out@[c])@ == merge_chunk(chunks@[c]@, a, b, m),
            ids_below(out@, bound as nat),
        decreases chunks.len() - k,
    {
        proof {
            assert forall|j: int| 0 <= j < chunks@[k as int].len() implies chunks@[k as int]@[j]
                < bound by {}
        }
        let merged = merge_pair(&chunks[k], a, b, m, bound);
        out.push(merged);
        k += 1;
    }
    proof {
        assert(chunks_view(out@) =~= Seq::new(
            chunks.len() as nat,
            |k: int| merge_chunk(chunks_view(chunks@)[k], a, b, m),
        ));
    }
    out
}

/// The state that holds an executable vocabulary, merge list and corpus.
spec fn state_of(
    vocab: &Vocabulary,
    merges: Seq<(String, String)>,
    chunks: Seq<Vec<usize>>,
) -> BpeState {
    BpeState {
        fragments: vocab.fragments(),
        merges: merges_view(merges),
        chunks: chunks_view(chunks),
    }
}

/// The state that training on a normalized text ends with.
pub open spec fn trained(normalized: Seq<char>, target: nat) -> BpeState {
    train_spec(initial_state(training_text(normalized)), target)
}

/// A target that the distinct characters already meet leaves the
/// vocabulary at exactly those characters, with no merge.
pub proof fn law_small_target_keeps_characters(normalized: Seq<char>, target: nat)
    requires
        initial_fragments(training_text(normalized)).len() >= target,
    ensures
        trained(normalized, target).fragments == initial_fragments(training_text(normalized)),
        trained(normalized, target).merges == Seq::<(Seq<char>, Seq<char>)>::empty(),
{
}

/// The vocabulary of single characters and the corpus as positions in it.
fn initial_corpus(text: &Vec<char>, limit: usize, token_byte_size: usize) -> (r: (
    Vocabulary,
    Vec<usize>,
))
    requires
        limit <= text.len(),
        token_byte_size <= 8,
    ensures
        r.0.wf(),
        r.0.fragments() == initial_fragments(text@.take(limit as int)),
        r.0.codes() == codes_of(r.0.fragments(), token_byte_size as nat),
        r.1@ == initial_ids(text@.take(limit as int)),
        forall|j: int| 0 <= j < r.1.len() ==> r.1@[j] < r.0.fragments().len(),
        r.0.fragments().len() <= limit,
{
    let mut vocab = Vocabulary::new();
    let mut ids: Vec<usize> = Vec::new();
    let mut i: usize = 0;
    proof {
        assert(text@.take(0) =~= Seq::<char>::empty());
        assert(vocab.codes() =~= codes_of(vocab.fragments(), token_byte_size as nat));
    }
    while i < limit
        invariant
            i <= limit <= text.len(),
            token_byte_size <= 8,
            vocab.wf(),
            vocab.fragments() == initial_fragments(text@.take(i as int)),
            vocab.codes() == codes_of(vocab.fragments(), token_byte_size as nat),
            vocab.fragments().len() <= i,
            ids.len() == i,
            forall|j: int|
                0 <= j < i ==> (#[trigger] ids@[j]) < vocab.fragments().len() && vocab.fragments()[ids@[j] as int]
                    == seq![text@[j]],
        decreases limit - i,
    {
        let c = text[i];
        let single = string_of_char(c);
        proof {
            let now = text@.take(i as int + 1);
            assert(now.drop_last() =~= text@.take(i as int));
            assert(now.last() == c);
        }
        match vocab.position(&single) {
            Some(id) => {
                ids.push(id);
            },
            None => {
                let code = token_code(single.as_str(), token_byte_size);
                let id = vocab.insert(single, code);
                ids.push(id);
                proof {
                    assert(vocab.codes() =~= codes_of(vocab.fragments(), token_byte_size as nat));
                }
            },
        }
        i += 1;
    }
    proof {
        let t = text@.take(limit as int);
        assert forall|j: int| 0 <= j < t.len() implies ids@[j] == #[trigger] initial_ids(t)[j] by {
            let f = seq![t[j]];
            assert(vocab.fragments()[ids@[j] as int] == f);
            let w = vocab.fragments().index_of(f);
            assert(vocab.fragments()[w] == f);
        }
        assert(ids@ =~= initial_ids(t));
    }
    (vocab, ids)
}

/// Cuts the corpus into chunks of 1024 positions.
fn split_corpus(ids: &Vec<usize>, bound: usize) -> (chunks: Vec<Vec<usize>>)
    requires
        forall|j: int| 0 <= j < ids.len() ==> ids@[j] < bound,
    ensures
        chunks_view(chunks@) == split_chunks(ids@, CHUNK_SIZE as nat),
        total_len(chunks_view(chunks@)) == ids.len(),
        ids_below(chunks@, bound as nat),
{
    let mut chunks: Vec<Vec<usize>> = Vec::new();
    let mut start: usize = 0;
    let len = ids.len();
    proof {
        assert(ids@.skip(0) =~= ids@);
        assert(chunks_view(chunks@) =~= Seq::<Seq<usize>>::empty());
        assert(chunks_view(chunks@) + split_chunks(ids@, CHUNK_SIZE as nat) =~= split_chunks(
            ids@,
            CHUNK_SIZE as nat,
        ));
    }
    while start < len
        invariant
            len == ids.len(),
            start <= len,
            forall|j: int| 0 <= j < ids.len() ==> ids@[j] < bound,
            chunks_view(chunks@) + split_chunks(ids@.skip(start as int), CHUNK_SIZE as nat)
                == split_chunks(ids@, CHUNK_SIZE as nat),
            total_len(chunks_view(chunks@)) == start,
            ids_below(chunks@, bound as nat),
        decreases len - start,
    {
        let end = if len - start > CHUNK_SIZE {
            start + CHUNK_SIZE
        } else {
            len
        };
        let mut chunk: Vec<usize> = Vec::new();
        let mut i: usize = start;
        while i < end
            invariant
                start <= i <= end <= len,
                len == ids.len(),
                chunk@ == ids@.subrange(start as int, i as int),
                forall|j: int| 0 <= j < ids.len() ==> ids@[j] < bound,
            decreases end - i,
        {
            chunk.push(ids[i]);
            proof {
                assert(chunk@ =~= ids@.subrange(start as int, i + 1));
            }
            i += 1;
        }
        let ghost before = chunks_view(chunks@);
        let ghost rest = ids@.skip(start as int);
        let ghost old_chunks = chunks@;
        chunks.push(chunk);
        proof {
            assert(chunks_view(chunks@) =~= before.push(chunk@));
            if rest.len() <= CHUNK_SIZE {
                assert(chunk@ =~= rest);
                assert(ids@.skip(end as int) =~= Seq::<usize>::empty());
                assert(before.push(chunk@) + Seq::<Seq<usize>>::empty() =~= before + seq![rest]);
            } else {
                assert(chunk@ =~= rest.take(CHUNK_SIZE as int));
                assert(rest.skip(CHUNK_SIZE as int) =~= ids@.skip(end as int));
                assert(before.push(chunk@) + split_chunks(
                    ids@.skip(end as int),
                    CHUNK_SIZE as nat,
                ) =~= before + (seq![chunk@] + split_chunks(
                    rest.skip(CHUNK_SIZE as int),
                    CHUNK_SIZE as nat,
                )));
            }
            lemma_total_len_push(before, chunk@, before.len());
            assert forall|k: int, j: int|
                0 <= k < chunks@.len() && 0 <= j < chunks@[k].len() implies (
            #[trigger] chunks@[k]@[j]) < bound by {
                if k < old_chunks.len() {
                    assert(chunks@[k] == old_chunks[k]);
                    assert(old_chunks[k]@[j] < bound);
                } else {
                    assert(chunks@[k]@[j] == ids@[start + j]);
                }
            }
        }
        start = end;
    }
    proof {
        assert(ids@.skip(len as int) =~= Seq::<usize>::empty());
        assert(chunks_view(chunks@) + Seq::<Seq<usize>>::empty() =~= chunks_view(chunks@));
    }
    chunks
}

/// Trains a vocabulary on a normalized text: the fragments with their
/// codes, and the merges in the order in which they were made.
pub fn train_vocabulary(normalized: &Vec<char>, vocab_size: usize, token_byte_size: usize) -> (r: (
    Vocabulary,
    Vec<(String, String)>,
))
    requires
        token_byte_size <= 8,
    ensures
        r.0.wf(),
        r.0.fragments() == trained(normalized@, vocab_size as nat).fragments,
        r.0.codes() == codes_of(r.0.fragments(), token_byte_size as nat),
        merges_view(r.1@) == trained(normalized@, vocab_size as nat).merges,
{
    let limit = if normalized.len() > MAX_TRAINING_CHARS {
        MAX_TRAINING_CHARS
    } else {
        normalized.len()
    };
    let ghost text = training_text(normalized@);
    proof {
        assert(normalized@.take(limit as int) =~= text);
    }
    let (mut vocab, ids) = initial_corpus(normalized, limit, token_byte_size);
    let mut chunks = split_corpus(&ids, vocab.len());
    let mut merges: Vec<(String, String)> = Vec::new();
    let mut done = false;
    let ghost target = vocab_size as nat;
    proof {
        assert(merges_view(merges@) =~= Seq::<(Seq<char>, Seq<char>)>::empty());
        assert(state_of(&vocab, merges@, chunks@) == initial_state(text));
    }
    while !done && vocab.len() < vocab_size
        invariant
            token_byte_size <= 8,
            target == vocab_size,
            vocab.wf(),
            vocab.codes() == codes_of(vocab.fragments(), token_byte_size as nat),
            ids_below(chunks@, vocab.fragments().len()),
            total_len(chunks_view(chunks@)) <= MAX_TRAINING_CHARS,
            vocab.fragments().len() + total_len(chunks_view(chunks@)) <= MAX_FRAGMENTS,
            train_spec(state_of(&vocab, merges@, chunks@), target) == train_spec(
                initial_state(text),
                target,
            ),
            done ==> best_pair(state_of(&vocab, merges@, chunks@)) is None,
        decreases
                if done {
                    0
                } else {
                    1 + total_len(chunks_view(chunks@))
                },
    {
        let ghost st = state_of(&vocab, merges@, chunks@);
        let n = vocab.len();
        let flags = word_ends(&vocab);
        let counts = count_pairs(&chunks, &flags, n, Ghost(st));
        match pick_best(&chunks, &flags, &counts, n, Ghost(st)) {
            None => {
                done = true;
            },
            Some((a, b)) => {
                proof {
                    lemma_best_pair(st);
                    lemma_merge_shortens_corpus(st, a, b);
                }
                let first = vocab.fragment_at(a).clone();
                let second = vocab.fragment_at(b).clone();
                let mut both = first.clone();
                both.append(second.as_str());
                let code = token_code(both.as_str(), token_byte_size);
                merges.push((first, second));
                let m = vocab.insert(both, code);
                proof {
                    assert forall|k: int, j: int|
                        0 <= k < chunks@.len() && 0 <= j < chunks@[k].len() implies (
                    #[trigger] chunks@[k]@[j]) < vocab.fragments().len() by {
                        assert(chunks@[k]@[j] < n);
                    }
                }
                let merged = merge_all(&chunks, a, b, m, vocab.len());
                proof {
                    let next = apply_merge(st, a, b);
                    let f = joined(st, a, b);
                    assert(both@ == f);
                    if st.fragments.contains(f) {
                        let w = st.fragments.index_of(f);
                        assert(st.fragments[w] == f);
                        assert(w == m);
                    }
                    assert(joined_position(st, a, b) == m);
                    assert(vocab.fragments() == next.fragments);
                    assert(vocab.codes() =~= codes_of(vocab.fragments(), token_byte_size as nat));
                    assert(merges_view(merges@) =~= next.merges);
                    assert(chunks_view(merged@) =~= next.chunks);
                    assert(state_of(&vocab, merges@, merged@) == next);
                    assert(train_spec(st, target) == train_spec(next, target));
                }
                chunks = merged;
            },
        }
    }
    (vocab, merges)
}

} // verus!
