//! The byte-pair tokenizer: vocabulary, token codes, greedy longest-match
//! encoding and decoding.

use crate::clm::bpe::{codes_of, merges_view, train_vocabulary, trained, training_text};
use crate::clm::roundtrip::{
    is_code_of, law_encode_emits_vocabulary_codes, lemma_trained_covers_text,
};
use crate::clm::text::{in_alphabet, is_alphabet_text, normalize_spec, normalize_text};
pub use crate::clm::token_map::Token;
use crate::clm::token_map::TokenMap;
use crate::clm::trie::{lemma_longest_match_is_key, longest_match_len, TrieNode};
use crate::clm::vocabulary::Vocabulary;
use std::collections::hash_map::DefaultHasher;
use std::hash::Hasher;
use vstd::prelude::*;
use vstd::std_specs::hash::DefaultHasherAdditionalSpecFns;
use vstd::string::StringExecFns;
use vstd::utf8::encode_utf8;

verus! {

/// The byte strings of a sequence of tokens.
pub open spec fn token_seq(tokens: Seq<Vec<u8>>) -> Seq<Seq<u8>> {
    Seq::new(tokens.len(), |i: int| tokens[i]@)
}

/// The 64-bit digest of a fragment: the standard library's default hasher
/// fed the fragment's UTF-8 bytes and then the byte `0xff`.
pub open spec fn fragment_digest(fragment: Seq<char>) -> u64 {
    DefaultHasher::spec_finish(seq![encode_utf8(fragment), seq![0xffu8]])
}

/// Byte `i` of a digest, counted from the least significant.
pub open spec fn digest_byte(digest: u64, i: int) -> u8 {
    ((digest >> ((i * 8) as u64)) & 0xFF) as u8
}

/// The token code of a fragment: the `size` least significant bytes of its
/// digest, least significant first.
pub open spec fn token_code_spec(fragment: Seq<char>, size: nat) -> Seq<u8> {
    Seq::new(size, |i: int| digest_byte(fragment_digest(fragment), i))
}

/// The codes that greedy longest-match encoding emits for `input[start..]`:
/// at each position the code of the longest fragment of `vocab` that starts
/// there; a position where no fragment starts is skipped.
pub open spec fn encode_from(vocab: Map<Seq<char>, Seq<u8>>, input: Seq<char>, start: int) -> Seq<
    Seq<u8>,
>
    decreases input.len() - start,
    via encode_from_terminates
{
    if start < 0 || start >= input.len() {
        Seq::empty()
    } else {
        let len = longest_match_len(vocab, input, start);
        if len == 0 {
            encode_from(vocab, input, start + 1)
        } else {
            seq![vocab[input.subrange(start, start + len)]] + encode_from(
                vocab,
                input,
                start + len,
            )
        }
    }
}

#[via_fn]
proof fn encode_from_terminates(vocab: Map<Seq<char>, Seq<u8>>, input: Seq<char>, start: int) {
    if 0 <= start < input.len() {
        lemma_longest_match_is_key(vocab, input, start, (input.len() - start) as nat);
    }
}

/// The codes that greedy longest-match encoding emits for `input`.
pub open spec fn encode_spec(vocab: Map<Seq<char>, Seq<u8>>, input: Seq<char>) -> Seq<Seq<u8>> {
    encode_from(vocab, input, 0)
}

/// The map from fragment to code held by the first `n` entries of a
/// vocabulary.
pub open spec fn entries_map(fragments: Seq<Seq<char>>, codes: Seq<Seq<u8>>, n: nat) -> Map<
    Seq<char>,
    Seq<u8>,
>
    decreases n,
{
    if n == 0 {
        Map::empty()
    } else {
        entries_map(fragments, codes, (n - 1) as nat).insert(fragments[n - 1], codes[n - 1])
    }
}

/// The map from code to fragment held by the first `n` entries of a
/// vocabulary; where two fragments share a code, the later one is kept.
pub open spec fn reverse_map(fragments: Seq<Seq<char>>, codes: Seq<Seq<u8>>, n: nat) -> Map<
    Seq<u8>,
    Seq<char>,
>
    decreases n,
{
    if n == 0 {
        Map::empty()
    } else {
        reverse_map(fragments, codes, (n - 1) as nat).insert(codes[n - 1], fragments[n - 1])
    }
}

/// The map from fragment to code held by the first `n` of the given
/// entries; where a fragment occurs twice, its later code is kept.
pub open spec fn parts_map(entries: Seq<(String, Vec<u8>)>, n: nat) -> Map<Seq<char>, Seq<u8>>
    decreases n,
{
    if n == 0 {
        Map::empty()
    } else {
        parts_map(entries, (n - 1) as nat).insert(entries[n - 1].0@, entries[n - 1].1@)
    }
}

/// No fragment occurs twice among the given entries.
pub open spec fn distinct_fragments(entries: Seq<(String, Vec<u8>)>) -> bool {
    forall|i: int, j: int|
        0 <= i < j < entries.len() ==> (#[trigger] entries[i]).0@ != (#[trigger] entries[j]).0@
}

/// The text that stands for a code no fragment has: `[UNK]`.
pub open spec fn unknown_marker() -> Seq<char> {
    seq!['[', 'U', 'N', 'K', ']']
}

/// The text of one token under a map from code to fragment.
pub open spec fn decode_token(reverse: Map<Seq<u8>, Seq<char>>, token: Seq<u8>) -> Seq<char> {
    if reverse.contains_key(token) {
        reverse[token]
    } else {
        unknown_marker()
    }
}

/// The text of a token sequence: the texts of its tokens, joined.
pub open spec fn decode_spec(reverse: Map<Seq<u8>, Seq<char>>, tokens: Seq<Seq<u8>>) -> Seq<char>
    decreases tokens.len(),
{
    if tokens.len() == 0 {
        Seq::empty()
    } else {
        decode_spec(reverse, tokens.drop_last()) + decode_token(reverse, tokens.last())
    }
}

/// The text of a token sequence with a middle dot between consecutive
/// tokens.
pub open spec fn decode_delimited_spec(
    reverse: Map<Seq<u8>, Seq<char>>,
    tokens: Seq<Seq<u8>>,
) -> Seq<char>
    decreases tokens.len(),
{
    if tokens.len() == 0 {
        Seq::empty()
    } else if tokens.len() == 1 {
        decode_token(reverse, tokens.last())
    } else {
        decode_delimited_spec(reverse, tokens.drop_last()) + seq!['\u{b7}'] + decode_token(
            reverse,
            tokens.last(),
        )
    }
}

/// The first `n` entries of a well-formed vocabulary hold exactly their own
/// fragments, each with its code.
pub proof fn lemma_entries_map(fragments: Seq<Seq<char>>, codes: Seq<Seq<u8>>, n: nat)
    requires
        fragments.no_duplicates(),
        n <= fragments.len(),
        fragments.len() == codes.len(),
    ensures
        forall|f: Seq<char>|
            entries_map(fragments, codes, n).contains_key(f) <==> exists|j: int|
                0 <= j < n && fragments[j] == f,
        forall|j: int|
            0 <= j < n ==> entries_map(fragments, codes, n)[#[trigger] fragments[j]] == codes[j],
    decreases n,
{
    if n > 0 {
        lemma_entries_map(fragments, codes, (n - 1) as nat);
        let prev = entries_map(fragments, codes, (n - 1) as nat);
        let cur = entries_map(fragments, codes, n);
        assert forall|f: Seq<char>| cur.contains_key(f) <==> exists|j: int|
            0 <= j < n && fragments[j] == f by {
            if cur.contains_key(f) {
                if f == fragments[n - 1] {
                    assert(0 <= n - 1 < n && fragments[n - 1] == f);
                } else {
                    let j = choose|j: int| 0 <= j < n - 1 && fragments[j] == f;
                    assert(0 <= j < n && fragments[j] == f);
                }
            }
            if exists|j: int| 0 <= j < n && fragments[j] == f {
                let j = choose|j: int| 0 <= j < n && fragments[j] == f;
                if j < n - 1 {
                    assert(0 <= j < n - 1 && fragments[j] == f);
                }
            }
        }
    }
}

/// The entries of a well-formed vocabulary, taken together, are its map.
pub proof fn lemma_entries_map_is_view(vocab: &Vocabulary)
    requires
        vocab.wf(),
    ensures
        entries_map(vocab.fragments(), vocab.codes(), vocab.fragments().len()) == vocab@,
{
    let fragments = vocab.fragments();
    let codes = vocab.codes();
    let all = entries_map(fragments, codes, fragments.len());
    lemma_entries_map(fragments, codes, fragments.len());
    assert forall|f: Seq<char>| all.contains_key(f) == vocab@.contains_key(f) by {
        if vocab@.contains_key(f) {
            let j = fragments.index_of(f);
            assert(0 <= j < fragments.len() && fragments[j] == f);
        }
        if all.contains_key(f) {
            let j = choose|j: int| 0 <= j < fragments.len() && fragments[j] == f;
            assert(fragments.contains(f));
        }
    }
    assert forall|f: Seq<char>| all.contains_key(f) implies all[f] == vocab@[f] by {
        let j = fragments.index_of(f);
        assert(fragments[j] == f);
    }
    assert(all =~= vocab@);
}

/// A byte-pair tokenizer: a vocabulary of text fragments with their token
/// codes, and the merges that built it.
#[derive(Debug, Clone, PartialEq, Eq)]
pub struct Tokenizer {
    tokens: Vocabulary,
    merges: Vec<(String, String)>,
    vocab_size: usize,
    token_byte_size: usize,
}

impl Tokenizer {
    /// The tokenizer is well formed: its vocabulary is.
    pub closed spec fn wf(&self) -> bool {
        self.tokens.wf()
    }

    /// The vocabulary as a map from fragment to code.
    pub closed spec fn view(&self) -> Map<Seq<char>, Seq<u8>> {
        self.tokens@
    }

    /// The fragments of the vocabulary, in the order of their creation.
    pub closed spec fn fragments(&self) -> Seq<Seq<char>> {
        self.tokens.fragments()
    }

    /// The codes of the vocabulary, in the order of `fragments`.
    pub closed spec fn codes(&self) -> Seq<Seq<u8>> {
        self.tokens.codes()
    }

    /// The merges learned so far, oldest first.
    pub closed spec fn merge_seq(&self) -> Seq<(Seq<char>, Seq<char>)> {
        Seq::new(self.merges.len() as nat, |i: int| (self.merges@[i].0@, self.merges@[i].1@))
    }

    /// The vocabulary size asked for at training.
    pub closed spec fn target_size(&self) -> nat {
        self.vocab_size as nat
    }

    /// The length of every token code that training produces.
    pub closed spec fn code_size(&self) -> nat {
        self.token_byte_size as nat
    }

    /// The map from code to fragment that decoding uses.
    pub open spec fn reverse(&self) -> Map<Seq<u8>, Seq<char>> {
        reverse_map(self.fragments(), self.codes(), self.fragments().len())
    }

    /// This tokenizer is what training `before` on a normalized text with
    /// the target `vocab_size` gives: the vocabulary that byte-pair training
    /// on the text ends with, each fragment with the code of its digest,
    /// and the merges of `before` followed by those that training made.
    pub open spec fn trained_from(
        &self,
        before: &Tokenizer,
        normalized: Seq<char>,
        vocab_size: nat,
    ) -> bool {
        &&& self.wf()
        &&& self.code_size() == before.code_size()
        &&& self.target_size() == vocab_size
        &&& self.fragments() == trained(normalized, vocab_size).fragments
        &&& self.codes() == codes_of(self.fragments(), self.code_size())
        &&& self.merge_seq() == before.merge_seq() + trained(normalized, vocab_size).merges
    }

    /// The vocabulary's sequences and its map describe the same entries.
    pub proof fn lemma_view(&self)
        requires
            self.wf(),
        ensures
            self.fragments().len() == self.codes().len(),
            self.fragments().no_duplicates(),
            self@ == entries_map(self.fragments(), self.codes(), self.fragments().len()),
            forall|f: Seq<char>| self@.contains_key(f) <==> self.fragments().contains(f),
            forall|i: int|
                0 <= i < self.fragments().len() ==> self@[#[trigger] self.fragments()[i]]
                    == self.codes()[i],
    {
        lemma_entries_map_is_view(&self.tokens);
        assert forall|i: int| 0 <= i < self.fragments().len() implies self@[#[trigger] self.fragments()[i]]
            == self.codes()[i] by {
            self.tokens.lemma_entry(i);
        }
    }

    /// Creates a new, empty tokenizer whose codes will have
    /// `token_byte_size` bytes.
    pub fn new(token_byte_size: usize) -> (t: Self)
        ensures
            t.wf(),
            t@ == Map::<Seq<char>, Seq<u8>>::empty(),
            t.fragments() == Seq::<Seq<char>>::empty(),
            t.codes() == Seq::<Seq<u8>>::empty(),
            t.merge_seq() == Seq::<(Seq<char>, Seq<char>)>::empty(),
            t.target_size() == 0,
            t.code_size() == token_byte_size,
    {
        let t = Tokenizer {
            tokens: Vocabulary::new(),
            merges: Vec::new(),
            vocab_size: 0,
            token_byte_size,
        };
        proof {
            assert(t.merge_seq() =~= Seq::<(Seq<char>, Seq<char>)>::empty());
        }
        t
    }

    /// The tokenizer with the given vocabulary entries, merges and sizes.
    /// Where a fragment occurs twice among the entries, its later code is
    /// kept, at the position of its first occurrence.
    pub fn from_parts(
        entries: Vec<(String, Vec<u8>)>,
        merges: Vec<(String, String)>,
        vocab_size: usize,
        token_byte_size: usize,
    ) -> (t: Self)
        ensures
            t.wf(),
            t@ == parts_map(entries@, entries.len() as nat),
            t.merge_seq() == merges_view(merges@),
            t.target_size() == vocab_size,
            t.code_size() == token_byte_size,
            distinct_fragments(entries@) ==> {
                &&& t.fragments() == Seq::new(entries.len() as nat, |i: int| entries@[i].0@)
                &&& t.codes() == Seq::new(entries.len() as nat, |i: int| entries@[i].1@)
            },
    {
        let mut tokens = Vocabulary::new();
        let mut i: usize = 0;
        proof {
            assert(tokens.fragments() =~= Seq::new(0nat, |k: int| entries@[k].0@));
            assert(tokens.codes() =~= Seq::new(0nat, |k: int| entries@[k].1@));
        }
        while i < entries.len()
            invariant
                i <= entries.len(),
                tokens.wf(),
                tokens@ == parts_map(entries@, i as nat),
                distinct_fragments(entries@) ==> {
                    &&& tokens.fragments() == Seq::new(i as nat, |k: int| entries@[k].0@)
                    &&& tokens.codes() == Seq::new(i as nat, |k: int| entries@[k].1@)
                },
            decreases entries.len() - i,
        {
            let ghost before = tokens;
            proof {
                if distinct_fragments(entries@) {
                    if before.fragments().contains(entries@[i as int].0@) {
                        let j = before.fragments().index_of(entries@[i as int].0@);
                        assert(before.fragments()[j] == entries@[i as int].0@);
                        assert(entries@[j].0@ == entries@[i as int].0@);
                    }
                }
            }
            tokens.insert(entries[i].0.clone(), entries[i].1.clone());
            proof {
                if distinct_fragments(entries@) {
                    assert(tokens.fragments() =~= Seq::new(
                        (i + 1) as nat,
                        |k: int| entries@[k].0@,
                    ));
                    assert(tokens.codes() =~= Seq::new((i + 1) as nat, |k: int| entries@[k].1@));
                }
            }
            i += 1;
        }
        let t = Tokenizer { tokens, merges, vocab_size, token_byte_size };
        proof {
            assert(t.merge_seq() =~= merges_view(merges@));
        }
        t
    }

    /// The vocabulary size asked for at training.
    pub fn vocab_size(&self) -> (n: usize)
        ensures
            n == self.target_size(),
    {
        self.vocab_size
    }

    /// The length in bytes of the token codes.
    pub fn token_byte_size(&self) -> (n: usize)
        ensures
            n == self.code_size(),
    {
        self.token_byte_size
    }

    /// The fragments of the vocabulary, in the order of their creation.
    pub fn get_str_tokens(&self) -> (out: Vec<String>)
        ensures
            out.len() == self.fragments().len(),
            forall|i: int| 0 <= i < out.len() ==> (#[trigger] out@[i])@ == self.fragments()[i],
    {
        let mut out: Vec<String> = Vec::new();
        let mut i: usize = 0;
        while i < self.tokens.len()
            invariant
                i <= self.tokens.fragments().len(),
                out.len() == i,
                forall|j: int| 0 <= j < i ==> (#[trigger] out@[j])@ == self.tokens.fragments()[j],
            decreases self.tokens.fragments().len() - i,
        {
            out.push(self.tokens.fragment_at(i).clone());
            i += 1;
        }
        out
    }

    /// The token codes of the vocabulary, in the order of its fragments.
    pub fn get_tokens(&self) -> (out: Vec<Token>)
        ensures
            token_seq(out@) == self.codes(),
    {
        let mut out: Vec<Vec<u8>> = Vec::new();
        let mut i: usize = 0;
        while i < self.tokens.len()
            invariant
                i <= self.tokens.fragments().len(),
                out.len() == i,
                forall|j: int| 0 <= j < i ==> (#[trigger] out@[j])@ == self.tokens.codes()[j],
            decreases self.tokens.fragments().len() - i,
        {
            out.push(self.tokens.code_at(i).clone());
            i += 1;
        }
        proof {
            assert(token_seq(out@) =~= self.codes());
        }
        out
    }

    /// The merges learned so far, oldest first.
    pub fn merges(&self) -> (out: Vec<(String, String)>)
        ensures
            out.len() == self.merge_seq().len(),
            forall|i: int|
                0 <= i < out.len() ==> ((#[trigger] out@[i]).0@, out@[i].1@) == self.merge_seq()[i],
    {
        let mut out: Vec<(String, String)> = Vec::new();
        let mut i: usize = 0;
        while i < self.merges.len()
            invariant
                i <= self.merges.len(),
                out.len() == i,
                forall|j: int|
                    0 <= j < i ==> ((#[trigger] out@[j]).0@, out@[j].1@) == self.merge_seq()[j],
            decreases self.merges.len() - i,
        {
            out.push((self.merges[i].0.clone(), self.merges[i].1.clone()));
            i += 1;
        }
        out
    }

    /// Normalizes `text`: lowercase, transliterate to ASCII, keep the
    /// alphabet. A text that holds only characters of the alphabet comes
    /// back unchanged.
    pub fn normalize(&self, text: &str) -> (out: Vec<char>)
        ensures
            out@ == normalize_spec(text@),
            forall|i: int| 0 <= i < out.len() ==> in_alphabet(#[trigger] out@[i]),
            is_alphabet_text(text@) ==> out@ == text@,
    {
        normalize_text(text)
    }

    /// Computes the fixed-size byte code of a fragment from its digest.
    pub fn compute_token_code(&self, content: &str, token_byte_size: usize) -> (code: Vec<u8>)
        requires
            token_byte_size <= 8,
        ensures
            code@ == token_code_spec(content@, token_byte_size as nat),
    {
        token_code(content, token_byte_size)
    }

    /// Trains the tokenizer on an already normalized text: the vocabulary
    /// becomes the one that byte-pair training on the text's first 50,000
    /// characters ends with, and the merges made are appended to the merge
    /// list.
    pub fn train_normalized(&mut self, normalized: &Vec<char>, vocab_size: usize)
        requires
            old(self).code_size() <= 8,
        ensures
            final(self).trained_from(old(self), normalized@, vocab_size as nat),
            forall|i: int|
                0 <= i < training_text(normalized@).len() ==> final(self)@.contains_key(
                    seq![#[trigger] training_text(normalized@)[i]],
                ),
    {
        let ghost before = *self;
        self.vocab_size = vocab_size;
        let (vocab, mut merges) = train_vocabulary(normalized, vocab_size, self.token_byte_size);
        let ghost made = merges@;
        self.merges.append(&mut merges);
        self.tokens = vocab;
        proof {
            assert(self.merge_seq() =~= before.merge_seq() + merges_view(made));
            self.lemma_view();
            assert forall|i: int| 0 <= i < training_text(normalized@).len() implies self@.contains_key(
                seq![#[trigger] training_text(normalized@)[i]],
            ) by {
                lemma_trained_covers_text(normalized@, vocab_size as nat, i);
            }
        }
    }

    /// Trains the tokenizer on the given text: on its normalized form,
    /// which for a text that holds only characters of the alphabet is the
    /// text itself.
    pub fn train(&mut self, text: &str, vocab_size: usize)
        requires
            old(self).code_size() <= 8,
        ensures
            final(self).trained_from(old(self), normalize_spec(text@), vocab_size as nat),
            forall|i: int|
                0 <= i < training_text(normalize_spec(text@)).len() ==> final(self)@.contains_key(
                    seq![#[trigger] training_text(normalize_spec(text@))[i]],
                ),
            is_alphabet_text(text@) ==> final(self).trained_from(
                old(self),
                text@,
                vocab_size as nat,
            ),
            is_alphabet_text(text@) ==> forall|i: int|
                0 <= i < training_text(text@).len() ==> final(self)@.contains_key(
                    seq![#[trigger] training_text(text@)[i]],
                ),
    {
        let normalized_text = normalize_text(text);
        self.train_normalized(&normalized_text, vocab_size);
    }

    /// The prefix tree of the vocabulary.
    fn build_trie(&self) -> (root: TrieNode)
        requires
            self.wf(),
        ensures
            root@ == self@,
    {
        let mut root = TrieNode::new();
        let mut i: usize = 0;
        while i < self.tokens.len()
            invariant
                i <= self.tokens.fragments().len(),
                root@ == entries_map(self.tokens.fragments(), self.tokens.codes(), i as nat),
            decreases self.tokens.fragments().len() - i,
        {
            root.insert(self.tokens.fragment_at(i).as_str(), self.tokens.code_at(i).clone());
            i += 1;
        }
        proof {
            lemma_entries_map_is_view(&self.tokens);
        }
        root
    }

    /// Encodes an already normalized text by greedy longest match.
    pub fn encode_normalized(&self, normalized: &Vec<char>) -> (out: Vec<Token>)
        requires
            self.wf(),
        ensures
            token_seq(out@) == encode_spec(self@, normalized@),
            forall|i: int| 0 <= i < out.len() ==> is_code_of(self@, (#[trigger] out@[i])@),
    {
        proof {
            law_encode_emits_vocabulary_codes(self@, normalized@);
        }
        let root = self.build_trie();
        let n = normalized.len();
        let mut output: Vec<Vec<u8>> = Vec::new();
        let mut i: usize = 0;
        proof {
            assert(token_seq(output@) =~= Seq::<Seq<u8>>::empty());
            assert(token_seq(output@) + encode_from(self@, normalized@, 0) =~= encode_spec(
                self@,
                normalized@,
            ));
        }
        while i < n
            invariant
                n == normalized.len(),
                i <= n,
                root@ == self@,
                token_seq(output@) + encode_from(self@, normalized@, i as int) == encode_spec(
                    self@,
                    normalized@,
                ),
            decreases n - i,
        {
            let ghost before = token_seq(output@);
            let ghost rest = encode_from(self@, normalized@, i as int);
            match root.longest_match(normalized, i) {
                Some((len, code)) => {
                    output.push(code.clone());
                    proof {
                        let next = encode_from(self@, normalized@, i + len);
                        assert(rest == seq![code@] + next);
                        assert(token_seq(output@) =~= before + seq![code@]);
                        assert(token_seq(output@) + next =~= before + rest);
                    }
                    i += len;
                },
                None => {
                    i += 1;
                },
            }
        }
        proof {
            assert(token_seq(output@) + Seq::<Seq<u8>>::empty() =~= token_seq(output@));
            assert forall|k: int| 0 <= k < output.len() implies is_code_of(
                self@,
                (#[trigger] output@[k])@,
            ) by {
                assert(output@[k]@ == token_seq(output@)[k]);
                assert(is_code_of(self@, encode_spec(self@, normalized@)[k]));
            }
        }
        output
    }

    /// Normalizes `text` and encodes it by greedy longest match; a text
    /// that holds only characters of the alphabet is encoded as it stands.
    /// `silent` is accepted for callers that report progress; it does not
    /// change the result.
    pub fn encode_fast_opt(&self, text: String, silent: bool) -> (out: Vec<Token>)
        requires
            self.wf(),
        ensures
            token_seq(out@) == encode_spec(self@, normalize_spec(text@)),
            forall|i: int| 0 <= i < out.len() ==> is_code_of(self@, (#[trigger] out@[i])@),
            is_alphabet_text(text@) ==> token_seq(out@) == encode_spec(self@, text@),
    {
        let normalized = normalize_text(text.as_str());
        self.encode_normalized(&normalized)
    }

    /// Normalizes `text` and encodes it by greedy longest match; a text
    /// that holds only characters of the alphabet is encoded as it stands.
    pub fn encode_fast(&self, text: String) -> (out: Vec<Token>)
        requires
            self.wf(),
        ensures
            token_seq(out@) == encode_spec(self@, normalize_spec(text@)),
            forall|i: int| 0 <= i < out.len() ==> is_code_of(self@, (#[trigger] out@[i])@),
            is_alphabet_text(text@) ==> token_seq(out@) == encode_spec(self@, text@),
    {
        self.encode_fast_opt(text, false)
    }

    /// The table from code to fragment; where two fragments share a code,
    /// the one created later is kept.
    pub fn build_reverse_map(&self) -> (r: TokenMap<String>)
        requires
            self.wf(),
        ensures
            r.wf(),
            r@.dom() == self.reverse().dom(),
            forall|code: Seq<u8>| #[trigger]
                self.reverse().contains_key(code) ==> r@[code]@ == self.reverse()[code],
    {
        let mut reverse_tokens: TokenMap<String> = TokenMap::new();
        let mut i: usize = 0;
        while i < self.tokens.len()
            invariant
                i <= self.tokens.fragments().len(),
                reverse_tokens.wf(),
                reverse_tokens@.dom() == reverse_map(
                    self.tokens.fragments(),
                    self.tokens.codes(),
                    i as nat,
                ).dom(),
                forall|code: Seq<u8>| #[trigger]
                    reverse_tokens@.contains_key(code) ==> reverse_tokens@[code]@ == reverse_map(
                        self.tokens.fragments(),
                        self.tokens.codes(),
                        i as nat,
                    )[code],
            decreases self.tokens.fragments().len() - i,
        {
            reverse_tokens.insert(self.tokens.code_at(i).clone(), self.tokens.fragment_at(i).clone());
            proof {
                let spec_after = reverse_map(
                    self.tokens.fragments(),
                    self.tokens.codes(),
                    (i + 1) as nat,
                );
                assert(reverse_tokens@.dom() =~= spec_after.dom());
            }
            i += 1;
        }
        reverse_tokens
    }

    /// Decodes a sequence of token codes back into text; a code that no
    /// fragment has is rendered as `[UNK]`.
    pub fn decode(&self, tokens: &[Token]) -> (text: String)
        requires
            self.wf(),
        ensures
            text@ == decode_spec(self.reverse(), token_seq(tokens@)),
    {
        let mut text = String::new();
        let reverse_tokens = self.build_reverse_map();
        let mut i: usize = 0;
        proof {
            assert(token_seq(tokens@).take(0) =~= Seq::<Seq<u8>>::empty());
        }
        while i < tokens.len()
            invariant
                i <= tokens.len(),
                reverse_tokens.wf(),
                reverse_tokens@.dom() == self.reverse().dom(),
                forall|code: Seq<u8>| #[trigger]
                    self.reverse().contains_key(code) ==> reverse_tokens@[code]@
                        == self.reverse()[code],
                text@ == decode_spec(self.reverse(), token_seq(tokens@).take(i as int)),
            decreases tokens.len() - i,
        {
            proof {
                let next = token_seq(tokens@).take(i as int + 1);
                assert(next.drop_last() =~= token_seq(tokens@).take(i as int));
                assert(next.last() == tokens@[i as int]@);
                assert(reverse_tokens@.contains_key(tokens@[i as int]@)
                    == self.reverse().contains_key(tokens@[i as int]@));
            }
            match reverse_tokens.get(&tokens[i]) {
                Some(content) => {
                    text.append(content.as_str());
                },
                None => {
                    proof {
                        reveal_strlit("[UNK]");
                        assert("[UNK]"@ =~= unknown_marker());
                    }
                    text.append("[UNK]");
                },
            }
            i += 1;
        }
        proof {
            assert(token_seq(tokens@).take(tokens.len() as int) =~= token_seq(tokens@));
        }
        text
    }

    /// Decodes like `decode`, with a middle dot between consecutive tokens.
    pub fn decode_with_delimiters(&self, tokens: &[Token]) -> (text: String)
        requires
            self.wf(),
        ensures
            text@ == decode_delimited_spec(self.reverse(), token_seq(tokens@)),
    {
        let mut text = String::new();
        let reverse_tokens = self.build_reverse_map();
        let mut i: usize = 0;
        proof {
            assert(token_seq(tokens@).take(0) =~= Seq::<Seq<u8>>::empty());
        }
        while i < tokens.len()
            invariant
                i <= tokens.len(),
                reverse_tokens.wf(),
                reverse_tokens@.dom() == self.reverse().dom(),
                forall|code: Seq<u8>| #[trigger]
                    self.reverse().contains_key(code) ==> reverse_tokens@[code]@
                        == self.reverse()[code],
                text@ == decode_delimited_spec(self.reverse(), token_seq(tokens@).take(i as int)),
            decreases tokens.len() - i,
        {
            proof {
                let next = token_seq(tokens@).take(i as int + 1);
                assert(next.drop_last() =~= token_seq(tokens@).take(i as int));
                assert(next.last() == tokens@[i as int]@);
                assert(reverse_tokens@.contains_key(tokens@[i as int]@)
                    == self.reverse().contains_key(tokens@[i as int]@));
            }
            if i > 0 {
                proof {
                    reveal_strlit("\u{b7}");
                    assert("\u{b7}"@ =~= seq!['\u{b7}']);
                }
                text.append("\u{b7}");
            }
            match reverse_tokens.get(&tokens[i]) {
                Some(content) => {
                    text.append(content.as_str());
                },
                None => {
                    proof {
                        reveal_strlit("[UNK]");
                        assert("[UNK]"@ =~= unknown_marker());
                    }
                    text.append("[UNK]");
                },
            }
            i += 1;
        }
        proof {
            assert(token_seq(tokens@).take(tokens.len() as int) =~= token_seq(tokens@));
        }
        text
    }
}

impl Default for Tokenizer {
    /// An empty tokenizer with codes of eight bytes.
    fn default() -> (t: Self)
        ensures
            t.wf(),
            t@ == Map::<Seq<char>, Seq<u8>>::empty(),
            t.fragments() == Seq::<Seq<char>>::empty(),
            t.merge_seq() == Seq::<(Seq<char>, Seq<char>)>::empty(),
            t.target_size() == 0,
            t.code_size() == 8,
    {
        Tokenizer::new(8)
    }
}

/// The digest of a fragment.
pub fn fragment_hash(content: &str) -> (hash: u64)
    ensures
        hash == fragment_digest(content@),
{
    let mut hasher = DefaultHasher::new();
    hasher.write(content.as_bytes());
    let marker: Vec<u8> = vec![0xffu8];
    proof {
        assert(marker@ =~= seq![0xffu8]);
    }
    hasher.write(marker.as_slice());
    proof {
        assert(hasher@ =~= seq![encode_utf8(content@), seq![0xffu8]]);
    }
    hasher.finish()
}

/// The token code of a fragment: the `token_byte_size` least significant
/// bytes of its digest.
pub fn token_code(content: &str, token_byte_size: usize) -> (code: Vec<u8>)
    requires
        token_byte_size <= 8,
    ensures
        code@ == token_code_spec(content@, token_byte_size as nat),
{
    let hash = fragment_hash(content);
    let mut code: Vec<u8> = Vec::with_capacity(token_byte_size);
    let mut i: usize = 0;
    while i < token_byte_size
        invariant
            i <= token_byte_size <= 8,
            code.len() == i,
            forall|j: int| 0 <= j < i ==> code@[j] == digest_byte(hash, j),
        decreases token_byte_size - i,
    {
        let byte = ((hash >> (i as u64 * 8)) & 0xFF) as u8;
        code.push(byte);
        i += 1;
    }
    proof {
        assert(code@ =~= token_code_spec(content@, token_byte_size as nat));
    }
    code
}

} // verus!
