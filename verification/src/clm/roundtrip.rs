//! What holds of encoding and decoding for every vocabulary and every
//! input.

use crate::clm::bpe::{
    apply_merge, best_pair, initial_fragments, lemma_best_pair, lemma_merge_shortens_corpus,
    total_len, train_spec, trained, training_text, BpeState,
};
use crate::clm::tokenizer::{
    decode_spec, decode_token, encode_from, encode_spec, reverse_map, Tokenizer,
};
use crate::clm::trie::{lemma_longest_match_covers, lemma_longest_match_is_key, longest_match_len};
use vstd::prelude::*;

verus! {

/// `code` is the code of some fragment of `vocab`.
pub open spec fn is_code_of(vocab: Map<Seq<char>, Seq<u8>>, code: Seq<u8>) -> bool {
    exists|fragment: Seq<char>| vocab.contains_key(fragment) && vocab[fragment] == code
}

/// The fragments that greedy longest-match encoding picks in
/// `input[start..]`, in order.
pub open spec fn matches_from(vocab: Map<Seq<char>, Seq<u8>>, input: Seq<char>, start: int) -> Seq<
    Seq<char>,
>
    decreases input.len() - start,
    via matches_from_terminates
{
    if start < 0 || start >= input.len() {
        Seq::empty()
    } else {
        let len = longest_match_len(vocab, input, start);
        if len == 0 {
            matches_from(vocab, input, start + 1)
        } else {
            seq![input.subrange(start, start + len)] + matches_from(vocab, input, start + len)
        }
    }
}

#[via_fn]
proof fn matches_from_terminates(vocab: Map<Seq<char>, Seq<u8>>, input: Seq<char>, start: int) {
    if 0 <= start < input.len() {
        lemma_longest_match_is_key(vocab, input, start, (input.len() - start) as nat);
    }
}

/// Every fragment that encoding picks in `input[start..]` is the fragment
/// that its code decodes to.
pub open spec fn decodes_faithfully(
    vocab: Map<Seq<char>, Seq<u8>>,
    reverse: Map<Seq<u8>, Seq<char>>,
    input: Seq<char>,
    start: int,
) -> bool {
    forall|i: int|
        0 <= i < matches_from(vocab, input, start).len() ==> decode_token(
            reverse,
            vocab[#[trigger] matches_from(vocab, input, start)[i]],
        ) == matches_from(vocab, input, start)[i]
}

/// Every code that encoding emits for `input[start..]` is the code of a
/// fragment of the vocabulary.
pub proof fn lemma_encode_from_emits_codes(
    vocab: Map<Seq<char>, Seq<u8>>,
    input: Seq<char>,
    start: int,
)
    ensures
        forall|i: int|
            0 <= i < encode_from(vocab, input, start).len() ==> is_code_of(
                vocab,
                #[trigger] encode_from(vocab, input, start)[i],
            ),
    decreases input.len() - start,
{
    if 0 <= start < input.len() {
        let len = longest_match_len(vocab, input, start);
        lemma_longest_match_is_key(vocab, input, start, (input.len() - start) as nat);
        if len == 0 {
            lemma_encode_from_emits_codes(vocab, input, start + 1);
            assert(encode_from(vocab, input, start) == encode_from(vocab, input, start + 1));
        } else {
            lemma_encode_from_emits_codes(vocab, input, start + len);
            let key = input.subrange(start, start + len);
            let rest = encode_from(vocab, input, start + len);
            let all = encode_from(vocab, input, start);
            assert(all == seq![vocab[key]] + rest);
            assert forall|i: int| 0 <= i < all.len() implies is_code_of(vocab, #[trigger] all[i]) by {
                if i == 0 {
                    assert(vocab.contains_key(key) && vocab[key] == all[0]);
                } else {
                    assert(all[i] == rest[i - 1]);
                }
            }
        }
    }
}

/// For every vocabulary and every input, every code that encoding emits
/// is the code of a fragment of the vocabulary.
pub proof fn law_encode_emits_vocabulary_codes(vocab: Map<Seq<char>, Seq<u8>>, input: Seq<char>)
    ensures
        forall|i: int|
            0 <= i < encode_spec(vocab, input).len() ==> is_code_of(
                vocab,
                #[trigger] encode_spec(vocab, input)[i],
            ),
{
    lemma_encode_from_emits_codes(vocab, input, 0);
}

/// The text of two token sequences in a row is their texts in a row.
pub proof fn lemma_decode_concat(
    reverse: Map<Seq<u8>, Seq<char>>,
    first: Seq<Seq<u8>>,
    second: Seq<Seq<u8>>,
)
    ensures
        decode_spec(reverse, first + second) == decode_spec(reverse, first) + decode_spec(
            reverse,
            second,
        ),
    decreases second.len(),
{
    if second.len() == 0 {
        assert(first + second =~= first);
        assert(decode_spec(reverse, first) + Seq::<char>::empty() =~= decode_spec(reverse, first));
    } else {
        lemma_decode_concat(reverse, first, second.drop_last());
        assert((first + second).drop_last() =~= first + second.drop_last());
        assert((first + second).last() == second.last());
        assert(decode_spec(reverse, first + second) =~= decode_spec(reverse, first) + decode_spec(
            reverse,
            second,
        ));
    }
}

proof fn lemma_decode_encode_from(
    vocab: Map<Seq<char>, Seq<u8>>,
    reverse: Map<Seq<u8>, Seq<char>>,
    input: Seq<char>,
    start: int,
)
    requires
        0 <= start <= input.len(),
        forall|i: int| start <= i < input.len() ==> vocab.contains_key(seq![#[trigger] input[i]]),
        decodes_faithfully(vocab, reverse, input, start),
    ensures
        decode_spec(reverse, encode_from(vocab, input, start)) == input.skip(start),
    decreases input.len() - start,
{
    if start == input.len() {
        assert(input.skip(start) =~= Seq::<char>::empty());
    } else {
        let limit = (input.len() - start) as nat;
        let len = longest_match_len(vocab, input, start);
        assert(input.subrange(start, start + 1) =~= seq![input[start]]);
        assert(vocab.contains_key(seq![input[start]]));
        lemma_longest_match_covers(vocab, input, start, limit, 1);
        lemma_longest_match_is_key(vocab, input, start, limit);
        let key = input.subrange(start, start + len);
        let picks = matches_from(vocab, input, start);
        let later = matches_from(vocab, input, start + len);
        assert(picks == seq![key] + later);
        assert(picks[0] == key);
        assert forall|i: int| 0 <= i < later.len() implies decode_token(
            reverse,
            vocab[#[trigger] later[i]],
        ) == later[i] by {
            assert(picks[i + 1] == later[i]);
        }
        lemma_decode_encode_from(vocab, reverse, input, start + len);
        let rest = encode_from(vocab, input, start + len);
        lemma_decode_concat(reverse, seq![vocab[key]], rest);
        let single = seq![vocab[key]];
        assert(single.drop_last() =~= Seq::<Seq<u8>>::empty());
        assert(decode_spec(reverse, Seq::<Seq<u8>>::empty()) =~= Seq::<char>::empty());
        assert(decode_spec(reverse, single) == decode_spec(reverse, single.drop_last())
            + decode_token(reverse, single.last()));
        assert(decode_spec(reverse, single) =~= decode_token(reverse, vocab[key]));
        assert(key + input.skip(start + len) =~= input.skip(start));
    }
}

/// Decoding inverts encoding: where every character of `input` is a
/// fragment of the vocabulary, and every fragment that encoding picks is
/// the one its code decodes to, the decoded encoding of `input` is `input`.
pub proof fn law_decode_inverts_encode(tokenizer: &Tokenizer, input: Seq<char>)
    requires
        tokenizer.wf(),
        forall|i: int|
            0 <= i < input.len() ==> tokenizer@.contains_key(seq![#[trigger] input[i]]),
        decodes_faithfully(tokenizer@, tokenizer.reverse(), input, 0),
    ensures
        decode_spec(tokenizer.reverse(), encode_spec(tokenizer@, input)) == input,
{
    lemma_decode_encode_from(tokenizer@, tokenizer.reverse(), input, 0);
    assert(input.skip(0) =~= input);
}

/// In a vocabulary without duplicates among its first `n` codes, each of
/// those codes decodes to its own fragment.
pub proof fn lemma_reverse_map_distinct(fragments: Seq<Seq<char>>, codes: Seq<Seq<u8>>, n: nat)
    requires
        n <= codes.len(),
        fragments.len() == codes.len(),
        codes.no_duplicates(),
    ensures
        forall|c: Seq<u8>|
            reverse_map(fragments, codes, n).contains_key(c) <==> exists|j: int|
                0 <= j < n && codes[j] == c,
        forall|j: int|
            0 <= j < n ==> reverse_map(fragments, codes, n)[#[trigger] codes[j]] == fragments[j],
    decreases n,
{
    if n > 0 {
        lemma_reverse_map_distinct(fragments, codes, (n - 1) as nat);
        let prev = reverse_map(fragments, codes, (n - 1) as nat);
        let cur = reverse_map(fragments, codes, n);
        assert(cur == prev.insert(codes[n - 1], fragments[n - 1]));
        assert forall|c: Seq<u8>| cur.contains_key(c) <==> exists|j: int|
            0 <= j < n && codes[j] == c by {
            if cur.contains_key(c) {
                if c == codes[n - 1] {
                    assert(0 <= n - 1 < n && codes[n - 1] == c);
                } else {
                    assert(prev.contains_key(c));
                    let j = choose|j: int| 0 <= j < n - 1 && codes[j] == c;
                    assert(0 <= j < n && codes[j] == c);
                }
            }
            if exists|j: int| 0 <= j < n && codes[j] == c {
                let j = choose|j: int| 0 <= j < n && codes[j] == c;
                if j < n - 1 {
                    assert(0 <= j < n - 1 && codes[j] == c);
                    assert(prev.contains_key(c));
                }
            }
        }
        assert forall|j: int| 0 <= j < n implies cur[#[trigger] codes[j]] == fragments[j] by {
            if j < n - 1 {
                assert(codes[j] != codes[n - 1]);
                assert(prev[codes[j]] == fragments[j]);
            }
        }
    }
}

/// Where no two fragments share a code, every fragment that encoding can
/// pick is the one its code decodes to.
pub proof fn lemma_distinct_codes_decode_faithfully(tokenizer: &Tokenizer, input: Seq<char>)
    requires
        tokenizer.wf(),
        tokenizer.codes().no_duplicates(),
    ensures
        decodes_faithfully(tokenizer@, tokenizer.reverse(), input, 0),
{
    tokenizer.lemma_view();
    let fragments = tokenizer.fragments();
    let codes = tokenizer.codes();
    lemma_reverse_map_distinct(fragments, codes, fragments.len());
    lemma_matches_are_keys(tokenizer@, input, 0);
    let picks = matches_from(tokenizer@, input, 0);
    assert forall|i: int| 0 <= i < picks.len() implies decode_token(
        tokenizer.reverse(),
        tokenizer@[#[trigger] picks[i]],
    ) == picks[i] by {
        let f = picks[i];
        assert(tokenizer@.contains_key(f));
        assert(fragments.contains(f));
        let j = fragments.index_of(f);
        assert(fragments[j] == f);
        assert(tokenizer@[fragments[j]] == codes[j]);
        assert(tokenizer.reverse()[codes[j]] == fragments[j]);
        assert(0 <= j < fragments.len() && codes[j] == codes[j]);
    }
}

/// Decoding inverts encoding in a vocabulary without colliding codes:
/// where no two fragments share a code and every character of `input` is
/// a fragment of the vocabulary, the decoded encoding of `input` is
/// `input`.
pub proof fn law_decode_inverts_encode_without_collisions(tokenizer: &Tokenizer, input: Seq<char>)
    requires
        tokenizer.wf(),
        tokenizer.codes().no_duplicates(),
        forall|i: int|
            0 <= i < input.len() ==> tokenizer@.contains_key(seq![#[trigger] input[i]]),
    ensures
        decode_spec(tokenizer.reverse(), encode_spec(tokenizer@, input)) == input,
{
    lemma_distinct_codes_decode_faithfully(tokenizer, input);
    law_decode_inverts_encode(tokenizer, input);
}

/// Every fragment that encoding picks is a fragment of the vocabulary.
pub proof fn lemma_matches_are_keys(vocab: Map<Seq<char>, Seq<u8>>, input: Seq<char>, start: int)
    ensures
        forall|i: int|
            0 <= i < matches_from(vocab, input, start).len() ==> vocab.contains_key(
                #[trigger] matches_from(vocab, input, start)[i],
            ),
    decreases input.len() - start,
{
    if 0 <= start < input.len() {
        let len = longest_match_len(vocab, input, start);
        lemma_longest_match_is_key(vocab, input, start, (input.len() - start) as nat);
        if len == 0 {
            lemma_matches_are_keys(vocab, input, start + 1);
            assert(matches_from(vocab, input, start) == matches_from(vocab, input, start + 1));
        } else {
            lemma_matches_are_keys(vocab, input, start + len);
            let key = input.subrange(start, start + len);
            let later = matches_from(vocab, input, start + len);
            let all = matches_from(vocab, input, start);
            assert(all == seq![key] + later);
            assert forall|i: int| 0 <= i < all.len() implies vocab.contains_key(
                #[trigger] all[i],
            ) by {
                if i > 0 {
                    assert(all[i] == later[i - 1]);
                }
            }
        }
    }
}

/// Every character of a text is among the fragments that training on it
/// starts with.
pub proof fn lemma_initial_fragments_cover(text: Seq<char>, i: int)
    requires
        0 <= i < text.len(),
    ensures
        initial_fragments(text).contains(seq![text[i]]),
    decreases text.len(),
{
    let earlier = initial_fragments(text.drop_last());
    let now = initial_fragments(text);
    if i < text.len() - 1 {
        lemma_initial_fragments_cover(text.drop_last(), i);
        let j = earlier.index_of(seq![text[i]]);
        assert(earlier[j] == seq![text[i]]);
        assert(now[j] == seq![text[i]]);
    } else {
        if earlier.contains(seq![text.last()]) {
        } else {
            assert(now[now.len() - 1] == seq![text.last()]);
        }
    }
}

/// Training never drops a fragment.
pub proof fn lemma_training_keeps_fragments(st: BpeState, target: nat, fragment: Seq<char>)
    requires
        st.fragments.contains(fragment),
    ensures
        train_spec(st, target).fragments.contains(fragment),
    decreases total_len(st.chunks),
{
    if st.fragments.len() < target {
        match best_pair(st) {
            None => {},
            Some(pair) => {
                lemma_best_pair(st);
                lemma_merge_shortens_corpus(st, pair.0, pair.1);
                let next = apply_merge(st, pair.0, pair.1);
                let j = st.fragments.index_of(fragment);
                assert(st.fragments[j] == fragment);
                assert(next.fragments[j] == fragment);
                lemma_training_keeps_fragments(next, target, fragment);
            },
        }
    }
}

/// Every character that training read is a fragment of the trained
/// vocabulary.
pub proof fn lemma_trained_covers_text(normalized: Seq<char>, target: nat, i: int)
    requires
        0 <= i < training_text(normalized).len(),
    ensures
        trained(normalized, target).fragments.contains(seq![training_text(normalized)[i]]),
{
    let text = training_text(normalized);
    lemma_initial_fragments_cover(text, i);
    lemma_training_keeps_fragments(
        crate::clm::bpe::initial_state(text),
        target,
        seq![text[i]],
    );
}

} // verus!
