//! The same inputs give the same results: what a training run or a
//! prediction returns is a function of its inputs alone.

use crate::clm::likelihoods::{unit_weight, Likelihoods};
use crate::clm::ngram_model::{BigramModel, UnigramModel};
use crate::clm::tokenizer::{encode_spec, Tokenizer};
use crate::clm::uniform_model::UniformModel;
use vstd::prelude::*;

verus! {

/// Two tokenizers with the same code size and the same earlier merges,
/// trained on the same normalized text with the same target, hold the same
/// vocabulary, the same codes and the same merges, and encode every text
/// alike.
pub proof fn law_training_is_repeatable(
    first: &Tokenizer,
    first_before: &Tokenizer,
    second: &Tokenizer,
    second_before: &Tokenizer,
    normalized: Seq<char>,
    vocab_size: nat,
    input: Seq<char>,
)
    requires
        first.trained_from(first_before, normalized, vocab_size),
        second.trained_from(second_before, normalized, vocab_size),
        first_before.code_size() == second_before.code_size(),
        first_before.merge_seq() == second_before.merge_seq(),
    ensures
        first.fragments() == second.fragments(),
        first.codes() == second.codes(),
        first.merge_seq() == second.merge_seq(),
        first@ == second@,
        first.reverse() == second.reverse(),
        encode_spec(first@, input) == encode_spec(second@, input),
{
    first.lemma_view();
    second.lemma_view();
}

/// Two distributions that weigh the same tokens by the same function hold
/// the same tokens in the same order with the same weights.
proof fn lemma_same_weights(
    first: &Likelihoods,
    second: &Likelihoods,
    all_tokens: Seq<Seq<u8>>,
    weight: spec_fn(Seq<u8>) -> u128,
)
    requires
        first.weighs(all_tokens, weight),
        second.weighs(all_tokens, weight),
    ensures
        first.tokens() == second.tokens(),
        first.weight_seq() == second.weight_seq(),
        first.weights() == second.weights(),
        first.weight_sum() == second.weight_sum(),
{
    assert(first.weights() =~= second.weights());
}

/// Two predictions of the uniform model over the same tokens are the same
/// distribution.
pub proof fn law_uniform_prediction_is_repeatable(
    all_tokens: Seq<Seq<u8>>,
    first: &Likelihoods,
    second: &Likelihoods,
)
    requires
        UniformModel::is_prediction(all_tokens, first),
        UniformModel::is_prediction(all_tokens, second),
    ensures
        first.tokens() == second.tokens(),
        first.weight_seq() == second.weight_seq(),
        first.weights() == second.weights(),
        first.denominator() == second.denominator(),
{
    lemma_same_weights(first, second, all_tokens, unit_weight());
}

/// Two predictions of a unigram model over the same tokens are the same
/// distribution, whatever the prefixes were.
pub proof fn law_unigram_prediction_is_repeatable(
    model: &UnigramModel,
    all_tokens: Seq<Seq<u8>>,
    first: &Likelihoods,
    second: &Likelihoods,
)
    requires
        model.is_prediction(all_tokens, first),
        model.is_prediction(all_tokens, second),
    ensures
        first.tokens() == second.tokens(),
        first.weight_seq() == second.weight_seq(),
        first.weights() == second.weights(),
        first.denominator() == second.denominator(),
{
    lemma_same_weights(first, second, all_tokens, model.weight_fn());
}

/// Two predictions of a bigram model after the same prefix over the same
/// tokens are the same distribution.
pub proof fn law_bigram_prediction_is_repeatable(
    model: &BigramModel,
    prefix: Seq<Seq<u8>>,
    all_tokens: Seq<Seq<u8>>,
    first: &Likelihoods,
    second: &Likelihoods,
)
    requires
        model.is_prediction(prefix, all_tokens, first),
        model.is_prediction(prefix, all_tokens, second),
    ensures
        first.tokens() == second.tokens(),
        first.weight_seq() == second.weight_seq(),
        first.weights() == second.weights(),
        first.denominator() == second.denominator(),
{
    lemma_same_weights(first, second, all_tokens, model.weight_fn(prefix, all_tokens.len()));
}

/// A bigram model looks at the last token of the prefix alone: two
/// prefixes that end alike give the same weights.
pub proof fn law_bigram_reads_last_token(
    model: &BigramModel,
    first_prefix: Seq<Seq<u8>>,
    second_prefix: Seq<Seq<u8>>,
    token: Seq<u8>,
    size: nat,
)
    requires
        first_prefix.len() > 0,
        second_prefix.len() > 0,
        first_prefix.last() == second_prefix.last(),
    ensures
        model.weight_of(first_prefix, token, size) == model.weight_of(second_prefix, token, size),
{
}

} // verus!
