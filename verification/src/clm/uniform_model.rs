//! The uniform baseline: every token is equally likely.

use crate::clm::likelihoods::{
    collect_weights, distinct_tokens, lemma_distinct_tokens, lemma_sum_of_ones, unit_weight,
    unit_weights, weights_of, Likelihoods,
};
use crate::clm::token_map::Token;
use crate::clm::tokenizer::token_seq;
use crate::clm::training_options::TrainingOptions;
use vstd::prelude::*;

verus! {

/// A model that returns a uniform distribution over all tokens.
#[derive(Debug, Clone, Copy, PartialEq, Eq)]
pub struct UniformModel {}

impl UniformModel {
    /// `l` is the uniform distribution over `all_tokens`: it holds the
    /// distinct tokens of `all_tokens`, each with the weight 1, over the
    /// length of `all_tokens`.
    pub open spec fn is_prediction(all_tokens: Seq<Seq<u8>>, l: &Likelihoods) -> bool {
        &&& l.weighs(all_tokens, unit_weight())
        &&& l.denominator() == all_tokens.len()
    }

    /// Creates a uniform model; the training data and the options are not
    /// looked at.
    pub fn train(_tokens: Vec<Token>, _options: TrainingOptions) -> (model: Self)
        ensures
            model == (UniformModel {  }),
    {
        UniformModel {  }
    }

    /// Gives every token of `all_tokens` the probability one over the
    /// length of `all_tokens`, whatever the prefix. Where no token occurs
    /// twice in `all_tokens`, the probabilities sum to one.
    pub fn compute_likelihoods(&self, _current_text: Vec<Token>, all_tokens: &[Token]) -> (r:
        Likelihoods)
        ensures
            Self::is_prediction(token_seq(all_tokens@), &r),
            r.positive(),
            token_seq(all_tokens@).no_duplicates() ==> r.weight_sum() == r.denominator(),
    {
        let ghost all = token_seq(all_tokens@);
        let ones = unit_weights(all_tokens.len());
        proof {
            lemma_distinct_tokens(all);
            lemma_sum_of_ones(weights_of(distinct_tokens(all), unit_weight()));
        }
        let (weights, _) = collect_weights(all_tokens, &ones, Ghost(unit_weight()));
        Likelihoods::from_weights(weights, all_tokens.len() as u128)
    }
}

} // verus!
