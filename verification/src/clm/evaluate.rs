//! The integer side of evaluation: which positions of a test stream are
//! scored, with which prefix, against which token.

use crate::clm::error::ClmError;
use crate::clm::likelihoods::Likelihoods;
use crate::clm::token_map::Token;
use crate::clm::tokenizer::token_seq;
use vstd::prelude::*;

verus! {

/// The number of tokens at the start of a test stream that are not scored.
pub const WARMUP_TOKENS: usize = 32;

/// One scored position: the prefix handed to the model and the token that
/// follows in truth.
#[derive(Debug, Clone, PartialEq, Eq)]
pub struct EvaluationCase {
    /// The tokens handed to the model.
    pub prefix: Vec<Token>,
    /// The token that the model should have predicted.
    pub truth: Token,
}

/// The number of scored positions of a stream of `n_tokens` tokens.
pub open spec fn scored_positions_spec(n_tokens: nat) -> nat {
    if n_tokens > WARMUP_TOKENS {
        (n_tokens - WARMUP_TOKENS) as nat
    } else {
        0
    }
}

/// The number of scored positions of a stream of `n_tokens` tokens: every
/// position from the 33rd token on.
pub fn scored_positions(n_tokens: usize) -> (n: usize)
    ensures
        n == scored_positions_spec(n_tokens as nat),
{
    if n_tokens > WARMUP_TOKENS {
        n_tokens - WARMUP_TOKENS
    } else {
        0
    }
}

/// The case scored at position `pos`: the prefix is the stream before
/// position `pos - 1`, the truth is the token at `pos`. Positions before
/// the 33rd token and behind the stream have no case.
pub fn evaluation_case(tokens: &[Token], pos: usize) -> (r: Option<EvaluationCase>)
    ensures
        r is Some <==> WARMUP_TOKENS <= pos < tokens.len(),
        match r {
            Some(case) => {
                &&& token_seq(case.prefix@) == token_seq(tokens@).take(pos - 1)
                &&& case.truth@ == tokens@[pos as int]@
            },
            None => true,
        },
{
    if pos < WARMUP_TOKENS || pos >= tokens.len() {
        return None;
    }
    let mut prefix: Vec<Token> = Vec::new();
    let mut i: usize = 0;
    while i < pos - 1
        invariant
            WARMUP_TOKENS <= pos < tokens.len(),
            i <= pos - 1,
            prefix.len() == i,
            forall|j: int| 0 <= j < i ==> (#[trigger] prefix@[j])@ == tokens@[j]@,
        decreases pos - 1 - i,
    {
        prefix.push(tokens[i].clone());
        i += 1;
    }
    proof {
        assert(token_seq(prefix@) =~= token_seq(tokens@).take(pos - 1));
    }
    Some(EvaluationCase { prefix, truth: tokens[pos].clone() })
}

/// The weight that a distribution gives to the ground-truth token. A
/// distribution that lacks the token violates the model's contract.
pub fn ground_truth_weight(likelihoods: &Likelihoods, truth: &Token) -> (r: Result<u128, ClmError>)
    requires
        likelihoods.wf(),
    ensures
        match r {
            Ok(w) => likelihoods.weights().contains_key(truth@) && w == likelihoods.weights()[truth@],
            Err(e) => e == ClmError::DistributionViolation && !likelihoods.weights().contains_key(
                truth@,
            ),
        },
{
    match likelihoods.get(truth) {
        Some(w) => Ok(w),
        None => Err(ClmError::DistributionViolation),
    }
}

} // verus!
