//! The n-gram baselines: a unigram model of token frequencies and a bigram
//! model of transitions between neighbouring tokens.

use crate::clm::likelihoods::{
    collect_weights, distinct_tokens, even_likelihoods, lemma_distinct_tokens, lemma_sum_at_most,
    lemma_token_set_step, sum_of, token_set, unit_weight, weights_of, Likelihoods,
};
use crate::clm::token_map::{Token, TokenMap};
use crate::clm::tokenizer::token_seq;
use crate::clm::training_options::TrainingOptions;
use vstd::prelude::*;

verus! {

/// The additive smoothing of the bigram model.
pub const BIGRAM_SMOOTHING: u128 = 60;

/// How often `token` occurs in `tokens`.
pub open spec fn count_of(tokens: Seq<Seq<u8>>, token: Seq<u8>) -> nat
    decreases tokens.len(),
{
    if tokens.len() == 0 {
        0
    } else {
        count_of(tokens.drop_last(), token) + if tokens.last() == token {
            1nat
        } else {
            0nat
        }
    }
}

/// How often `prev` stands at one of the first `k` positions of `tokens`
/// with a successor.
pub open spec fn follow_count(tokens: Seq<Seq<u8>>, prev: Seq<u8>, k: nat) -> nat
    decreases k,
{
    if k == 0 {
        0
    } else {
        follow_count(tokens, prev, (k - 1) as nat) + if k < tokens.len() && tokens[k - 1] == prev {
            1nat
        } else {
            0nat
        }
    }
}

/// How often `prev` stands at one of the first `k` positions of `tokens`
/// directly before `next`.
pub open spec fn transition_count(tokens: Seq<Seq<u8>>, prev: Seq<u8>, next: Seq<u8>, k: nat) -> nat
    decreases k,
{
    if k == 0 {
        0
    } else {
        transition_count(tokens, prev, next, (k - 1) as nat) + if k < tokens.len() && tokens[k
            - 1] == prev && tokens[k as int] == next {
            1nat
        } else {
            0nat
        }
    }
}

/// The number of transitions in `tokens`.
pub open spec fn transitions_in(tokens: Seq<Seq<u8>>) -> nat {
    if tokens.len() == 0 {
        0
    } else {
        (tokens.len() - 1) as nat
    }
}

/// A token is counted at most once for each position.
pub proof fn lemma_count_of_bound(tokens: Seq<Seq<u8>>, token: Seq<u8>)
    ensures
        count_of(tokens, token) <= tokens.len(),
        tokens.contains(token) <==> count_of(tokens, token) > 0,
    decreases tokens.len(),
{
    if tokens.len() > 0 {
        lemma_count_of_bound(tokens.drop_last(), token);
        if tokens.contains(token) {
            let j = tokens.index_of(token);
            assert(tokens[j] == token);
            if j < tokens.len() - 1 {
                assert(tokens.drop_last()[j] == token);
            }
        }
        if tokens.drop_last().contains(token) {
            let j = tokens.drop_last().index_of(token);
            assert(tokens.drop_last()[j] == token);
            assert(tokens[j] == token);
        }
        if tokens.last() == token {
            assert(tokens[tokens.len() - 1] == token);
        }
    }
}

/// A transition is counted at most once for each position, and no more
/// often than its left token.
pub proof fn lemma_transition_bound(tokens: Seq<Seq<u8>>, prev: Seq<u8>, next: Seq<u8>, k: nat)
    ensures
        transition_count(tokens, prev, next, k) <= follow_count(tokens, prev, k),
        follow_count(tokens, prev, k) <= k,
    decreases k,
{
    if k > 0 {
        lemma_transition_bound(tokens, prev, next, (k - 1) as nat);
    }
}

/// Counts the occurrences of each token of `tokens`; the tokens stand in
/// the order of their first occurrence.
pub fn count_tokens(tokens: &[Token]) -> (counts: TokenMap<usize>)
    ensures
        counts.wf(),
        counts.keys() == distinct_tokens(token_seq(tokens@)),
        counts@.dom() == token_set(token_seq(tokens@)),
        forall|t: Seq<u8>|
            counts@.contains_key(t) ==> #[trigger] counts@[t] == count_of(token_seq(tokens@), t)
                && counts@[t] > 0,
{
    let ghost all = token_seq(tokens@);
    let mut counts: TokenMap<usize> = TokenMap::new();
    let mut i: usize = 0;
    proof {
        assert(all.take(0) =~= Seq::<Seq<u8>>::empty());
        assert(counts@.dom() =~= token_set(all.take(0)));
    }
    while i < tokens.len()
        invariant
            i <= tokens.len(),
            all == token_seq(tokens@),
            counts.wf(),
            counts.keys() == distinct_tokens(all.take(i as int)),
            counts@.dom() == token_set(all.take(i as int)),
            forall|t: Seq<u8>|
                counts@.contains_key(t) ==> #[trigger] counts@[t] == count_of(
                    all.take(i as int),
                    t,
                ),
        decreases tokens.len() - i,
    {
        let ghost seen = all.take(i as int);
        let ghost more = all.take(i as int + 1);
        let ghost before = counts@;
        proof {
            lemma_token_set_step(all, i as int);
            assert(more.drop_last() =~= seen);
            assert(more.last() == tokens@[i as int]@);
            lemma_count_of_bound(seen, tokens@[i as int]@);
        }
        let count = match counts.get(&tokens[i]) {
            Some(c) => *c + 1,
            None => 1,
        };
        counts.insert(tokens[i].clone(), count);
        proof {
            assert(counts@.dom() =~= token_set(more));
            assert forall|t: Seq<u8>| counts@.contains_key(t) implies #[trigger] counts@[t]
                == count_of(more, t) by {
                if t != tokens@[i as int]@ {
                    assert(before.contains_key(t));
                }
            }
        }
        i += 1;
    }
    proof {
        assert(all.take(tokens.len() as int) =~= all);
        assert forall|t: Seq<u8>| counts@.contains_key(t) implies #[trigger] counts@[t] > 0 by {
            lemma_count_of_bound(all, t);
        }
    }
    counts
}

/// A model that predicts the next token from token frequencies in the
/// training set alone.
#[derive(Debug, Clone, PartialEq, Eq)]
pub struct UnigramModel {
    token_counts: TokenMap<usize>,
    total_tokens: usize,
}

impl UnigramModel {
    /// The number of occurrences of each token of the training set.
    pub closed spec fn counts(&self) -> Map<Seq<u8>, usize> {
        self.token_counts@
    }

    /// The number of tokens in the training set.
    pub closed spec fn total(&self) -> nat {
        self.total_tokens as nat
    }

    /// The model is well formed: every token that it holds was counted at
    /// least once.
    pub closed spec fn wf(&self) -> bool {
        &&& self.token_counts.wf()
        &&& forall|t: Seq<u8>|
            self.token_counts@.contains_key(t) ==> #[trigger] self.token_counts@[t] > 0
    }

    /// The model knows every token of `all_tokens` from training.
    pub open spec fn knows_all_spec(&self, all_tokens: Seq<Seq<u8>>) -> bool {
        forall|i: int| 0 <= i < all_tokens.len() ==> self.counts().contains_key(#[trigger] all_tokens[i])
    }

    /// The weight that the model gives to `token`: its count; 1 for every
    /// token where the training set was empty.
    pub open spec fn weight_of(&self, token: Seq<u8>) -> u128 {
        if self.total() > 0 {
            self.counts()[token] as u128
        } else {
            1
        }
    }

    /// The model's weight as a function of the token.
    pub open spec fn weight_fn(&self) -> spec_fn(Seq<u8>) -> u128 {
        |t: Seq<u8>| self.weight_of(t)
    }

    /// `l` is the model's distribution over `all_tokens`: it holds the
    /// distinct tokens of `all_tokens`, each with the model's weight, over
    /// the sum of the weights.
    pub open spec fn is_prediction(&self, all_tokens: Seq<Seq<u8>>, l: &Likelihoods) -> bool {
        &&& l.weighs(all_tokens, self.weight_fn())
        &&& l.denominator() == l.weight_sum()
    }

    /// Trains a unigram model by counting token occurrences.
    pub fn train(tokens: Vec<Token>, _options: TrainingOptions) -> (model: Self)
        ensures
            model.wf(),
            model.total() == tokens.len(),
            model.counts().dom() == token_set(token_seq(tokens@)),
            forall|t: Seq<u8>|
                model.counts().contains_key(t) ==> #[trigger] model.counts()[t] == count_of(
                    token_seq(tokens@),
                    t,
                ),
    {
        let token_counts = count_tokens(tokens.as_slice());
        let total_tokens = tokens.len();
        UnigramModel { token_counts, total_tokens }
    }

    /// The number of tokens in the training set.
    pub fn total_tokens(&self) -> (n: usize)
        ensures
            n == self.total(),
    {
        self.total_tokens
    }

    /// The number of occurrences of `token` in the training set, if it
    /// occurred.
    pub fn count(&self, token: &Token) -> (r: Option<usize>)
        requires
            self.wf(),
        ensures
            match r {
                Some(c) => self.counts().contains_key(token@) && c == self.counts()[token@],
                None => !self.counts().contains_key(token@),
            },
    {
        match self.token_counts.get(token) {
            Some(c) => Some(*c),
            None => None,
        }
    }

    /// Computes the likelihood of each token of `all_tokens` from its
    /// frequency in the training set; the prefix is not looked at. Where the
    /// training set was empty every token gets the same weight. Where it
    /// was not, scoring a token that training never saw fails: the result
    /// is `None`.
    pub fn compute_likelihoods(&self, _current_text: Vec<Token>, all_tokens: &[Token]) -> (r:
        Option<Likelihoods>)
        requires
            self.wf(),
        ensures
            r is None <==> self.total() > 0 && !self.knows_all_spec(token_seq(all_tokens@)),
            match r {
                Some(l) => self.is_prediction(token_seq(all_tokens@), &l) && l.positive(),
                None => true,
            },
    {
        let ghost all = token_seq(all_tokens@);
        if self.total_tokens > 0 {
            let mut per_token: Vec<u128> = Vec::new();
            let mut i: usize = 0;
            while i < all_tokens.len()
                invariant
                    i <= all_tokens.len(),
                    all == token_seq(all_tokens@),
                    self.wf(),
                    self.total() > 0,
                    per_token.len() == i,
                    forall|j: int| 0 <= j < i ==> self.counts().contains_key(#[trigger] all[j]),
                    forall|j: int|
                        0 <= j < i ==> #[trigger] per_token@[j] == self.weight_of(all_tokens@[j]@)
                            && per_token@[j] > 0,
                decreases all_tokens.len() - i,
            {
                proof {
                    assert(all[i as int] == all_tokens@[i as int]@);
                }
                match self.token_counts.get(&all_tokens[i]) {
                    Some(count) => {
                        per_token.push(*count as u128);
                    },
                    None => {
                        proof {
                            assert(!self.counts().contains_key(all[i as int]));
                        }
                        return None;
                    },
                }
                i += 1;
            }
            proof {
                let distinct = distinct_tokens(all);
                let values = weights_of(distinct, self.weight_fn());
                lemma_distinct_tokens(all);
                lemma_sum_at_most(values, usize::MAX as nat);
                assert(values.len() * usize::MAX <= u128::MAX) by (nonlinear_arith)
                    requires
                        values.len() <= usize::MAX,
                        usize::MAX <= 0xffff_ffff_ffff_ffff,
                ;
            }
            let (weights, total) = collect_weights(all_tokens, &per_token, Ghost(self.weight_fn()));
            let l = Likelihoods::from_weights(weights, total);
            proof {
                assert forall|t: Seq<u8>| l.weights().contains_key(t) implies #[trigger] l.weights()[t]
                    > 0 by {
                    assert(all.contains(t));
                    let j = all.index_of(t);
                    assert(all[j] == t);
                    assert(self.counts().contains_key(all[j]));
                }
            }
            Some(l)
        } else {
            let l = even_likelihoods(all_tokens);
            proof {
                assert(l.weight_seq() =~= weights_of(l.tokens(), self.weight_fn()));
            }
            Some(l)
        }
    }
}

/// The number of transitions into `token` that a row holds; 0 where it
/// holds none.
spec fn row_value(row: Map<Seq<u8>, usize>, token: Seq<u8>) -> nat {
    if row.contains_key(token) {
        row[token] as nat
    } else {
        0
    }
}

/// The number of transitions that a row holds into the tokens of `tokens`.
spec fn row_sum(row: Map<Seq<u8>, usize>, tokens: Seq<Seq<u8>>) -> nat
    decreases tokens.len(),
{
    if tokens.len() == 0 {
        0
    } else {
        row_sum(row, tokens.drop_last()) + row_value(row, tokens.last())
    }
}

/// How often `token` stands in `tokens`.
spec fn hits(tokens: Seq<Seq<u8>>, token: Seq<u8>) -> nat
    decreases tokens.len(),
{
    if tokens.len() == 0 {
        0
    } else {
        hits(tokens.drop_last(), token) + if tokens.last() == token {
            1nat
        } else {
            0nat
        }
    }
}

/// How often `prev` stands at one of the first `k` positions of `stream`
/// directly before one of the tokens of `nexts`, counted for each of them.
spec fn transition_sum(stream: Seq<Seq<u8>>, prev: Seq<u8>, nexts: Seq<Seq<u8>>, k: nat) -> nat
    decreases nexts.len(),
{
    if nexts.len() == 0 {
        0
    } else {
        transition_sum(stream, prev, nexts.drop_last(), k) + transition_count(
            stream,
            prev,
            nexts.last(),
            k,
        )
    }
}

proof fn lemma_hits_none(tokens: Seq<Seq<u8>>, token: Seq<u8>)
    requires
        !tokens.contains(token),
    ensures
        hits(tokens, token) == 0,
    decreases tokens.len(),
{
    if tokens.len() > 0 {
        assert(tokens[tokens.len() - 1] != token);
        assert forall|j: int| 0 <= j < tokens.drop_last().len() implies tokens.drop_last()[j]
            != token by {
            assert(tokens[j] != token);
        }
        lemma_hits_none(tokens.drop_last(), token);
    }
}

proof fn lemma_hits_once(tokens: Seq<Seq<u8>>, token: Seq<u8>)
    requires
        tokens.no_duplicates(),
    ensures
        hits(tokens, token) <= 1,
    decreases tokens.len(),
{
    if tokens.len() > 0 {
        let shorter = tokens.drop_last();
        if tokens.last() == token {
            assert forall|j: int| 0 <= j < shorter.len() implies shorter[j] != token by {
                assert(tokens[j] != tokens[tokens.len() - 1]);
            }
            lemma_hits_none(shorter, token);
        } else {
            lemma_hits_once(shorter, token);
        }
    }
}

proof fn lemma_transition_sum_step(
    stream: Seq<Seq<u8>>,
    prev: Seq<u8>,
    nexts: Seq<Seq<u8>>,
    k: nat,
)
    requires
        k > 0,
    ensures
        transition_sum(stream, prev, nexts, k) == transition_sum(
            stream,
            prev,
            nexts,
            (k - 1) as nat,
        ) + if k < stream.len() && stream[k - 1] == prev {
            hits(nexts, stream[k as int])
        } else {
            0
        },
    decreases nexts.len(),
{
    if nexts.len() > 0 {
        lemma_transition_sum_step(stream, prev, nexts.drop_last(), k);
    }
}

/// The transitions out of a token into distinct tokens are no more than
/// the transitions out of it.
proof fn lemma_transition_sum_bound(
    stream: Seq<Seq<u8>>,
    prev: Seq<u8>,
    nexts: Seq<Seq<u8>>,
    k: nat,
)
    requires
        nexts.no_duplicates(),
    ensures
        transition_sum(stream, prev, nexts, k) <= follow_count(stream, prev, k),
    decreases k,
{
    if k == 0 {
        lemma_transition_sum_zero(stream, prev, nexts);
    } else {
        lemma_transition_sum_bound(stream, prev, nexts, (k - 1) as nat);
        lemma_transition_sum_step(stream, prev, nexts, k);
        if k < stream.len() {
            lemma_hits_once(nexts, stream[k as int]);
        }
    }
}

proof fn lemma_transition_sum_zero(stream: Seq<Seq<u8>>, prev: Seq<u8>, nexts: Seq<Seq<u8>>)
    ensures
        transition_sum(stream, prev, nexts, 0) == 0,
    decreases nexts.len(),
{
    if nexts.len() > 0 {
        lemma_transition_sum_zero(stream, prev, nexts.drop_last());
    }
}

proof fn lemma_row_sum_is_transition_sum(
    stream: Seq<Seq<u8>>,
    prev: Seq<u8>,
    row: Map<Seq<u8>, usize>,
    nexts: Seq<Seq<u8>>,
    k: nat,
)
    requires
        forall|t: Seq<u8>| row_value(row, t) == transition_count(stream, prev, t, k),
    ensures
        row_sum(row, nexts) == transition_sum(stream, prev, nexts, k),
    decreases nexts.len(),
{
    if nexts.len() > 0 {
        lemma_row_sum_is_transition_sum(stream, prev, row, nexts.drop_last(), k);
    }
}

/// Weights that exceed a row's values by at most `extra` sum to at most
/// the row's sum and `extra` for each token.
proof fn lemma_weights_over_row(
    row: Map<Seq<u8>, usize>,
    tokens: Seq<Seq<u8>>,
    weight: spec_fn(Seq<u8>) -> u128,
    extra: nat,
)
    requires
        forall|t: Seq<u8>| #[trigger] weight(t) <= row_value(row, t) + extra,
    ensures
        sum_of(weights_of(tokens, weight)) <= row_sum(row, tokens) + tokens.len() * extra,
    decreases tokens.len(),
{
    if tokens.len() > 0 {
        lemma_weights_over_row(row, tokens.drop_last(), weight, extra);
        assert(weights_of(tokens, weight).drop_last() =~= weights_of(tokens.drop_last(), weight));
        assert(weights_of(tokens, weight).last() == weight(tokens.last()));
        assert(tokens.len() * extra == (tokens.len() - 1) * extra + extra) by (nonlinear_arith);
    }
}

/// A model that predicts the next token from the token before it.
#[derive(Debug, Clone, PartialEq, Eq)]
pub struct BigramModel {
    totals: TokenMap<usize>,
    rows: Vec<TokenMap<usize>>,
}

impl BigramModel {
    /// The model is well formed: one row of successors for each left token,
    /// and in no row more transitions than the left token has in all.
    pub closed spec fn wf(&self) -> bool {
        &&& self.totals.wf()
        &&& self.rows.len() == self.totals.keys().len()
        &&& forall|j: int| 0 <= j < self.rows.len() ==> (#[trigger] self.rows@[j]).wf()
        &&& forall|j: int, s: Seq<Seq<u8>>|
            0 <= j < self.rows.len() && s.no_duplicates() ==> #[trigger] row_sum(self.rows@[j]@, s)
                <= self.totals.values()[j]
    }

    /// Whether `prev` was seen with a successor in training.
    pub closed spec fn knows(&self, prev: Seq<u8>) -> bool {
        self.totals@.contains_key(prev)
    }

    /// The number of transitions out of `prev`.
    pub closed spec fn row_total(&self, prev: Seq<u8>) -> nat {
        self.totals@[prev] as nat
    }

    /// The successors of `prev`, each with the number of transitions to it.
    pub closed spec fn row(&self, prev: Seq<u8>) -> Map<Seq<u8>, usize> {
        self.rows@[self.totals.keys().index_of(prev)]@
    }

    /// The weight that the model gives to `token` after `prefix`, where
    /// `size` tokens are scored: after a known token the number of
    /// transitions into `token` plus the smoothing, with the rounded-down
    /// share of the row's total plus one standing in for a transition
    /// never seen; 1 for every token after an unknown token or an empty
    /// prefix.
    pub open spec fn weight_of(&self, prefix: Seq<Seq<u8>>, token: Seq<u8>, size: nat) -> u128 {
        if prefix.len() > 0 && self.knows(prefix.last()) {
            let prev = prefix.last();
            if self.row(prev).contains_key(token) {
                (self.row(prev)[token] + BIGRAM_SMOOTHING) as u128
            } else {
                (self.row_total(prev) / size + 1 + BIGRAM_SMOOTHING) as u128
            }
        } else {
            1
        }
    }

    /// The model's weight after `prefix`, where `size` tokens are scored,
    /// as a function of the token.
    pub open spec fn weight_fn(&self, prefix: Seq<Seq<u8>>, size: nat) -> spec_fn(Seq<u8>) -> u128 {
        |t: Seq<u8>| self.weight_of(prefix, t, size)
    }

    /// `l` is the model's distribution over `all_tokens` after `prefix`:
    /// it holds the distinct tokens of `all_tokens`, each with the model's
    /// weight, over the sum of the weights.
    pub open spec fn is_prediction(
        &self,
        prefix: Seq<Seq<u8>>,
        all_tokens: Seq<Seq<u8>>,
        l: &Likelihoods,
    ) -> bool {
        &&& l.weighs(all_tokens, self.weight_fn(prefix, all_tokens.len()))
        &&& l.denominator() == l.weight_sum()
    }

    /// Trains a bigram model by counting the transitions between
    /// neighbouring tokens.
    pub fn train(tokens: Vec<Token>, _options: TrainingOptions) -> (model: Self)
        ensures
            model.wf(),
            forall|prev: Seq<u8>| #[trigger]
                model.knows(prev) <==> follow_count(
                    token_seq(tokens@),
                    prev,
                    transitions_in(token_seq(tokens@)),
                ) > 0,
            forall|prev: Seq<u8>|
                model.knows(prev) ==> #[trigger] model.row_total(prev) == follow_count(
                    token_seq(tokens@),
                    prev,
                    transitions_in(token_seq(tokens@)),
                ),
            forall|prev: Seq<u8>, next: Seq<u8>|
                model.knows(prev) ==> (#[trigger] model.row(prev).contains_key(next)
                    <==> transition_count(
                    token_seq(tokens@),
                    prev,
                    next,
                    transitions_in(token_seq(tokens@)),
                ) > 0),
            forall|prev: Seq<u8>, next: Seq<u8>|
                model.knows(prev) && model.row(prev).contains_key(next) ==> #[trigger] model.row(
                    prev,
                )[next] == transition_count(
                    token_seq(tokens@),
                    prev,
                    next,
                    transitions_in(token_seq(tokens@)),
                ),
    {
        let ghost all = token_seq(tokens@);
        let mut totals: TokenMap<usize> = TokenMap::new();
        let mut rows: Vec<TokenMap<usize>> = Vec::new();
        let mut i: usize = 0;
        let last = if tokens.len() == 0 {
            0
        } else {
            tokens.len() - 1
        };
        while i < last
            invariant
                i <= last,
                last == transitions_in(all),
                all.len() == tokens.len(),
                all == token_seq(tokens@),
                totals.wf(),
                rows.len() == totals.keys().len(),
                forall|j: int| 0 <= j < rows.len() ==> (#[trigger] rows@[j]).wf(),
                forall|prev: Seq<u8>| #[trigger]
                    totals@.contains_key(prev) <==> follow_count(all, prev, i as nat) > 0,
                forall|prev: Seq<u8>|
                    totals@.contains_key(prev) ==> #[trigger] totals@[prev] == follow_count(
                        all,
                        prev,
                        i as nat,
                    ),
                forall|j: int, next: Seq<u8>|
                    0 <= j < rows.len() ==> (#[trigger] rows@[j]@.contains_key(next)
                        <==> transition_count(all, totals.keys()[j], next, i as nat) > 0),
                forall|j: int, next: Seq<u8>|
                    0 <= j < rows.len() && rows@[j]@.contains_key(next) ==> #[trigger] rows@[j]@[next]
                        == transition_count(all, totals.keys()[j], next, i as nat),
            decreases last - i,
        {
            let ghost cur = all[i as int];
            let ghost nxt = all[i + 1];
            let ghost old_totals = totals;
            let ghost old_rows = rows@;
            proof {
                assert(cur == tokens@[i as int]@);
                assert(nxt == tokens@[i + 1]@);
                lemma_transition_bound(all, cur, nxt, i as nat);
                assert(old_totals@.contains_key(cur) <==> follow_count(all, cur, i as nat) > 0);
                assert(follow_count(all, cur, (i + 1) as nat) == follow_count(all, cur, i as nat)
                    + 1);
            }
            let at = match totals.position(&tokens[i]) {
                Some(j) => {
                    proof {
                        totals.lemma_entry(j as int);
                    }
                    let total = *totals.value_at(j);
                    totals.insert(tokens[i].clone(), total + 1);
                    proof {
                        assert(old_totals.keys().index_of(cur) == j) by {
                            let w = old_totals.keys().index_of(cur);
                            assert(old_totals.keys()[w] == cur);
                        }
                        assert(old_totals@.contains_key(cur));
                        assert(total == follow_count(all, cur, i as nat));
                        assert(rows@ == old_rows);
                        assert forall|next: Seq<u8>| #[trigger]
                            rows@[j as int]@.contains_key(next) <==> transition_count(
                                all,
                                cur,
                                next,
                                i as nat,
                            ) > 0 by {
                            assert(old_rows[j as int]@.contains_key(next) <==> transition_count(
                                all,
                                old_totals.keys()[j as int],
                                next,
                                i as nat,
                            ) > 0);
                        }
                    }
                    j
                },
                None => {
                    totals.insert(tokens[i].clone(), 1);
                    rows.push(TokenMap::new());
                    proof {
                        assert(!old_totals@.contains_key(cur));
                        assert(follow_count(all, cur, i as nat) == 0);
                        let fresh = rows@[rows.len() - 1];
                        assert forall|next: Seq<u8>| #[trigger]
                            fresh@.contains_key(next) <==> transition_count(
                                all,
                                cur,
                                next,
                                i as nat,
                            ) > 0 by {
                            lemma_transition_bound(all, cur, next, i as nat);
                        }
                    }
                    rows.len() - 1
                },
            };
            let ghost mid_rows = rows@;
            proof {
                assert(totals.keys()[at as int] == cur);
                assert(totals@[cur] == follow_count(all, cur, (i + 1) as nat));
                lemma_transition_bound(all, cur, nxt, i as nat);
            }
            let count = match rows[at].get(&tokens[i + 1]) {
                Some(c) => *c + 1,
                None => 1,
            };
            rows[at].insert(tokens[i + 1].clone(), count);
            proof {
                assert forall|prev: Seq<u8>| #[trigger]
                    totals@.contains_key(prev) <==> follow_count(all, prev, (i + 1) as nat)
                        > 0 by {
                    if prev != cur {
                        assert(totals@.contains_key(prev) == old_totals@.contains_key(prev));
                    }
                }
                assert forall|prev: Seq<u8>| totals@.contains_key(prev) implies #[trigger] totals@[prev]
                    == follow_count(all, prev, (i + 1) as nat) by {
                    if prev != cur {
                        assert(old_totals@.contains_key(prev));
                    }
                }
                assert forall|j: int, next: Seq<u8>| 0 <= j < rows.len() implies (
                #[trigger] rows@[j]@.contains_key(next) <==> transition_count(
                    all,
                    totals.keys()[j],
                    next,
                    (i + 1) as nat,
                ) > 0) by {
                    if j != at {
                        assert(rows@[j] == mid_rows[j]);
                        assert(totals.keys()[j] != cur) by {
                            if totals.keys()[j] == cur {
                                assert(totals.keys()[at as int] == cur);
                            }
                        }
                        if j < old_rows.len() {
                            assert(mid_rows[j] == old_rows[j]);
                            assert(totals.keys()[j] == old_totals.keys()[j]);
                        }
                    } else {
                        if next != nxt {
                            assert(rows@[j]@.contains_key(next) == mid_rows[j]@.contains_key(next));
                        }
                    }
                }
                assert forall|j: int, next: Seq<u8>|
                    0 <= j < rows.len() && rows@[j]@.contains_key(next) implies #[trigger] rows@[j]@[next]
                        == transition_count(all, totals.keys()[j], next, (i + 1) as nat) by {
                    if j != at {
                        assert(rows@[j] == mid_rows[j]);
                        assert(totals.keys()[j] != cur) by {
                            if totals.keys()[j] == cur {
                                assert(totals.keys()[at as int] == cur);
                            }
                        }
                        if j < old_rows.len() {
                            assert(mid_rows[j] == old_rows[j]);
                            assert(totals.keys()[j] == old_totals.keys()[j]);
                        }
                    } else {
                        if next != nxt {
                            assert(mid_rows[j]@.contains_key(next));
                        }
                    }
                }
            }
            i += 1;
        }
        let model = BigramModel { totals, rows };
        proof {
            assert(i == transitions_in(all));
            assert forall|j: int, s: Seq<Seq<u8>>|
                0 <= j < model.rows.len() && s.no_duplicates() implies #[trigger] row_sum(
                model.rows@[j]@,
                s,
            ) <= model.totals.values()[j] by {
                let prev = model.totals.keys()[j];
                model.totals.lemma_entry(j);
                assert forall|t: Seq<u8>| row_value(model.rows@[j]@, t) == transition_count(
                    all,
                    prev,
                    t,
                    i as nat,
                ) by {
                    assert(model.rows@[j]@.contains_key(t) <==> transition_count(
                        all,
                        model.totals.keys()[j],
                        t,
                        i as nat,
                    ) > 0);
                }
                lemma_row_sum_is_transition_sum(all, prev, model.rows@[j]@, s, i as nat);
                lemma_transition_sum_bound(all, prev, s, i as nat);
            }
            assert forall|prev: Seq<u8>, next: Seq<u8>| model.knows(prev) implies (
            #[trigger] model.row(prev).contains_key(next) <==> transition_count(
                all,
                prev,
                next,
                transitions_in(all),
            ) > 0) by {
                let j = model.totals.keys().index_of(prev);
                assert(model.totals.keys()[j] == prev);
                assert(model.rows@[j]@.contains_key(next) <==> transition_count(
                    all,
                    model.totals.keys()[j],
                    next,
                    i as nat,
                ) > 0);
            }
            assert forall|prev: Seq<u8>, next: Seq<u8>|
                model.knows(prev) && model.row(prev).contains_key(next) implies #[trigger] model.row(
                prev,
            )[next] == transition_count(all, prev, next, transitions_in(all)) by {
                let j = model.totals.keys().index_of(prev);
                assert(model.totals.keys()[j] == prev);
                assert(model.rows@[j]@[next] == transition_count(
                    all,
                    model.totals.keys()[j],
                    next,
                    i as nat,
                ));
            }
        }
        model
    }

    /// The number of transitions from `prev` to `next` seen in training;
    /// `None` where there was none.
    pub fn transition(&self, prev: &Token, next: &Token) -> (r: Option<usize>)
        requires
            self.wf(),
        ensures
            match r {
                Some(c) => self.knows(prev@) && self.row(prev@).contains_key(next@) && c
                    == self.row(prev@)[next@],
                None => !self.knows(prev@) || !self.row(prev@).contains_key(next@),
            },
    {
        match self.totals.position(prev) {
            Some(j) => {
                proof {
                    let w = self.totals.keys().index_of(prev@);
                    assert(self.totals.keys()[w] == prev@);
                }
                match self.rows[j].get(next) {
                    Some(c) => Some(*c),
                    None => None,
                }
            },
            None => None,
        }
    }

    /// Computes the likelihood of each token of `all_tokens` after the
    /// last token of `current_text`.
    pub fn compute_likelihoods(&self, current_text: Vec<Token>, all_tokens: &[Token]) -> (r:
        Likelihoods)
        requires
            self.wf(),
        ensures
            self.is_prediction(token_seq(current_text@), token_seq(all_tokens@), &r),
            r.positive(),
    {
        let ghost all = token_seq(all_tokens@);
        let ghost prefix = token_seq(current_text@);
        let ghost weight = self.weight_fn(prefix, all.len());
        let known = if current_text.len() > 0 {
            self.totals.position(&current_text[current_text.len() - 1])
        } else {
            None
        };
        proof {
            if prefix.len() > 0 {
                assert(prefix.last() == current_text@[current_text.len() - 1]@);
            }
        }
        match known {
            Some(j) => {
                let ghost prev = prefix.last();
                proof {
                    self.totals.lemma_entry(j as int);
                    let w = self.totals.keys().index_of(prev);
                    assert(self.totals.keys()[w] == prev);
                }
                let total = *self.totals.value_at(j);
                let row = &self.rows[j];
                let size = all_tokens.len();
                let mut per_token: Vec<u128> = Vec::new();
                let mut i: usize = 0;
                while i < all_tokens.len()
                    invariant
                        i <= all_tokens.len(),
                        size == all_tokens.len(),
                        all == token_seq(all_tokens@),
                        prefix == token_seq(current_text@),
                        weight == self.weight_fn(prefix, all.len()),
                        prefix.len() > 0,
                        prev == prefix.last(),
                        self.knows(prev),
                        self.row(prev) == row@,
                        row.wf(),
                        total == self.row_total(prev),
                        per_token.len() == i,
                        forall|k: int|
                            0 <= k < i ==> #[trigger] per_token@[k] == weight(all_tokens@[k]@),
                    decreases all_tokens.len() - i,
                {
                    let value: u128 = match row.get(&all_tokens[i]) {
                        Some(count) => *count as u128 + BIGRAM_SMOOTHING,
                        None => total as u128 / size as u128 + 1 + BIGRAM_SMOOTHING,
                    };
                    per_token.push(value);
                    i += 1;
                }
                proof {
                    let distinct = distinct_tokens(all);
                    let share = (total as nat) / (size as nat);
                    let extra = share + 1 + BIGRAM_SMOOTHING as nat;
                    lemma_distinct_tokens(all);
                    if size > 0 {
                        assert forall|t: Seq<u8>| #[trigger] weight(t) <= row_value(row@, t)
                            + extra by {}
                        lemma_weights_over_row(row@, distinct, weight, extra);
                        assert(row_sum(row@, distinct) <= total);
                        assert(distinct.len() * extra <= total + 61 * size) by (nonlinear_arith)
                            requires
                                distinct.len() <= size,
                                size > 0,
                                share == (total as nat) / (size as nat),
                                extra == share + 61,
                        ;
                    } else {
                        assert(distinct =~= Seq::<Seq<u8>>::empty());
                    }
                }
                let (weights, sum) = collect_weights(all_tokens, &per_token, Ghost(weight));
                let l = Likelihoods::from_weights(weights, sum);
                proof {
                    assert forall|t: Seq<u8>| l.weights().contains_key(t) implies #[trigger] l.weights()[t]
                        > 0 by {
                        assert(l.weights()[t] == weight(t));
                    }
                }
                l
            },
            None => {
                let l = even_likelihoods(all_tokens);
                proof {
                    assert(l.weight_seq() =~= weights_of(l.tokens(), weight));
                }
                l
            },
        }
    }
}

} // verus!
