//! A distribution over tokens as exact fractions.

use crate::clm::token_map::{Token, TokenMap};
use crate::clm::tokenizer::token_seq;
use vstd::prelude::*;

verus! {

/// A distribution over tokens as exact fractions: the probability of a
/// token is its weight divided by the distribution's denominator. The
/// tokens stand in the order in which they were first scored.
#[derive(Debug, Clone, PartialEq, Eq)]
pub struct Likelihoods {
    weights: TokenMap<u128>,
    denominator: u128,
}

/// The sum of `values`.
pub open spec fn sum_of(values: Seq<u128>) -> nat
    decreases values.len(),
{
    if values.len() == 0 {
        0
    } else {
        sum_of(values.drop_last()) + values.last() as nat
    }
}

/// The set of the tokens of a sequence.
pub open spec fn token_set(tokens: Seq<Seq<u8>>) -> Set<Seq<u8>> {
    Set::new(|t: Seq<u8>| tokens.contains(t))
}

/// The tokens among the first `i + 1` are those among the first `i` and
/// the one at `i`.
pub proof fn lemma_token_set_step(tokens: Seq<Seq<u8>>, i: int)
    requires
        0 <= i < tokens.len(),
    ensures
        token_set(tokens.take(i + 1)) == token_set(tokens.take(i)).insert(tokens[i]),
{
    let more = tokens.take(i + 1);
    let less = tokens.take(i);
    assert forall|t: Seq<u8>| more.contains(t) <==> (less.contains(t) || t == tokens[i]) by {
        if more.contains(t) {
            let j = more.index_of(t);
            assert(more[j] == t);
            if j < i {
                assert(less[j] == t);
            }
        }
        if less.contains(t) {
            let j = less.index_of(t);
            assert(less[j] == t);
            assert(more[j] == t);
        }
        if t == tokens[i] {
            assert(more[i] == t);
        }
    }
    assert(token_set(more) =~= token_set(less).insert(tokens[i]));
}

/// The tokens of a sequence without repetition, in the order of their
/// first occurrence.
pub open spec fn distinct_tokens(tokens: Seq<Seq<u8>>) -> Seq<Seq<u8>>
    decreases tokens.len(),
{
    if tokens.len() == 0 {
        Seq::empty()
    } else {
        let earlier = distinct_tokens(tokens.drop_last());
        if earlier.contains(tokens.last()) {
            earlier
        } else {
            earlier.push(tokens.last())
        }
    }
}

/// The weights that `weight` gives to `tokens`, in their order.
pub open spec fn weights_of(tokens: Seq<Seq<u8>>, weight: spec_fn(Seq<u8>) -> u128) -> Seq<u128> {
    Seq::new(tokens.len(), |i: int| weight(tokens[i]))
}

/// The distinct tokens of a sequence are its tokens, each once.
pub proof fn lemma_distinct_tokens(tokens: Seq<Seq<u8>>)
    ensures
        distinct_tokens(tokens).no_duplicates(),
        distinct_tokens(tokens).len() <= tokens.len(),
        forall|t: Seq<u8>| distinct_tokens(tokens).contains(t) <==> tokens.contains(t),
        token_set(distinct_tokens(tokens)) == token_set(tokens),
        tokens.no_duplicates() ==> distinct_tokens(tokens) == tokens,
    decreases tokens.len(),
{
    let all = distinct_tokens(tokens);
    if tokens.len() > 0 {
        let shorter = tokens.drop_last();
        let earlier = distinct_tokens(shorter);
        lemma_distinct_tokens(shorter);
        assert forall|t: Seq<u8>| all.contains(t) <==> tokens.contains(t) by {
            if all.contains(t) {
                let j = all.index_of(t);
                assert(all[j] == t);
                if j < earlier.len() {
                    assert(earlier[j] == t);
                    assert(earlier.contains(t));
                    assert(shorter.contains(t));
                    let m = shorter.index_of(t);
                    assert(shorter[m] == t);
                    assert(tokens[m] == t);
                } else {
                    assert(tokens[tokens.len() - 1] == t);
                }
            }
            if tokens.contains(t) {
                let m = tokens.index_of(t);
                assert(tokens[m] == t);
                if m < shorter.len() {
                    assert(shorter[m] == t);
                    assert(shorter.contains(t));
                    assert(earlier.contains(t));
                    let j = earlier.index_of(t);
                    assert(earlier[j] == t);
                    assert(all[j] == t);
                } else if earlier.contains(t) {
                    let j = earlier.index_of(t);
                    assert(earlier[j] == t);
                    assert(all[j] == t);
                } else {
                    assert(all[all.len() - 1] == t);
                }
            }
        }
        if tokens.no_duplicates() {
            assert(shorter.no_duplicates());
            if earlier.contains(tokens.last()) {
                let m = shorter.index_of(tokens.last());
                assert(shorter[m] == tokens.last());
                assert(tokens[m] == tokens[tokens.len() - 1]);
            }
            assert(all =~= tokens);
        }
    }
    assert(token_set(all) =~= token_set(tokens));
}

/// The distinct tokens of a part of a sequence stand at the front of the
/// distinct tokens of the whole.
pub proof fn lemma_distinct_tokens_prefix(tokens: Seq<Seq<u8>>, i: int)
    requires
        0 <= i <= tokens.len(),
    ensures
        distinct_tokens(tokens.take(i)).len() <= distinct_tokens(tokens).len(),
        distinct_tokens(tokens.take(i)) == distinct_tokens(tokens).take(
            distinct_tokens(tokens.take(i)).len() as int,
        ),
    decreases tokens.len(),
{
    if i == tokens.len() {
        assert(tokens.take(i) =~= tokens);
        assert(distinct_tokens(tokens).take(distinct_tokens(tokens).len() as int)
            =~= distinct_tokens(tokens));
    } else {
        let shorter = tokens.drop_last();
        lemma_distinct_tokens_prefix(shorter, i);
        assert(shorter.take(i) =~= tokens.take(i));
        let part = distinct_tokens(tokens.take(i));
        assert(part =~= distinct_tokens(tokens).take(part.len() as int));
    }
}

/// The sum of a front part of a sequence is at most the sum of the whole.
pub proof fn lemma_sum_prefix(values: Seq<u128>, k: int)
    requires
        0 <= k <= values.len(),
    ensures
        sum_of(values.take(k)) <= sum_of(values),
    decreases values.len(),
{
    if k == values.len() {
        assert(values.take(k) =~= values);
    } else {
        lemma_sum_prefix(values.drop_last(), k);
        assert(values.drop_last().take(k) =~= values.take(k));
    }
}

/// A sequence of values that are each at most `bound` sums to at most its
/// length times `bound`.
pub proof fn lemma_sum_at_most(values: Seq<u128>, bound: nat)
    requires
        forall|i: int| 0 <= i < values.len() ==> values[i] <= bound,
    ensures
        sum_of(values) <= values.len() * bound,
    decreases values.len(),
{
    if values.len() > 0 {
        lemma_sum_at_most(values.drop_last(), bound);
        assert(values.len() * bound == (values.len() - 1) * bound + bound) by (nonlinear_arith);
    }
}

/// A sequence of ones sums to its length.
pub proof fn lemma_sum_of_ones(values: Seq<u128>)
    requires
        forall|i: int| 0 <= i < values.len() ==> values[i] == 1,
    ensures
        sum_of(values) == values.len(),
    decreases values.len(),
{
    if values.len() > 0 {
        lemma_sum_of_ones(values.drop_last());
    }
}

/// No value exceeds the sum of all values.
pub proof fn lemma_sum_bounds(values: Seq<u128>, i: int)
    requires
        0 <= i < values.len(),
    ensures
        values[i] <= sum_of(values),
    decreases values.len(),
{
    if i < values.len() - 1 {
        lemma_sum_bounds(values.drop_last(), i);
    }
}

impl Likelihoods {
    /// The weight of each token of the distribution.
    pub closed spec fn weights(&self) -> Map<Seq<u8>, u128> {
        self.weights@
    }

    /// The tokens of the distribution, in the order in which they were
    /// first scored.
    pub closed spec fn tokens(&self) -> Seq<Seq<u8>> {
        self.weights.keys()
    }

    /// The weights, in the order of `tokens`.
    pub closed spec fn weight_seq(&self) -> Seq<u128> {
        self.weights.values()
    }

    /// The number that each weight is divided by.
    pub closed spec fn denominator(&self) -> nat {
        self.denominator as nat
    }

    /// The distribution is well formed: one weight for each token, and no
    /// token twice.
    pub closed spec fn wf(&self) -> bool {
        self.weights.wf()
    }

    /// The sum of all weights.
    pub open spec fn weight_sum(&self) -> nat {
        sum_of(self.weight_seq())
    }

    /// Every weight is positive.
    pub open spec fn positive(&self) -> bool {
        forall|t: Seq<u8>| self.weights().contains_key(t) ==> #[trigger] self.weights()[t] > 0
    }

    /// The distribution holds the distinct tokens of `all_tokens` in the
    /// order of their first occurrence, each with the weight that `weight`
    /// gives it.
    pub open spec fn weighs(
        &self,
        all_tokens: Seq<Seq<u8>>,
        weight: spec_fn(Seq<u8>) -> u128,
    ) -> bool {
        &&& self.wf()
        &&& self.tokens() == distinct_tokens(all_tokens)
        &&& self.weight_seq() == weights_of(self.tokens(), weight)
        &&& self.weights().dom() == token_set(all_tokens)
        &&& forall|t: Seq<u8>| self.weights().contains_key(t) ==> #[trigger] self.weights()[t] == weight(t)
    }

    /// The sequences and the map of a distribution describe the same
    /// weights.
    pub proof fn lemma_weights(&self)
        requires
            self.wf(),
        ensures
            self.tokens().len() == self.weight_seq().len(),
            self.tokens().no_duplicates(),
            self.weights().dom() == token_set(self.tokens()),
            forall|i: int|
                0 <= i < self.tokens().len() ==> self.weights()[#[trigger] self.tokens()[i]]
                    == self.weight_seq()[i],
    {
        assert(self.weights().dom() =~= token_set(self.tokens()));
        assert forall|i: int| 0 <= i < self.tokens().len() implies self.weights()[#[trigger] self.tokens()[i]]
            == self.weight_seq()[i] by {
            self.weights.lemma_entry(i);
        }
    }

    /// In a distribution whose denominator is the sum of its weights, every
    /// weight is at most the denominator: no probability exceeds one.
    /// Where a weight is positive, so is the denominator.
    pub proof fn law_weights_are_fractions(&self, token: Seq<u8>)
        requires
            self.wf(),
            self.weight_sum() == self.denominator(),
            self.weights().contains_key(token),
        ensures
            self.weights()[token] <= self.denominator(),
            self.weights()[token] > 0 ==> self.denominator() > 0,
    {
        self.lemma_weights();
        assert(token_set(self.tokens()).contains(token));
        let i = self.tokens().index_of(token);
        assert(self.tokens()[i] == token);
        lemma_sum_bounds(self.weight_seq(), i);
    }

    /// The distribution with the given weights and denominator.
    pub fn from_weights(weights: TokenMap<u128>, denominator: u128) -> (r: Self)
        requires
            weights.wf(),
        ensures
            r.wf(),
            r.weights() == weights@,
            r.tokens() == weights.keys(),
            r.weight_seq() == weights.values(),
            r.denominator() == denominator,
    {
        Likelihoods { weights, denominator }
    }

    /// The number of tokens.
    pub fn len(&self) -> (n: usize)
        ensures
            n == self.tokens().len(),
    {
        self.weights.len()
    }

    /// The weight of `token`, if the distribution holds it.
    pub fn get(&self, token: &Token) -> (r: Option<u128>)
        requires
            self.wf(),
        ensures
            match r {
                Some(w) => self.weights().contains_key(token@) && w == self.weights()[token@],
                None => !self.weights().contains_key(token@),
            },
    {
        match self.weights.get(token) {
            Some(w) => Some(*w),
            None => None,
        }
    }

    /// The token at position `i`.
    pub fn token_at(&self, i: usize) -> (r: &Token)
        requires
            i < self.tokens().len(),
        ensures
            r@ == self.tokens()[i as int],
    {
        self.weights.key_at(i)
    }

    /// The weight at position `i`.
    pub fn weight_at(&self, i: usize) -> (r: u128)
        requires
            self.wf(),
            i < self.tokens().len(),
        ensures
            r == self.weight_seq()[i as int],
    {
        *self.weights.value_at(i)
    }

    /// The number that each weight is divided by.
    pub fn get_denominator(&self) -> (r: u128)
        ensures
            r == self.denominator(),
    {
        self.denominator
    }
}

/// Collects the weights of the tokens of `all_tokens`: each distinct
/// token once, in the order of first occurrence, with the weight given
/// for it in `per_token`; and the sum of the collected weights.
pub(crate) fn collect_weights(
    all_tokens: &[Token],
    per_token: &Vec<u128>,
    Ghost(weight): Ghost<spec_fn(Seq<u8>) -> u128>,
) -> (r: (TokenMap<u128>, u128))
    requires
        per_token.len() == all_tokens.len(),
        forall|i: int|
            0 <= i < all_tokens.len() ==> #[trigger] per_token@[i] == weight(all_tokens@[i]@),
        sum_of(weights_of(distinct_tokens(token_seq(all_tokens@)), weight)) <= u128::MAX,
    ensures
        r.0.wf(),
        r.0.keys() == distinct_tokens(token_seq(all_tokens@)),
        r.0.values() == weights_of(r.0.keys(), weight),
        r.0@.dom() == token_set(token_seq(all_tokens@)),
        forall|t: Seq<u8>| r.0@.contains_key(t) ==> #[trigger] r.0@[t] == weight(t),
        r.1 == sum_of(r.0.values()),
{
    let ghost all = token_seq(all_tokens@);
    let ghost whole = weights_of(distinct_tokens(all), weight);
    let mut weights: TokenMap<u128> = TokenMap::new();
    let mut total: u128 = 0;
    let mut i: usize = 0;
    proof {
        assert(all.take(0) =~= Seq::<Seq<u8>>::empty());
        assert(weights.values() =~= weights_of(weights.keys(), weight));
    }
    while i < all_tokens.len()
        invariant
            i <= all_tokens.len(),
            per_token.len() == all_tokens.len(),
            all == token_seq(all_tokens@),
            whole == weights_of(distinct_tokens(all), weight),
            forall|j: int|
                0 <= j < all_tokens.len() ==> #[trigger] per_token@[j] == weight(all_tokens@[j]@),
            sum_of(whole) <= u128::MAX,
            weights.wf(),
            weights.keys() == distinct_tokens(all.take(i as int)),
            weights.values() == weights_of(weights.keys(), weight),
            total == sum_of(weights.values()),
        decreases all_tokens.len() - i,
    {
        let ghost seen = all.take(i as int);
        let ghost more = all.take(i as int + 1);
        let ghost before = weights;
        proof {
            assert(more.drop_last() =~= seen);
            assert(more.last() == all_tokens@[i as int]@);
        }
        match weights.position(&all_tokens[i]) {
            Some(_) => {},
            None => {
                proof {
                    let next = distinct_tokens(more);
                    let next_weights = weights_of(next, weight);
                    assert(next == before.keys().push(more.last()));
                    assert(next_weights =~= before.values().push(per_token@[i as int]));
                    assert(next_weights.drop_last() =~= before.values());
                    lemma_distinct_tokens_prefix(all, i as int + 1);
                    assert(next_weights =~= whole.take(next.len() as int));
                    lemma_sum_prefix(whole, next.len() as int);
                }
                total = total + per_token[i];
                weights.insert(all_tokens[i].clone(), per_token[i]);
                proof {
                    assert(weights.values() =~= weights_of(weights.keys(), weight));
                    assert(weights.values().drop_last() =~= before.values());
                }
            },
        }
        i += 1;
    }
    proof {
        assert(all.take(all_tokens.len() as int) =~= all);
        lemma_distinct_tokens(all);
        assert(weights@.dom() =~= token_set(all));
        assert forall|t: Seq<u8>| weights@.contains_key(t) implies #[trigger] weights@[t] == weight(
            t,
        ) by {
            let j = weights.keys().index_of(t);
            assert(weights.keys()[j] == t);
            weights.lemma_entry(j);
        }
    }
    (weights, total)
}

/// The weight 1 for each of `n` tokens.
pub fn unit_weights(n: usize) -> (ones: Vec<u128>)
    ensures
        ones.len() == n,
        forall|i: int| 0 <= i < n ==> ones@[i] == 1,
{
    let mut ones: Vec<u128> = Vec::new();
    let mut i: usize = 0;
    while i < n
        invariant
            i <= n,
            ones.len() == i,
            forall|j: int| 0 <= j < i ==> ones@[j] == 1,
        decreases n - i,
    {
        ones.push(1);
        i += 1;
    }
    ones
}

/// The weight 1 for every token.
pub open spec fn unit_weight() -> spec_fn(Seq<u8>) -> u128 {
    |t: Seq<u8>| 1u128
}

/// The distribution that gives every token of `all_tokens` the same
/// share: each distinct token has the weight 1, over the number of
/// distinct tokens.
pub fn even_likelihoods(all_tokens: &[Token]) -> (r: Likelihoods)
    ensures
        r.weighs(token_seq(all_tokens@), unit_weight()),
        r.denominator() == r.weight_sum(),
        r.denominator() == distinct_tokens(token_seq(all_tokens@)).len(),
        r.positive(),
{
    let ghost all = token_seq(all_tokens@);
    let ones = unit_weights(all_tokens.len());
    proof {
        lemma_distinct_tokens(all);
        lemma_sum_of_ones(weights_of(distinct_tokens(all), unit_weight()));
    }
    let (weights, total) = collect_weights(all_tokens, &ones, Ghost(unit_weight()));
    Likelihoods::from_weights(weights, total)
}

} // verus!
