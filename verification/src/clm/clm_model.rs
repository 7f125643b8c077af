//! The dictionary ensemble: its shard dictionaries, how a token stream is
//! cut into shards, and the byte streams whose compressed lengths score a
//! candidate token.

use crate::clm::error::ClmError;
use crate::clm::token_map::Token;
use crate::clm::tokenizer::token_seq;
use crate::clm::trainer::{append_token, concat_tokens, sum_sizes};
use crate::clm::training_options::TrainingOptions;
use vstd::prelude::*;

verus! {

/// The error type of `serde_json`.
#[verifier::external_type_specification]
#[verifier::external_body]
pub struct ExJsonError(serde_json::Error);

/// The decimal digit `d` as a character.
pub open spec fn digit_char(d: u8) -> char {
    (d + 48) as u8 as char
}

/// The decimal numeral of a byte, without leading zeros.
pub open spec fn decimal_of(byte: u8) -> Seq<char> {
    if byte < 10 {
        seq![digit_char(byte)]
    } else if byte < 100 {
        seq![digit_char(byte / 10), digit_char(byte % 10)]
    } else {
        seq![digit_char(byte / 100), digit_char((byte / 10) % 10), digit_char(byte % 10)]
    }
}

/// The numerals of `bytes`, with a comma between neighbours.
pub open spec fn json_bytes_items(bytes: Seq<u8>) -> Seq<char>
    decreases bytes.len(),
{
    if bytes.len() == 0 {
        Seq::empty()
    } else if bytes.len() == 1 {
        decimal_of(bytes[0])
    } else {
        json_bytes_items(bytes.drop_last()) + seq![','] + decimal_of(bytes.last())
    }
}

/// A byte string as a JSON array of numbers, without white space.
pub open spec fn json_of_bytes(bytes: Seq<u8>) -> Seq<char> {
    seq!['['] + json_bytes_items(bytes) + seq![']']
}

/// The JSON arrays of `dictionaries`, with a comma between neighbours.
pub open spec fn json_dictionaries_items(dictionaries: Seq<Seq<u8>>) -> Seq<char>
    decreases dictionaries.len(),
{
    if dictionaries.len() == 0 {
        Seq::empty()
    } else if dictionaries.len() == 1 {
        json_of_bytes(dictionaries[0])
    } else {
        json_dictionaries_items(dictionaries.drop_last()) + seq![','] + json_of_bytes(
            dictionaries.last(),
        )
    }
}

/// A list of byte strings as JSON text: an array of arrays of numbers,
/// without white space, such as `[[0,1,255],[],[42]]`.
pub open spec fn json_of_dictionaries(dictionaries: Seq<Seq<u8>>) -> Seq<char> {
    seq!['['] + json_dictionaries_items(dictionaries) + seq![']']
}

/// What `serde_json::from_str` reads from `text` as a list of byte
/// strings; `None` where it reports an error.
pub uninterp spec fn dictionaries_of_json(text: Seq<char>) -> Option<Seq<Seq<u8>>>;

/// Calls `serde_json::to_string` on a list of byte strings. The contract
/// claims that the call succeeds and what text it gives. For a list of
/// lists of bytes the serializer writes `[`, the elements with `,`
/// between them, and `]`, each byte as its decimal numeral; an error can
/// only come from the writer, and the writer is a vector, which takes
/// every write.
#[verifier::external_body]
fn dictionaries_to_json(dictionaries: &Vec<Vec<u8>>) -> (r: Result<String, serde_json::Error>)
    ensures
        r is Ok,
        r matches Ok(text) ==> text@ == json_of_dictionaries(token_seq(dictionaries@)),
{
    serde_json::to_string(dictionaries)
}

/// Calls `serde_json::from_str` to read a list of byte strings. The
/// contract names the outcome, the list read or that an error came back,
/// and claims one thing of it: the text that writing a list gives is read
/// back as that list.
#[verifier::external_body]
fn dictionaries_from_json(text: &str) -> (r: Result<Vec<Vec<u8>>, serde_json::Error>)
    ensures
        match r {
            Ok(dictionaries) => dictionaries_of_json(text@) == Some(token_seq(dictionaries@)),
            Err(_) => dictionaries_of_json(text@) is None,
        },
        forall|written: Seq<Seq<u8>>|
            text@ == #[trigger] json_of_dictionaries(written) ==> match r {
                Ok(dictionaries) => token_seq(dictionaries@) == written,
                Err(_) => false,
            },
{
    serde_json::from_str(text)
}

/// The number of tokens in each shard but the last: the stream's length
/// divided by the ensemble size, rounded up. An ensemble size of 0 leaves
/// the stream in one shard.
pub open spec fn shard_size_spec(n_tokens: nat, ensemble_size: nat) -> nat {
    if ensemble_size == 0 {
        n_tokens
    } else {
        ((n_tokens + ensemble_size - 1) / ensemble_size as int) as nat
    }
}

/// The shards of a stream of `n` tokens from position `start` on, each as
/// the positions of its first token and of the token behind its last.
pub open spec fn shards_from(start: nat, n: nat, size: nat) -> Seq<(usize, usize)>
    decreases n - start,
{
    if start >= n || size == 0 {
        Seq::empty()
    } else if n - start <= size {
        seq![(start as usize, n as usize)]
    } else {
        seq![(start as usize, (start + size) as usize)] + shards_from(start + size, n, size)
    }
}

/// The shards of a stream of `n_tokens` tokens for an ensemble of
/// `ensemble_size` dictionaries, in stream order.
pub open spec fn shards_spec(n_tokens: nat, ensemble_size: nat) -> Seq<(usize, usize)> {
    shards_from(0, n_tokens, shard_size_spec(n_tokens, ensemble_size))
}

/// The tokens that prediction looks at: the last `window` tokens of the
/// prefix, or all of it where it is shorter.
pub open spec fn context_tokens(prefix: Seq<Seq<u8>>, window: nat) -> Seq<Seq<u8>> {
    if prefix.len() <= window {
        prefix
    } else {
        prefix.skip(prefix.len() - window)
    }
}

/// The byte stream that is compressed for no candidate: the codes of the
/// context.
pub open spec fn context_stream(prefix: Seq<Seq<u8>>, window: nat) -> Seq<u8> {
    concat_tokens(context_tokens(prefix, window))
}

/// The byte stream that is compressed for the candidate `token`: the codes
/// of the context followed by the candidate's code.
pub open spec fn candidate_stream(prefix: Seq<Seq<u8>>, window: nat, token: Seq<u8>) -> Seq<u8> {
    concat_tokens(context_tokens(prefix, window).push(token))
}

/// The stream of a candidate is the stream of the context followed by the
/// candidate's code.
pub proof fn lemma_candidate_stream(prefix: Seq<Seq<u8>>, window: nat, token: Seq<u8>)
    ensures
        candidate_stream(prefix, window, token) == context_stream(prefix, window) + token,
{
    let context = context_tokens(prefix, window);
    assert(context.push(token).drop_last() =~= context);
}

/// The shards from `start` on lie one behind the other, from `start` to
/// the end of the stream; none is empty, none is longer than `size`, and
/// all but the last have exactly `size` tokens.
pub proof fn lemma_shards_from(start: nat, n: nat, size: nat)
    requires
        start < n <= usize::MAX,
        size > 0,
    ensures
        shards_from(start, n, size).len() >= 1,
        shards_from(start, n, size)[0].0 == start,
        shards_from(start, n, size).last().1 == n,
        forall|k: int|
            0 <= k < shards_from(start, n, size).len() ==> {
                let shard = #[trigger] shards_from(start, n, size)[k];
                &&& start <= shard.0 < shard.1 <= n
                &&& shard.1 - shard.0 <= size
            },
        forall|k: int|
            0 <= k < shards_from(start, n, size).len() - 1 ==> {
                let shard = #[trigger] shards_from(start, n, size)[k];
                &&& shard.1 == shards_from(start, n, size)[k + 1].0
                &&& shard.1 - shard.0 == size
            },
        (shards_from(start, n, size).len() - 1) * size < n - start,
    decreases n - start,
{
    let all = shards_from(start, n, size);
    if n - start > size {
        let later = shards_from(start + size, n, size);
        lemma_shards_from(start + size, n, size);
        assert(all == seq![(start as usize, (start + size) as usize)] + later);
        assert(all.last() == later.last());
        assert forall|k: int| 0 <= k < all.len() implies {
            let shard = #[trigger] all[k];
            &&& start <= shard.0 < shard.1 <= n
            &&& shard.1 - shard.0 <= size
        } by {
            if k > 0 {
                assert(all[k] == later[k - 1]);
            }
        }
        assert forall|k: int| 0 <= k < all.len() - 1 implies {
            let shard = #[trigger] all[k];
            &&& shard.1 == all[k + 1].0
            &&& shard.1 - shard.0 == size
        } by {
            assert(all[k + 1] == later[k]);
            if k > 0 {
                assert(all[k] == later[k - 1]);
            }
        }
        assert((all.len() - 1) * size == (later.len() - 1) * size + size) by (nonlinear_arith)
            requires
                all.len() == later.len() + 1,
        ;
    } else {
        assert(all == seq![(start as usize, n as usize)]);
    }
}

/// The shards of a stream partition it: they lie one behind the other
/// from the first token to the last, none is empty, all but the last have
/// the shard size, and there are at most as many as the ensemble has
/// dictionaries (one, where the ensemble size is 0).
pub proof fn law_shards_partition_stream(n_tokens: nat, ensemble_size: nat)
    requires
        0 < n_tokens <= usize::MAX,
    ensures
        shards_spec(n_tokens, ensemble_size).len() >= 1,
        shards_spec(n_tokens, ensemble_size)[0].0 == 0,
        shards_spec(n_tokens, ensemble_size).last().1 == n_tokens,
        forall|k: int|
            0 <= k < shards_spec(n_tokens, ensemble_size).len() ==> {
                let shard = #[trigger] shards_spec(n_tokens, ensemble_size)[k];
                &&& shard.0 < shard.1 <= n_tokens
                &&& shard.1 - shard.0 <= shard_size_spec(n_tokens, ensemble_size)
            },
        forall|k: int|
            0 <= k < shards_spec(n_tokens, ensemble_size).len() - 1 ==> {
                let shard = #[trigger] shards_spec(n_tokens, ensemble_size)[k];
                &&& shard.1 == shards_spec(n_tokens, ensemble_size)[k + 1].0
                &&& shard.1 - shard.0 == shard_size_spec(n_tokens, ensemble_size)
            },
        ensemble_size > 0 ==> shards_spec(n_tokens, ensemble_size).len() <= ensemble_size,
        ensemble_size == 0 ==> shards_spec(n_tokens, ensemble_size).len() == 1,
{
    let size = shard_size_spec(n_tokens, ensemble_size);
    let count = shards_spec(n_tokens, ensemble_size).len();
    if ensemble_size > 0 {
        lemma_round_up(n_tokens as int, ensemble_size as int);
        let e = ensemble_size as int;
        let n = n_tokens as int;
        assert(size * e >= n) by (nonlinear_arith)
            requires
                e > 0,
                n >= 0,
                size == (n + e - 1) / e,
        ;
        lemma_shards_from(0, n_tokens, size);
        assert(count <= e) by (nonlinear_arith)
            requires
                (count - 1) * size < n,
                size * e >= n,
                size > 0,
                e > 0,
        ;
    } else {
        lemma_shards_from(0, n_tokens, size);
    }
}

/// The number of tokens in each shard but the last.
pub fn shard_size(n_tokens: usize, ensemble_size: usize) -> (size: usize)
    ensures
        size == shard_size_spec(n_tokens as nat, ensemble_size as nat),
        n_tokens > 0 ==> size > 0,
{
    if ensemble_size == 0 {
        n_tokens
    } else {
        let whole = n_tokens / ensemble_size;
        let left = n_tokens % ensemble_size;
        proof {
            lemma_round_up(n_tokens as int, ensemble_size as int);
        }
        if left == 0 {
            whole
        } else {
            whole + 1
        }
    }
}

/// Rounding a quotient up is adding one where the division leaves a rest.
proof fn lemma_round_up(n: int, e: int)
    requires
        n >= 0,
        e > 0,
    ensures
        (n + e - 1) / e == if n % e == 0 {
            n / e
        } else {
            n / e + 1
        },
        n % e != 0 ==> n / e + 1 <= n,
        n > 0 ==> (n + e - 1) / e > 0,
{
    let q = n / e;
    let r = n % e;
    assert(n == q * e + r && 0 <= r < e) by (nonlinear_arith)
        requires
            n >= 0,
            e > 0,
            q == n / e,
            r == n % e,
    ;
    if r == 0 {
        assert((q * e + e - 1) / e == q) by (nonlinear_arith)
            requires
                e > 0,
        ;
    } else {
        assert((q * e + r + e - 1) / e == q + 1) by (nonlinear_arith)
            requires
                e > 0,
                0 < r < e,
        ;
        assert(q + 1 <= q * e + r) by (nonlinear_arith)
            requires
                e > 0,
                q >= 0,
                r > 0,
        ;
    }
    if n > 0 && r == 0 {
        assert(q > 0) by (nonlinear_arith)
            requires
                n == q * e,
                n > 0,
                e > 0,
        ;
    }
    assert(q >= 0) by (nonlinear_arith)
        requires
            n >= 0,
            e > 0,
            q == n / e,
    ;
}

/// Cuts a stream of `n_tokens` tokens into the shards of an ensemble: each
/// shard as the positions of its first token and of the token behind its
/// last, in stream order. A stream without tokens is refused.
pub fn plan_shards(n_tokens: usize, ensemble_size: usize) -> (r: Result<
    Vec<(usize, usize)>,
    ClmError,
>)
    ensures
        match r {
            Ok(shards) => n_tokens > 0 && shards@ == shards_spec(
                n_tokens as nat,
                ensemble_size as nat,
            ),
            Err(e) => n_tokens == 0 && e == ClmError::EmptyShard,
        },
{
    if n_tokens == 0 {
        return Err(ClmError::EmptyShard);
    }
    let size = shard_size(n_tokens, ensemble_size);
    let mut shards: Vec<(usize, usize)> = Vec::new();
    let mut start: usize = 0;
    proof {
        assert(shards@ + shards_from(0, n_tokens as nat, size as nat) =~= shards_from(
            0,
            n_tokens as nat,
            size as nat,
        ));
    }
    while start < n_tokens
        invariant
            start <= n_tokens,
            size > 0,
            shards@ + shards_from(start as nat, n_tokens as nat, size as nat) == shards_from(
                0,
                n_tokens as nat,
                size as nat,
            ),
        decreases n_tokens - start,
    {
        let end = if n_tokens - start > size {
            start + size
        } else {
            n_tokens
        };
        let ghost before = shards@;
        shards.push((start, end));
        proof {
            let rest = shards_from(start as nat, n_tokens as nat, size as nat);
            let later = shards_from(end as nat, n_tokens as nat, size as nat);
            assert(rest =~= seq![(start, end)] + later);
            assert(shards@ + later =~= before + rest);
        }
        start = end;
    }
    proof {
        assert(shards@ + Seq::<(usize, usize)>::empty() =~= shards@);
    }
    Ok(shards)
}

/// The dictionary ensemble as it is persisted: the shard dictionaries in
/// shard order, and the options that they were trained with.
#[derive(Debug, Clone, PartialEq, Eq)]
pub struct ClmModel {
    dictionaries: Vec<Vec<u8>>,
    options: TrainingOptions,
}

impl ClmModel {
    /// The shard dictionaries, in shard order.
    pub closed spec fn dictionaries(&self) -> Seq<Seq<u8>> {
        token_seq(self.dictionaries@)
    }

    /// The options of the training run; prediction reads its compression
    /// level and context window.
    pub closed spec fn options(&self) -> TrainingOptions {
        self.options
    }

    /// The ensemble of the given dictionaries.
    pub fn from_dictionaries(dictionaries: Vec<Vec<u8>>, options: TrainingOptions) -> (model: Self)
        ensures
            model.dictionaries() == token_seq(dictionaries@),
            model.options() == options,
    {
        ClmModel { dictionaries, options }
    }

    /// The options of the training run.
    pub fn training_options(&self) -> (options: &TrainingOptions)
        ensures
            *options == self.options(),
    {
        &self.options
    }

    /// Overrides the additive smoothing of the prediction; everything
    /// else stays as it was.
    pub fn set_regularization_bits(&mut self, bits: u64)
        ensures
            final(self).dictionaries() == old(self).dictionaries(),
            final(self).options() == (TrainingOptions {
                regularization_bits: bits,
                ..old(self).options()
            }),
    {
        self.options.regularization_bits = bits;
    }

    /// The number of dictionaries.
    pub fn ensemble_len(&self) -> (n: usize)
        ensures
            n == self.dictionaries().len(),
    {
        self.dictionaries.len()
    }

    /// The dictionary of shard `i`.
    pub fn dictionary(&self, i: usize) -> (d: &Vec<u8>)
        requires
            i < self.dictionaries().len(),
        ensures
            d@ == self.dictionaries()[i as int],
    {
        &self.dictionaries[i]
    }

    /// The dictionaries as JSON text: an array of arrays of numbers.
    pub fn to_save_string(&self) -> (text: String)
        ensures
            text@ == json_of_dictionaries(self.dictionaries()),
    {
        match dictionaries_to_json(&self.dictionaries) {
            Ok(text) => text,
            Err(_) => unreached(),
        }
    }

    /// Reads the dictionaries of an ensemble back from JSON text. The
    /// text that `to_save_string` gives for a list of dictionaries is read
    /// back as that list.
    pub fn load_from_string(dict_string: String, options: TrainingOptions) -> (r: Result<
        Self,
        ClmError,
    >)
        ensures
            match r {
                Ok(model) => {
                    &&& dictionaries_of_json(dict_string@) == Some(model.dictionaries())
                    &&& model.options() == options
                },
                Err(e) => e == ClmError::ParseError && dictionaries_of_json(dict_string@) is None,
            },
            forall|written: Seq<Seq<u8>>|
                dict_string@ == #[trigger] json_of_dictionaries(written) ==> match r {
                    Ok(model) => model.dictionaries() == written,
                    Err(_) => false,
                },
    {
        match dictionaries_from_json(dict_string.as_str()) {
            Ok(dictionaries) => Ok(ClmModel::from_dictionaries(dictionaries, options)),
            Err(_) => Err(ClmError::ParseError),
        }
    }

    /// The byte stream of the context of `current_text`: the codes of its
    /// last `context_window` tokens.
    pub fn context_bytes(&self, current_text: &[Token]) -> (bytes: Vec<u8>)
        ensures
            bytes@ == context_stream(
                token_seq(current_text@),
                self.options().context_window as nat,
            ),
    {
        context_bytes(current_text, self.options.context_window)
    }
}

/// The byte stream of the context of `current_text`: the codes of its last
/// `context_window` tokens.
pub fn context_bytes(current_text: &[Token], context_window: usize) -> (bytes: Vec<u8>)
    ensures
        bytes@ == context_stream(token_seq(current_text@), context_window as nat),
{
    let ghost prefix = token_seq(current_text@);
    let len = current_text.len();
    let first = if len <= context_window {
        0
    } else {
        len - context_window
    };
    let mut bytes: Vec<u8> = Vec::new();
    let mut i: usize = first;
    proof {
        assert(prefix.subrange(first as int, first as int) =~= Seq::<Seq<u8>>::empty());
    }
    while i < len
        invariant
            first <= i <= len,
            len == current_text.len(),
            prefix == token_seq(current_text@),
            bytes@ == concat_tokens(prefix.subrange(first as int, i as int)),
        decreases len - i,
    {
        append_token(&mut bytes, &current_text[i]);
        proof {
            let more = prefix.subrange(first as int, i + 1);
            assert(more.drop_last() =~= prefix.subrange(first as int, i as int));
            assert(more.last() == current_text@[i as int]@);
        }
        i += 1;
    }
    proof {
        assert(prefix.subrange(first as int, len as int) =~= context_tokens(
            prefix,
            context_window as nat,
        ));
    }
    bytes
}

/// The compressed lengths of the streams of one dictionary: of the context
/// alone, and of each candidate.
#[derive(Debug, Clone, PartialEq, Eq)]
pub struct CompressedSizes {
    /// The compressed length of the context's stream.
    pub base: usize,
    /// The compressed length of each candidate's stream, in the order of
    /// the candidates.
    pub candidates: Vec<usize>,
}

/// The compressed lengths summed over the ensemble.
#[derive(Debug, Clone, PartialEq, Eq)]
pub struct ScoreTotals {
    /// The number of dictionaries summed over.
    pub dictionaries: usize,
    /// The sum of the compressed lengths of the context's stream.
    pub base_total: u128,
    /// For each candidate the sum of the compressed lengths of its stream.
    pub candidate_totals: Vec<u128>,
}

/// The compressed lengths of the context under each dictionary.
pub open spec fn base_sizes(sizes: Seq<CompressedSizes>) -> Seq<usize> {
    Seq::new(sizes.len(), |d: int| sizes[d].base)
}

/// The compressed lengths of candidate `i` under each dictionary.
pub open spec fn candidate_sizes(sizes: Seq<CompressedSizes>, i: int) -> Seq<usize> {
    Seq::new(sizes.len(), |d: int| sizes[d].candidates@[i])
}

/// The score of candidate `i` times the number of dictionaries: the sum
/// over the ensemble of what the candidate adds to the compressed length
/// of the context. The score is this sum divided by the number of
/// dictionaries; a smaller score is a likelier candidate.
pub open spec fn increment_total(sizes: Seq<CompressedSizes>, i: int) -> int {
    sum_sizes(candidate_sizes(sizes, i)) - sum_sizes(base_sizes(sizes))
}

/// A sum of machine-sized lengths is at most their number times the
/// largest length.
proof fn lemma_sum_sizes_bound(sizes: Seq<usize>)
    ensures
        sum_sizes(sizes) <= sizes.len() * usize::MAX,
    decreases sizes.len(),
{
    if sizes.len() > 0 {
        lemma_sum_sizes_bound(sizes.drop_last());
        assert(sizes.len() * usize::MAX == (sizes.len() - 1) * usize::MAX + usize::MAX)
            by (nonlinear_arith);
    }
}

/// Sums the compressed lengths over the ensemble: for the context and for
/// each of `n_candidates` candidates.
pub fn score_totals(sizes: &Vec<CompressedSizes>, n_candidates: usize) -> (totals: ScoreTotals)
    requires
        forall|d: int| 0 <= d < sizes.len() ==> (#[trigger] sizes@[d]).candidates.len() == n_candidates,
    ensures
        totals.dictionaries == sizes.len(),
        totals.base_total == sum_sizes(base_sizes(sizes@)),
        totals.candidate_totals.len() == n_candidates,
        forall|i: int|
            0 <= i < n_candidates ==> #[trigger] totals.candidate_totals@[i] == sum_sizes(
                candidate_sizes(sizes@, i),
            ),
        forall|i: int|
            0 <= i < n_candidates ==> #[trigger] totals.candidate_totals@[i] - totals.base_total
                == increment_total(sizes@, i),
{
    let mut candidate_totals: Vec<u128> = Vec::new();
    let mut i: usize = 0;
    while i < n_candidates
        invariant
            i <= n_candidates,
            candidate_totals.len() == i,
            forall|j: int| 0 <= j < i ==> candidate_totals@[j] == 0,
        decreases n_candidates - i,
    {
        candidate_totals.push(0);
        i += 1;
    }
    let mut base_total: u128 = 0;
    let mut d: usize = 0;
    proof {
        assert(base_sizes(sizes@).take(0) =~= Seq::<usize>::empty());
        assert forall|j: int| 0 <= j < n_candidates implies #[trigger] candidate_sizes(
            sizes@,
            j,
        ).take(0) =~= Seq::<usize>::empty() by {}
    }
    while d < sizes.len()
        invariant
            d <= sizes.len(),
            forall|k: int|
                0 <= k < sizes.len() ==> (#[trigger] sizes@[k]).candidates.len() == n_candidates,
            candidate_totals.len() == n_candidates,
            base_total == sum_sizes(base_sizes(sizes@).take(d as int)),
            forall|j: int|
                0 <= j < n_candidates ==> #[trigger] candidate_totals@[j] == sum_sizes(
                    candidate_sizes(sizes@, j).take(d as int),
                ),
        decreases sizes.len() - d,
    {
        proof {
            let more = base_sizes(sizes@).take(d as int + 1);
            assert(more.drop_last() =~= base_sizes(sizes@).take(d as int));
            assert(more.last() == sizes@[d as int].base);
            lemma_sum_sizes_bound(base_sizes(sizes@).take(d as int));
            assert(d * usize::MAX + usize::MAX <= u128::MAX) by (nonlinear_arith)
                requires
                    d < usize::MAX,
                    usize::MAX <= 0xffff_ffff_ffff_ffff,
            ;
        }
        base_total = base_total + sizes[d].base as u128;
        let mut j: usize = 0;
        while j < n_candidates
            invariant
                j <= n_candidates,
                d < sizes.len(),
                forall|k: int|
                    0 <= k < sizes.len() ==> (#[trigger] sizes@[k]).candidates.len()
                        == n_candidates,
                candidate_totals.len() == n_candidates,
                forall|c: int|
                    0 <= c < j ==> #[trigger] candidate_totals@[c] == sum_sizes(
                        candidate_sizes(sizes@, c).take(d as int + 1),
                    ),
                forall|c: int|
                    j <= c < n_candidates ==> #[trigger] candidate_totals@[c] == sum_sizes(
                        candidate_sizes(sizes@, c).take(d as int),
                    ),
            decreases n_candidates - j,
        {
            proof {
                let column = candidate_sizes(sizes@, j as int);
                let more = column.take(d as int + 1);
                assert(more.drop_last() =~= column.take(d as int));
                assert(more.last() == sizes@[d as int].candidates@[j as int]);
                lemma_sum_sizes_bound(column.take(d as int));
                assert(d * usize::MAX + usize::MAX <= u128::MAX) by (nonlinear_arith)
                    requires
                        d < usize::MAX,
                        usize::MAX <= 0xffff_ffff_ffff_ffff,
                ;
            }
            let total = candidate_totals[j] + sizes[d].candidates[j] as u128;
            candidate_totals.set(j, total);
            j += 1;
        }
        d += 1;
    }
    proof {
        assert(base_sizes(sizes@).take(sizes.len() as int) =~= base_sizes(sizes@));
        assert forall|j: int| 0 <= j < n_candidates implies #[trigger] candidate_totals@[j]
            == sum_sizes(candidate_sizes(sizes@, j)) by {
            assert(candidate_sizes(sizes@, j).take(sizes.len() as int) =~= candidate_sizes(
                sizes@,
                j,
            ));
        }
    }
    ScoreTotals { dictionaries: sizes.len(), base_total, candidate_totals }
}

/// The byte streams whose compressed lengths score the candidates, in the
/// order in which they are compressed under each dictionary: first the
/// stream of the context alone, then the stream of each candidate of
/// `all_tokens`.
pub fn scoring_streams(current_text: &[Token], all_tokens: &[Token], context_window: usize) -> (streams:
    Vec<Vec<u8>>)
    ensures
        streams.len() == all_tokens.len() + 1,
        streams@[0]@ == context_stream(token_seq(current_text@), context_window as nat),
        forall|i: int|
            0 <= i < all_tokens.len() ==> (#[trigger] streams@[i + 1])@ == candidate_stream(
                token_seq(current_text@),
                context_window as nat,
                all_tokens@[i]@,
            ),
{
    let ghost prefix = token_seq(current_text@);
    let ghost window = context_window as nat;
    let context = context_bytes(current_text, context_window);
    let mut streams: Vec<Vec<u8>> = Vec::new();
    streams.push(context.clone());
    let mut i: usize = 0;
    while i < all_tokens.len()
        invariant
            i <= all_tokens.len(),
            prefix == token_seq(current_text@),
            window == context_window,
            context@ == context_stream(prefix, window),
            streams.len() == i + 1,
            streams@[0]@ == context_stream(prefix, window),
            forall|j: int|
                0 <= j < i ==> (#[trigger] streams@[j + 1])@ == candidate_stream(
                    prefix,
                    window,
                    all_tokens@[j]@,
                ),
        decreases all_tokens.len() - i,
    {
        let stream = candidate_bytes(&context, &all_tokens[i]);
        proof {
            lemma_candidate_stream(prefix, window, all_tokens@[i as int]@);
        }
        streams.push(stream);
        i += 1;
    }
    streams
}

/// The byte stream of a candidate: the context's stream followed by the
/// candidate's code.
pub fn candidate_bytes(context: &Vec<u8>, token: &Token) -> (bytes: Vec<u8>)
    ensures
        bytes@ == context@ + token@,
{
    let mut bytes = context.clone();
    append_token(&mut bytes, token);
    bytes
}

} // verus!
