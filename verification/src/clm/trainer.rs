//! Preparing a shard of tokens for the dictionary trainer: one byte stream
//! of all samples, and the length of each sample.

use crate::clm::error::ClmError;
use crate::clm::token_map::Token;
use crate::clm::tokenizer::token_seq;
use vstd::prelude::*;

verus! {

/// The least number of samples that the dictionary trainer accepts.
pub const MIN_SAMPLES: usize = 5;

/// The least size of a dictionary buffer, in bytes.
pub const MIN_BUFFER_SIZE: usize = 256;

/// The bytes of a token sequence: the codes, one after the other.
pub open spec fn concat_tokens(tokens: Seq<Seq<u8>>) -> Seq<u8>
    decreases tokens.len(),
{
    if tokens.len() == 0 {
        Seq::empty()
    } else {
        concat_tokens(tokens.drop_last()) + tokens.last()
    }
}

/// The byte lengths of the samples of a shard: the shard is cut into
/// samples of `size` tokens, the last one may be shorter.
pub open spec fn sample_sizes(tokens: Seq<Seq<u8>>, size: nat) -> Seq<usize>
    decreases tokens.len(),
{
    if tokens.len() == 0 || size == 0 {
        Seq::empty()
    } else if tokens.len() <= size {
        seq![concat_tokens(tokens).len() as usize]
    } else {
        seq![concat_tokens(tokens.take(size as int)).len() as usize] + sample_sizes(
            tokens.skip(size as int),
            size,
        )
    }
}

/// The sum of `sizes`.
pub open spec fn sum_sizes(sizes: Seq<usize>) -> nat
    decreases sizes.len(),
{
    if sizes.len() == 0 {
        0
    } else {
        sum_sizes(sizes.drop_last()) + sizes.last() as nat
    }
}

/// The bytes of two token sequences in a row are their bytes in a row.
pub proof fn lemma_concat_tokens_add(first: Seq<Seq<u8>>, second: Seq<Seq<u8>>)
    ensures
        concat_tokens(first + second) == concat_tokens(first) + concat_tokens(second),
    decreases second.len(),
{
    if second.len() == 0 {
        assert(first + second =~= first);
        assert(concat_tokens(first) + Seq::<u8>::empty() =~= concat_tokens(first));
    } else {
        lemma_concat_tokens_add(first, second.drop_last());
        assert((first + second).drop_last() =~= first + second.drop_last());
        assert((first + second).last() == second.last());
        assert(concat_tokens(first + second) =~= concat_tokens(first) + concat_tokens(second));
    }
}

/// The samples handed to the dictionary trainer.
#[derive(Debug, Clone, PartialEq, Eq)]
pub struct TrainingSamples {
    /// The bytes of all samples, one sample after the other.
    pub data: Vec<u8>,
    /// The length in bytes of each sample.
    pub sizes: Vec<usize>,
}

/// The bytes of `tokens`, one code after the other.
pub fn flatten_tokens(tokens: &[Token]) -> (data: Vec<u8>)
    ensures
        data@ == concat_tokens(token_seq(tokens@)),
{
    let ghost all = token_seq(tokens@);
    let mut data: Vec<u8> = Vec::new();
    let mut i: usize = 0;
    proof {
        assert(all.take(0) =~= Seq::<Seq<u8>>::empty());
    }
    while i < tokens.len()
        invariant
            i <= tokens.len(),
            all == token_seq(tokens@),
            data@ == concat_tokens(all.take(i as int)),
        decreases tokens.len() - i,
    {
        append_token(&mut data, &tokens[i]);
        proof {
            let more = all.take(i as int + 1);
            assert(more.drop_last() =~= all.take(i as int));
            assert(more.last() == tokens@[i as int]@);
        }
        i += 1;
    }
    proof {
        assert(all.take(tokens.len() as int) =~= all);
    }
    data
}

/// Appends the bytes of `token` to `data`.
pub fn append_token(data: &mut Vec<u8>, token: &Token)
    ensures
        final(data)@ == old(data)@ + token@,
{
    let ghost before = data@;
    let mut j: usize = 0;
    while j < token.len()
        invariant
            j <= token.len(),
            data@ == before + token@.take(j as int),
        decreases token.len() - j,
    {
        data.push(token[j]);
        proof {
            assert(token@.take(j as int + 1) =~= token@.take(j as int).push(token@[j as int]));
            assert(data@ =~= before + token@.take(j as int + 1));
        }
        j += 1;
    }
    proof {
        assert(token@.take(token.len() as int) =~= token@);
    }
}

/// Prepares a shard for the dictionary trainer: the shard's bytes, and the
/// byte length of each sample of `training_chunk_size` tokens. An empty
/// shard is refused, and so is one that gives fewer than five samples.
pub fn prepare_samples(input_tokens: &[Token], training_chunk_size: usize) -> (r: Result<
    TrainingSamples,
    ClmError,
>)
    ensures
        match r {
            Ok(samples) => {
                &&& input_tokens.len() > 0
                &&& samples.data@ == concat_tokens(token_seq(input_tokens@))
                &&& samples.sizes@ == sample_sizes(
                    token_seq(input_tokens@),
                    training_chunk_size as nat,
                )
                &&& samples.sizes.len() >= MIN_SAMPLES
                &&& sum_sizes(samples.sizes@) == samples.data.len()
            },
            Err(e) => {
                &&& e == ClmError::EmptyShard || e == ClmError::InsufficientSubChunks
                &&& e == ClmError::EmptyShard <==> input_tokens.len() == 0
                &&& e == ClmError::InsufficientSubChunks ==> sample_sizes(
                    token_seq(input_tokens@),
                    training_chunk_size as nat,
                ).len() < MIN_SAMPLES
            },
        },
{
    if input_tokens.len() == 0 {
        return Err(ClmError::EmptyShard);
    }
    let ghost all = token_seq(input_tokens@);
    let ghost size = training_chunk_size as nat;
    let n = input_tokens.len();
    let mut data: Vec<u8> = Vec::new();
    let mut sizes: Vec<usize> = Vec::new();
    let mut start: usize = 0;
    proof {
        assert(all.take(0) =~= Seq::<Seq<u8>>::empty());
        assert(all.skip(0) =~= all);
        assert(sizes@ + sample_sizes(all, size) =~= sample_sizes(all, size));
    }
    while start < n && training_chunk_size > 0
        invariant
            n == input_tokens.len(),
            start <= n,
            all == token_seq(input_tokens@),
            size == training_chunk_size,
            data@ == concat_tokens(all.take(start as int)),
            sizes@ + sample_sizes(all.skip(start as int), size) == sample_sizes(all, size),
            sum_sizes(sizes@) == data.len(),
        decreases n - start,
    {
        let end = if n - start > training_chunk_size {
            start + training_chunk_size
        } else {
            n
        };
        let before = data.len();
        let ghost data_before = data@;
        let ghost sizes_before = sizes@;
        let ghost rest = all.skip(start as int);
        let mut i: usize = start;
        proof {
            assert(all.subrange(start as int, start as int) =~= Seq::<Seq<u8>>::empty());
            assert(data@ =~= data_before + concat_tokens(all.subrange(start as int, i as int)));
        }
        while i < end
            invariant
                start <= i <= end <= n,
                n == input_tokens.len(),
                all == token_seq(input_tokens@),
                data@ == data_before + concat_tokens(all.subrange(start as int, i as int)),
                data_before == concat_tokens(all.take(start as int)),
            decreases end - i,
        {
            append_token(&mut data, &input_tokens[i]);
            proof {
                let more = all.subrange(start as int, i + 1);
                assert(more.drop_last() =~= all.subrange(start as int, i as int));
                assert(more.last() == input_tokens@[i as int]@);
                assert(data@ =~= data_before + concat_tokens(more));
            }
            i += 1;
        }
        let ghost sample = all.subrange(start as int, end as int);
        proof {
            lemma_concat_tokens_add(all.take(start as int), sample);
            assert(all.take(start as int) + sample =~= all.take(end as int));
        }
        sizes.push(data.len() - before);
        proof {
            assert(data.len() - before == concat_tokens(sample).len());
            assert(sizes@.drop_last() =~= sizes_before);
            if rest.len() <= size {
                assert(sample =~= rest);
                assert(all.skip(end as int) =~= Seq::<Seq<u8>>::empty());
                assert(sizes@ + sample_sizes(all.skip(end as int), size) =~= sizes_before
                    + sample_sizes(rest, size));
            } else {
                assert(sample =~= rest.take(size as int));
                assert(rest.skip(size as int) =~= all.skip(end as int));
                assert(sizes@ + sample_sizes(all.skip(end as int), size) =~= sizes_before
                    + sample_sizes(rest, size));
            }
        }
        start = end;
    }
    proof {
        if training_chunk_size > 0 {
            assert(all.skip(n as int) =~= Seq::<Seq<u8>>::empty());
            assert(all.take(n as int) =~= all);
        }
        assert(sizes@ + Seq::<usize>::empty() =~= sizes@);
    }
    if sizes.len() < MIN_SAMPLES {
        return Err(ClmError::InsufficientSubChunks);
    }
    Ok(TrainingSamples { data, sizes })
}

/// The size of the dictionary buffer for a shard: the shard's scaled
/// length, and never under 256 bytes.
pub fn dictionary_buffer_size(scaled_length: usize) -> (size: usize)
    ensures
        size >= MIN_BUFFER_SIZE,
        size == if scaled_length > MIN_BUFFER_SIZE {
            scaled_length
        } else {
            MIN_BUFFER_SIZE
        },
{
    if scaled_length > MIN_BUFFER_SIZE {
        scaled_length
    } else {
        MIN_BUFFER_SIZE
    }
}

/// Refuses a dictionary buffer of under 256 bytes.
pub fn check_buffer_size(size: usize) -> (r: Result<(), ClmError>)
    ensures
        r is Ok <==> size >= MIN_BUFFER_SIZE,
        r is Err ==> r == Err::<(), ClmError>(ClmError::BufferTooSmall),
{
    if size < MIN_BUFFER_SIZE {
        Err(ClmError::BufferTooSmall)
    } else {
        Ok(())
    }
}

} // verus!
