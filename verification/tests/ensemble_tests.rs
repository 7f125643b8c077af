use chatclm::clm::clm_model::{
    candidate_bytes, context_bytes, plan_shards, score_totals, scoring_streams, shard_size,
    ClmModel, CompressedSizes,
};
use chatclm::clm::error::ClmError;
use chatclm::clm::evaluate::{evaluation_case, ground_truth_weight, scored_positions};
use chatclm::clm::likelihoods::Likelihoods;
use chatclm::clm::persistence::{run_file_name, select_model, text_contains};
use chatclm::clm::token_map::{same_token, TokenMap};
use chatclm::clm::tokenizer::Token;
use chatclm::clm::trainer::{
    check_buffer_size, dictionary_buffer_size, flatten_tokens, prepare_samples,
};
use chatclm::clm::training_options::{TrainingOptions, EVALUATION_REGULARIZATION_BITS};

fn stream(n: usize) -> Vec<Token> {
    (0..n).map(|i| vec![i as u8, (i / 256) as u8]).collect()
}

#[test]
fn shard_size_rounds_up() {
    assert_eq!(shard_size(10, 4), 3);
    assert_eq!(shard_size(12, 4), 3);
    assert_eq!(shard_size(1, 15), 1);
    assert_eq!(shard_size(0, 15), 0);
    assert_eq!(shard_size(7, 0), 7);
    assert_eq!(shard_size(usize::MAX, 1), usize::MAX);
    assert_eq!(shard_size(usize::MAX, 2), usize::MAX / 2 + 1);
}

#[test]
fn shards_are_contiguous_and_in_order() {
    assert_eq!(plan_shards(10, 4), Ok(vec![(0, 3), (3, 6), (6, 9), (9, 10)]));
    assert_eq!(plan_shards(12, 4), Ok(vec![(0, 3), (3, 6), (6, 9), (9, 12)]));
    assert_eq!(plan_shards(5, 4), Ok(vec![(0, 2), (2, 4), (4, 5)]));
    assert_eq!(plan_shards(3, 1), Ok(vec![(0, 3)]));
    assert_eq!(plan_shards(3, 0), Ok(vec![(0, 3)]));
    assert_eq!(plan_shards(2, 2), Ok(vec![(0, 1), (1, 2)]));
}

#[test]
fn a_stream_without_tokens_has_no_shards() {
    assert_eq!(plan_shards(0, 4), Err(ClmError::EmptyShard));
    assert_eq!(plan_shards(0, 0), Err(ClmError::EmptyShard));
}

#[test]
fn context_is_the_tail_of_the_prefix() {
    let prefix: Vec<Token> = vec![vec![1, 2], vec![3, 4], vec![5, 6]];
    assert_eq!(context_bytes(&prefix, 2), vec![3, 4, 5, 6]);
    assert_eq!(context_bytes(&prefix, 3), vec![1, 2, 3, 4, 5, 6]);
    assert_eq!(context_bytes(&prefix, 10), vec![1, 2, 3, 4, 5, 6]);
    assert_eq!(context_bytes(&prefix, 0), Vec::<u8>::new());
    assert_eq!(context_bytes(&[], 4), Vec::<u8>::new());
}

#[test]
fn candidate_stream_appends_the_candidate() {
    let context = vec![3u8, 4, 5, 6];
    assert_eq!(candidate_bytes(&context, &vec![9, 9]), vec![3, 4, 5, 6, 9, 9]);
    assert_eq!(candidate_bytes(&Vec::new(), &vec![7]), vec![7]);
    assert_eq!(candidate_bytes(&context, &Vec::new()), context);
}

#[test]
fn model_context_uses_its_window() {
    let mut options = TrainingOptions::default();
    options.context_window = 1;
    let model = ClmModel::from_dictionaries(vec![vec![1, 2, 3]], options);
    assert_eq!(model.context_bytes(&[vec![1, 2], vec![3, 4]]), vec![3, 4]);
    assert_eq!(model.ensemble_len(), 1);
    assert_eq!(model.dictionary(0), &vec![1, 2, 3]);
}

#[test]
fn dictionaries_survive_persistence() {
    let dictionaries = vec![vec![0u8, 1, 255], vec![], vec![42]];
    let model = ClmModel::from_dictionaries(dictionaries.clone(), TrainingOptions::default());
    let text = model.to_save_string();
    assert_eq!(text, "[[0,1,255],[],[42]]");
    let loaded = ClmModel::load_from_string(text, TrainingOptions::default()).unwrap();
    assert_eq!(loaded, model);
    assert_eq!(loaded.ensemble_len(), 3);
    for (i, dictionary) in dictionaries.iter().enumerate() {
        assert_eq!(loaded.dictionary(i), dictionary);
    }
}

#[test]
fn malformed_dictionaries_are_a_parse_error() {
    for text in ["", "[[1,2", "{\"a\":1}", "[[256]]", "[1,2]", "[[-1]]"] {
        assert_eq!(
            ClmModel::load_from_string(text.to_string(), TrainingOptions::default()),
            Err(ClmError::ParseError)
        );
    }
    let empty = ClmModel::load_from_string("[]".to_string(), TrainingOptions::default()).unwrap();
    assert_eq!(empty.ensemble_len(), 0);
}

#[test]
fn regularization_can_be_overridden_after_loading() {
    let mut model = ClmModel::from_dictionaries(vec![vec![1]], TrainingOptions::default());
    model.set_regularization_bits(0.15f64.to_bits());
    let mut expected = TrainingOptions::default();
    expected.regularization_bits = 0.15f64.to_bits();
    assert_eq!(model.training_options(), &expected);
    assert_eq!(model.dictionary(0), &vec![1]);
}

#[test]
fn samples_cover_the_shard() {
    let tokens = stream(11);
    let samples = prepare_samples(&tokens, 2).unwrap();
    assert_eq!(samples.sizes, vec![4, 4, 4, 4, 4, 2]);
    assert_eq!(samples.data, flatten_tokens(&tokens));
    assert_eq!(samples.data.len(), 22);
    assert_eq!(samples.sizes.iter().sum::<usize>(), samples.data.len());
    assert_eq!(&samples.data[..4], &[0, 0, 1, 0]);
}

#[test]
fn samples_of_uneven_tokens_are_measured_in_bytes() {
    let tokens: Vec<Token> =
        vec![vec![1], vec![2, 2], vec![], vec![3, 3, 3], vec![4], vec![5], vec![6, 6]];
    let samples = prepare_samples(&tokens, 1).unwrap();
    assert_eq!(samples.sizes, vec![1, 2, 0, 3, 1, 1, 2]);
    let pairs = prepare_samples(&tokens[..], 2);
    assert_eq!(pairs, Err(ClmError::InsufficientSubChunks));
}

#[test]
fn five_samples_are_enough_and_four_are_not() {
    assert!(prepare_samples(&stream(5), 1).is_ok());
    assert_eq!(prepare_samples(&stream(4), 1), Err(ClmError::InsufficientSubChunks));
    assert_eq!(prepare_samples(&stream(1280), 256).unwrap().sizes, vec![512; 5]);
    assert_eq!(prepare_samples(&stream(1024), 256), Err(ClmError::InsufficientSubChunks));
    assert_eq!(prepare_samples(&stream(1025), 256).unwrap().sizes, vec![512, 512, 512, 512, 2]);
    assert_eq!(prepare_samples(&stream(9), 0), Err(ClmError::InsufficientSubChunks));
}

#[test]
fn an_empty_shard_is_refused() {
    assert_eq!(prepare_samples(&[], 256), Err(ClmError::EmptyShard));
    assert_eq!(prepare_samples(&[], 0), Err(ClmError::EmptyShard));
}

#[test]
fn dictionary_buffer_is_never_under_256_bytes() {
    assert_eq!(dictionary_buffer_size(0), 256);
    assert_eq!(dictionary_buffer_size(255), 256);
    assert_eq!(dictionary_buffer_size(256), 256);
    assert_eq!(dictionary_buffer_size(257), 257);
    assert_eq!(dictionary_buffer_size(80_000), 80_000);
    assert_eq!(check_buffer_size(255), Err(ClmError::BufferTooSmall));
    assert_eq!(check_buffer_size(256), Ok(()));
}

#[test]
fn evaluation_scores_from_the_33rd_token_on() {
    assert_eq!(scored_positions(0), 0);
    assert_eq!(scored_positions(32), 0);
    assert_eq!(scored_positions(33), 1);
    assert_eq!(scored_positions(100), 68);
    let tokens = stream(40);
    assert_eq!(evaluation_case(&tokens, 31), None);
    assert_eq!(evaluation_case(&tokens, 40), None);
    let first = evaluation_case(&tokens, 32).unwrap();
    assert_eq!(first.prefix, tokens[..31].to_vec());
    assert_eq!(first.truth, tokens[32]);
    let last = evaluation_case(&tokens, 39).unwrap();
    assert_eq!(last.prefix, tokens[..38].to_vec());
    assert_eq!(last.truth, tokens[39]);
}

#[test]
fn a_distribution_without_the_truth_is_a_violation() {
    let mut weights: TokenMap<u128> = TokenMap::new();
    weights.insert(vec![1], 3);
    weights.insert(vec![2], 5);
    let likelihoods = Likelihoods::from_weights(weights, 8);
    assert_eq!(likelihoods.get_denominator(), 8);
    assert_eq!(ground_truth_weight(&likelihoods, &vec![2]), Ok(5));
    assert_eq!(ground_truth_weight(&likelihoods, &vec![3]), Err(ClmError::DistributionViolation));
}

#[test]
fn token_map_keeps_insertion_order_and_overwrites() {
    let mut map: TokenMap<u32> = TokenMap::new();
    assert_eq!(map.len(), 0);
    map.insert(vec![2], 20);
    map.insert(vec![1], 10);
    map.insert(vec![2], 21);
    assert_eq!(map.len(), 2);
    assert_eq!(map.key_at(0), &vec![2]);
    assert_eq!(map.value_at(0), &21);
    assert_eq!(map.key_at(1), &vec![1]);
    assert_eq!(map.get(&vec![1]), Some(&10));
    assert_eq!(map.get(&vec![3]), None);
    assert_eq!(map.position(&vec![1]), Some(1));
    assert!(map.contains_key(&vec![2]));
    assert!(!map.contains_key(&vec![]));
    assert!(same_token(&vec![1, 2], &vec![1, 2]));
    assert!(!same_token(&vec![1, 2], &vec![1]));
    assert!(!same_token(&vec![1, 2], &vec![1, 3]));
}

#[test]
fn the_last_matching_file_is_selected() {
    let names: Vec<String> = ["2024-01-01T00-00-00-alpha.json", "notes.txt", "2024-02-01T00-00-00-alpha.json", "beta.json"]
        .iter()
        .map(|s| s.to_string())
        .collect();
    assert_eq!(select_model(&names, "alpha"), Ok(2));
    assert_eq!(select_model(&names, "beta"), Ok(3));
    assert_eq!(select_model(&names, "2024-01"), Ok(0));
    assert_eq!(select_model(&names, ""), Ok(3));
    assert_eq!(select_model(&names, "gamma"), Err(ClmError::UnknownModel));
    assert_eq!(select_model(&Vec::new(), "alpha"), Err(ClmError::UnknownModel));
}

#[test]
fn text_contains_finds_substrings() {
    assert!(text_contains("hello world", "lo w"));
    assert!(text_contains("hello", "hello"));
    assert!(text_contains("hello", ""));
    assert!(text_contains("", ""));
    assert!(text_contains("aab", "ab"));
    assert!(text_contains("\u{e9}t\u{e9}", "t\u{e9}"));
    assert!(!text_contains("hello", "hello!"));
    assert!(!text_contains("", "a"));
    assert!(!text_contains("abc", "ac"));
}

#[test]
fn run_file_names_join_stamp_and_model() {
    assert_eq!(
        run_file_name("2024-05-06T07-08-09", "without-id"),
        "2024-05-06T07-08-09-without-id.json"
    );
    let mut options = TrainingOptions::default();
    assert_eq!(options.model_name(), "enwik9_token_size_6");
    options.model_id = None;
    assert_eq!(options.model_name(), "without-id");
}

#[test]
fn default_options() {
    let options = TrainingOptions::default();
    assert_eq!(options.d, 8);
    assert_eq!(options.f, 16);
    assert_eq!(options.k, 6078);
    assert_eq!(options.steps, 0);
    assert_eq!(options.nb_threads, 12);
    assert_eq!(f64::from_bits(options.split_point_bits), 1.0);
    assert_eq!(options.accel, 1);
    assert_eq!(options.shrink_dict, 1);
    assert_eq!(options.shrink_dict_max_regression, 3);
    assert_eq!(options.train_compression_level, 21);
    assert_eq!(f64::from_bits(options.dictionary_size_percentage_bits), 0.08);
    assert_eq!(options.ensemble_size, 15);
    assert_eq!(options.training_chunk_size, 256);
    assert_eq!(options.token_count, 210);
    assert_eq!(options.token_byte_size, 5);
    assert_eq!(options.context_window, 32);
    assert_eq!(f64::from_bits(options.dataset_percentage_bits), 1.0);
    assert_eq!(f64::from_bits(options.regularization_bits), 0.0);
    assert_eq!(options.model_id.as_deref(), Some("enwik9_token_size_6"));
    assert_eq!(options.training_file, "data/enwik9");
    assert_eq!(options.test_file, "test.txt");
    assert_eq!(f64::from_bits(options.inference_basis_bits), 1.55);
}

#[test]
fn every_error_has_a_message() {
    let all = [
        ClmError::InputMissing,
        ClmError::ParseError,
        ClmError::EmptyShard,
        ClmError::InsufficientSubChunks,
        ClmError::BufferTooSmall,
        ClmError::CompressionPrimitiveError,
        ClmError::DistributionViolation,
        ClmError::UnknownModel,
    ];
    for (i, error) in all.iter().enumerate() {
        assert!(!error.message().is_empty());
        for other in &all[i + 1..] {
            assert_ne!(error.message(), other.message());
        }
    }
}

#[test]
fn scoring_streams_start_with_the_context() {
    let prefix: Vec<Token> = vec![vec![1, 2], vec![3, 4], vec![5, 6]];
    let candidates: Vec<Token> = vec![vec![7, 7], vec![8, 8]];
    let streams = scoring_streams(&prefix, &candidates, 2);
    assert_eq!(streams, vec![vec![3, 4, 5, 6], vec![3, 4, 5, 6, 7, 7], vec![3, 4, 5, 6, 8, 8]]);
    assert_eq!(scoring_streams(&prefix, &[], 2), vec![vec![3, 4, 5, 6]]);
    assert_eq!(scoring_streams(&[], &candidates, 2), vec![vec![], vec![7, 7], vec![8, 8]]);
}

#[test]
fn score_totals_sum_over_the_ensemble() {
    let sizes = vec![
        CompressedSizes { base: 10, candidates: vec![12, 9, 10] },
        CompressedSizes { base: 20, candidates: vec![25, 20, 18] },
    ];
    let totals = score_totals(&sizes, 3);
    assert_eq!(totals.dictionaries, 2);
    assert_eq!(totals.base_total, 30);
    assert_eq!(totals.candidate_totals, vec![37, 29, 28]);
    // Average increments: 3.5, -0.5 and -1.
    let scores: Vec<f64> = totals
        .candidate_totals
        .iter()
        .map(|total| (*total as f64 - totals.base_total as f64) / totals.dictionaries as f64)
        .collect();
    assert_eq!(scores, vec![3.5, -0.5, -1.0]);
}

#[test]
fn score_totals_do_not_overflow() {
    let sizes = vec![
        CompressedSizes { base: usize::MAX, candidates: vec![usize::MAX] },
        CompressedSizes { base: usize::MAX, candidates: vec![usize::MAX] },
        CompressedSizes { base: 1, candidates: vec![0] },
    ];
    let totals = score_totals(&sizes, 1);
    assert_eq!(totals.base_total, 2 * usize::MAX as u128 + 1);
    assert_eq!(totals.candidate_totals, vec![2 * usize::MAX as u128]);
    let empty = score_totals(&Vec::new(), 2);
    assert_eq!(empty.dictionaries, 0);
    assert_eq!(empty.base_total, 0);
    assert_eq!(empty.candidate_totals, vec![0, 0]);
}

#[test]
fn dictionaries_are_written_as_arrays_of_decimal_numbers() {
    let all_bytes: Vec<u8> = (0..=255).collect();
    let dictionaries = vec![all_bytes.clone(), vec![], vec![7], vec![10, 99, 100, 9]];
    let model = ClmModel::from_dictionaries(dictionaries.clone(), TrainingOptions::default());
    let text = model.to_save_string();
    let expected: Vec<String> = dictionaries
        .iter()
        .map(|d| {
            let numbers: Vec<String> = d.iter().map(|b| format!("{}", b)).collect();
            format!("[{}]", numbers.join(","))
        })
        .collect();
    assert_eq!(text, format!("[{}]", expected.join(",")));
    assert!(text.starts_with("[[0,1,2,3,4,5,6,7,8,9,10,11,"));
    assert!(text.ends_with(",254,255],[],[7],[10,99,100,9]]"));
    let empty = ClmModel::from_dictionaries(Vec::new(), TrainingOptions::default());
    assert_eq!(empty.to_save_string(), "[]");
    let one_empty = ClmModel::from_dictionaries(vec![vec![]], TrainingOptions::default());
    assert_eq!(one_empty.to_save_string(), "[[]]");
}

#[test]
fn loading_inverts_saving() {
    let all_bytes: Vec<u8> = (0..=255).collect();
    for dictionaries in [
        vec![],
        vec![vec![]],
        vec![vec![], vec![]],
        vec![all_bytes.clone()],
        vec![vec![0], all_bytes, vec![255, 0, 100]],
    ] {
        let model = ClmModel::from_dictionaries(dictionaries.clone(), TrainingOptions::default());
        let loaded =
            ClmModel::load_from_string(model.to_save_string(), TrainingOptions::default()).unwrap();
        assert_eq!(loaded, model);
        assert_eq!(loaded.ensemble_len(), dictionaries.len());
        for (i, dictionary) in dictionaries.iter().enumerate() {
            assert_eq!(loaded.dictionary(i), dictionary);
        }
    }
}

#[test]
fn evaluation_smoothing_is_fifteen_hundredths() {
    assert_eq!(f64::from_bits(EVALUATION_REGULARIZATION_BITS), 0.15);
}
