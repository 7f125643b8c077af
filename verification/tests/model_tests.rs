use chatclm::clm::likelihoods::Likelihoods;
use chatclm::clm::ngram_model::{count_tokens, BigramModel, UnigramModel};
use chatclm::clm::tokenizer::Token;
use chatclm::clm::training_options::TrainingOptions;
use chatclm::clm::uniform_model::UniformModel;
use std::collections::HashMap;

/// Renders the exact fractions of a distribution as single-precision
/// probabilities.
fn probabilities(likelihoods: &Likelihoods) -> HashMap<Token, f32> {
    let mut out = HashMap::new();
    let denominator = likelihoods.get_denominator() as f32;
    for i in 0..likelihoods.len() {
        out.insert(likelihoods.token_at(i).clone(), likelihoods.weight_at(i) as f32 / denominator);
    }
    out
}

fn sum(probabilities: &HashMap<Token, f32>) -> f32 {
    probabilities.values().sum()
}

#[test]
fn test_bigram_model_training() {
    let tokens: Vec<Token> = vec![
        vec![1],
        vec![2],
        vec![3],
        vec![1],
        vec![2],
        vec![4],
        vec![1],
        vec![2],
    ];

    let model = BigramModel::train(tokens.clone(), TrainingOptions::default());

    assert_eq!(model.transition(&vec![1], &vec![2]).unwrap(), 3);
    assert_eq!(model.transition(&vec![2], &vec![3]).unwrap(), 1);
    assert_eq!(model.transition(&vec![2], &vec![4]).unwrap(), 1);
}

#[test]
fn test_unigram_model_training() {
    let tokens: Vec<Token> = vec![vec![1], vec![2], vec![3], vec![1], vec![2], vec![1]];

    let model = UnigramModel::train(tokens.clone(), TrainingOptions::default());

    assert_eq!(model.count(&vec![1]).unwrap(), 3);
    assert_eq!(model.count(&vec![2]).unwrap(), 2);
    assert_eq!(model.count(&vec![3]).unwrap(), 1);
    assert_eq!(model.total_tokens(), 6);
}

#[test]
fn test_unigram_model_prediction() {
    let tokens: Vec<Token> = vec![vec![1], vec![2], vec![3], vec![1], vec![2], vec![1]];

    let model = UnigramModel::train(tokens.clone(), TrainingOptions::default());

    let all_possible_tokens = vec![vec![1], vec![2], vec![3]];
    let likelihoods =
        probabilities(&model.compute_likelihoods(vec![vec![100]], &all_possible_tokens).unwrap());

    assert!(likelihoods.get(&vec![1]).unwrap() > likelihoods.get(&vec![2]).unwrap());
    assert!(likelihoods.get(&vec![2]).unwrap() > likelihoods.get(&vec![3]).unwrap());

    let likelihoods2 =
        probabilities(&model.compute_likelihoods(vec![vec![1]], &all_possible_tokens).unwrap());
    assert_eq!(likelihoods, likelihoods2);
}

#[test]
fn test_uniform_distribution() {
    let tokens: Vec<Token> = vec![vec![1, 2, 3], vec![4, 5, 6], vec![7, 8, 9]];

    let model = UniformModel::train(vec![], TrainingOptions::default());

    let likelihoods = probabilities(&model.compute_likelihoods(vec![], &tokens));

    assert_eq!(likelihoods.len(), tokens.len());

    let expected_prob = 1.0 / tokens.len() as f32;
    for token in &tokens {
        assert_eq!(likelihoods.get(token), Some(&expected_prob));
    }

    let sum: f32 = likelihoods.values().sum();
    assert!((sum - 1.0).abs() < 1e-6);
}

#[test]
fn uniform_weights_are_one_over_the_number_of_tokens() {
    let tokens: Vec<Token> = vec![vec![1], vec![2], vec![3], vec![4]];
    let model = UniformModel::train(vec![vec![9]], TrainingOptions::default());
    for prefix in [vec![], vec![vec![1]], vec![vec![7], vec![8]]] {
        let likelihoods = model.compute_likelihoods(prefix, &tokens);
        assert_eq!(likelihoods.get_denominator(), 4);
        assert_eq!(likelihoods.len(), 4);
        for token in &tokens {
            assert_eq!(likelihoods.get(token), Some(1));
        }
        assert_eq!(likelihoods.get(&vec![5]), None);
    }
}

#[test]
fn uniform_model_keeps_one_entry_for_a_repeated_token() {
    let tokens: Vec<Token> = vec![vec![1], vec![2], vec![1]];
    let likelihoods = UniformModel::train(vec![], TrainingOptions::default())
        .compute_likelihoods(vec![], &tokens);
    assert_eq!(likelihoods.len(), 2);
    assert_eq!(likelihoods.get_denominator(), 3);
    assert_eq!(likelihoods.token_at(0), &vec![1]);
    assert_eq!(likelihoods.token_at(1), &vec![2]);
}

#[test]
fn uniform_model_on_no_tokens_is_empty() {
    let likelihoods =
        UniformModel::train(vec![], TrainingOptions::default()).compute_likelihoods(vec![], &[]);
    assert_eq!(likelihoods.len(), 0);
}

#[test]
fn unigram_weights_are_the_counts() {
    let tokens: Vec<Token> = vec![vec![1], vec![2], vec![3], vec![1], vec![2], vec![1]];
    let model = UnigramModel::train(tokens, TrainingOptions::default());
    let vocabulary = vec![vec![3], vec![1], vec![2]];
    let likelihoods = model.compute_likelihoods(vec![], &vocabulary).unwrap();
    assert_eq!(likelihoods.get_denominator(), 6);
    assert_eq!(likelihoods.get(&vec![1]), Some(3));
    assert_eq!(likelihoods.get(&vec![2]), Some(2));
    assert_eq!(likelihoods.get(&vec![3]), Some(1));
    assert_eq!(likelihoods.token_at(0), &vec![3]);
    let rendered = probabilities(&likelihoods);
    assert_eq!(rendered[&vec![1]], 0.5);
    assert!((sum(&rendered) - 1.0).abs() < 1e-3);
}

#[test]
fn unigram_fails_on_a_token_never_seen() {
    let model = UnigramModel::train(vec![vec![1], vec![2]], TrainingOptions::default());
    assert_eq!(model.compute_likelihoods(vec![], &[vec![1], vec![5]]), None);
    assert_eq!(model.count(&vec![5]), None);
}

#[test]
fn unigram_without_training_data_is_uniform() {
    let model = UnigramModel::train(vec![], TrainingOptions::default());
    assert_eq!(model.total_tokens(), 0);
    let likelihoods = model.compute_likelihoods(vec![], &[vec![1], vec![5]]).unwrap();
    assert_eq!(likelihoods.get(&vec![1]), Some(1));
    assert_eq!(likelihoods.get(&vec![5]), Some(1));
    assert_eq!(likelihoods.get_denominator(), 2);
    let rendered = probabilities(&likelihoods);
    assert_eq!(rendered[&vec![1]], 0.5);
}

#[test]
fn bigram_counts_every_transition() {
    let tokens: Vec<Token> = [1u8, 2, 3, 1, 2, 4, 1, 2].iter().map(|b| vec![*b]).collect();
    let model = BigramModel::train(tokens, TrainingOptions::default());
    assert_eq!(model.transition(&vec![1], &vec![2]), Some(3));
    assert_eq!(model.transition(&vec![2], &vec![3]), Some(1));
    assert_eq!(model.transition(&vec![2], &vec![4]), Some(1));
    assert_eq!(model.transition(&vec![3], &vec![1]), Some(1));
    assert_eq!(model.transition(&vec![4], &vec![1]), Some(1));
    assert_eq!(model.transition(&vec![1], &vec![3]), None);
    assert_eq!(model.transition(&vec![9], &vec![1]), None);
}

#[test]
fn bigram_smooths_seen_and_unseen_transitions() {
    let tokens: Vec<Token> = [1u8, 2, 3, 1, 2, 4, 1, 2].iter().map(|b| vec![*b]).collect();
    let model = BigramModel::train(tokens, TrainingOptions::default());
    let vocabulary: Vec<Token> = vec![vec![1], vec![2], vec![3], vec![4]];
    // After 2 the row holds 3 -> 1 and 4 -> 1, two transitions in all.
    let likelihoods = model.compute_likelihoods(vec![vec![7], vec![2]], &vocabulary);
    assert_eq!(likelihoods.get_denominator(), 4 * 61);
    assert_eq!(likelihoods.get(&vec![3]), Some(61));
    assert_eq!(likelihoods.get(&vec![4]), Some(61));
    // Never seen after 2: the rounded-down share 2 / 4, plus one, plus 60.
    assert_eq!(likelihoods.get(&vec![1]), Some(61));
    assert_eq!(likelihoods.get(&vec![2]), Some(61));
    // After 1 the row holds 2 -> 3, three transitions in all.
    let after_one = model.compute_likelihoods(vec![vec![1]], &vocabulary[..2]);
    assert_eq!(after_one.get(&vec![2]), Some(63));
    assert_eq!(after_one.get(&vec![1]), Some(3 / 2 + 1 + 60));
    assert_eq!(after_one.get_denominator(), 63 + 62);
    let rendered = probabilities(&after_one);
    assert!((sum(&rendered) - 1.0).abs() < 1e-3);
    assert!(rendered[&vec![2]] > rendered[&vec![1]]);
}

#[test]
fn bigram_falls_back_to_uniform() {
    let tokens: Vec<Token> = [1u8, 2, 3].iter().map(|b| vec![*b]).collect();
    let model = BigramModel::train(tokens, TrainingOptions::default());
    let vocabulary: Vec<Token> = vec![vec![1], vec![2]];
    // 3 has no successor in training; 9 was never seen; the prefix may be empty.
    for prefix in [vec![vec![3]], vec![vec![9]], vec![]] {
        let likelihoods = model.compute_likelihoods(prefix, &vocabulary);
        assert_eq!(likelihoods.get(&vec![1]), Some(1));
        assert_eq!(likelihoods.get(&vec![2]), Some(1));
        assert_eq!(likelihoods.get_denominator(), 2);
        assert_eq!(probabilities(&likelihoods)[&vec![1]], 0.5);
    }
}

#[test]
fn bigram_trains_on_short_streams() {
    for tokens in [vec![], vec![vec![1u8]]] {
        let model = BigramModel::train(tokens, TrainingOptions::default());
        assert_eq!(model.transition(&vec![1], &vec![1]), None);
    }
}

#[test]
fn models_give_the_same_result_on_the_same_input() {
    let tokens: Vec<Token> = [1u8, 2, 3, 1, 2, 4, 1, 2].iter().map(|b| vec![*b]).collect();
    let vocabulary: Vec<Token> = vec![vec![1], vec![2], vec![3], vec![4]];
    let first = BigramModel::train(tokens.clone(), TrainingOptions::default());
    let second = BigramModel::train(tokens.clone(), TrainingOptions::default());
    assert_eq!(first, second);
    assert_eq!(
        first.compute_likelihoods(vec![vec![1]], &vocabulary),
        second.compute_likelihoods(vec![vec![1]], &vocabulary)
    );
    assert_eq!(
        UnigramModel::train(tokens.clone(), TrainingOptions::default()),
        UnigramModel::train(tokens, TrainingOptions::default())
    );
}

#[test]
fn tokens_are_counted_in_order_of_first_occurrence() {
    let tokens: Vec<Token> = vec![vec![2], vec![1], vec![2], vec![3], vec![2]];
    let counts = count_tokens(&tokens);
    assert_eq!(counts.len(), 3);
    assert_eq!((counts.key_at(0), counts.value_at(0)), (&vec![2], &3));
    assert_eq!((counts.key_at(1), counts.value_at(1)), (&vec![1], &1));
    assert_eq!((counts.key_at(2), counts.value_at(2)), (&vec![3], &1));
    assert_eq!(count_tokens(&[]).len(), 0);
}

#[test]
fn a_repeated_token_is_scored_once() {
    let tokens: Vec<Token> = vec![vec![1], vec![2], vec![1], vec![1]];
    let model = UnigramModel::train(tokens.clone(), TrainingOptions::default());
    let likelihoods = model.compute_likelihoods(vec![], &[vec![2], vec![1], vec![2]]).unwrap();
    assert_eq!(likelihoods.len(), 2);
    assert_eq!(likelihoods.token_at(0), &vec![2]);
    assert_eq!(likelihoods.weight_at(0), 1);
    assert_eq!(likelihoods.token_at(1), &vec![1]);
    assert_eq!(likelihoods.weight_at(1), 3);
    assert_eq!(likelihoods.get_denominator(), 4);
    let bigram = BigramModel::train(tokens, TrainingOptions::default());
    let after = bigram.compute_likelihoods(vec![vec![1]], &[vec![2], vec![1], vec![2]]);
    // After 1: 1 -> 2 once, 1 -> 1 once; three tokens are scored.
    assert_eq!(after.get(&vec![2]), Some(61));
    assert_eq!(after.get(&vec![1]), Some(61));
    assert_eq!(after.get_denominator(), 122);
}
