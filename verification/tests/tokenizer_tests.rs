use chatclm::clm::tokenizer::{fragment_hash, token_code, Tokenizer};
use std::collections::hash_map::DefaultHasher;
use std::hash::{Hash, Hasher};

fn std_code(content: &str, size: usize) -> Vec<u8> {
    let mut hasher = DefaultHasher::new();
    content.hash(&mut hasher);
    let hash = hasher.finish();
    (0..size).map(|i| ((hash >> (i * 8)) & 0xFF) as u8).collect()
}

fn trained(text: &str, size: usize, vocab: usize) -> Tokenizer {
    let mut tokenizer = Tokenizer::new(size);
    tokenizer.train(text, vocab);
    tokenizer
}

#[test]
fn new_tokenizer_is_empty() {
    let tokenizer = Tokenizer::new(5);
    assert!(tokenizer.get_str_tokens().is_empty());
    assert!(tokenizer.get_tokens().is_empty());
    assert!(tokenizer.merges().is_empty());
    assert_eq!(tokenizer.vocab_size(), 0);
    assert_eq!(tokenizer.token_byte_size(), 5);
}

#[test]
fn digest_is_that_of_hashing_the_string() {
    for content in ["", "a", "ab", "abab", "hello world", "e."] {
        let mut hasher = DefaultHasher::new();
        content.hash(&mut hasher);
        assert_eq!(fragment_hash(content), hasher.finish());
    }
}

#[test]
fn token_code_takes_low_bytes_first() {
    let hash = fragment_hash("ab");
    assert_eq!(token_code("ab", 2), vec![(hash & 0xFF) as u8, ((hash >> 8) & 0xFF) as u8]);
    assert_eq!(token_code("ab", 8), hash.to_le_bytes().to_vec());
    assert_eq!(token_code("ab", 0), Vec::<u8>::new());
    assert_eq!(token_code("ab", 5), std_code("ab", 5));
    let tokenizer = Tokenizer::new(3);
    assert_eq!(tokenizer.compute_token_code("xyz", 3), std_code("xyz", 3));
}

#[test]
fn training_on_ababab_merges_ab_then_abab() {
    let tokenizer = trained("ababab", 2, 4);
    assert_eq!(tokenizer.get_str_tokens(), vec!["a", "b", "ab", "abab"]);
    let merges = tokenizer.merges();
    assert_eq!(
        merges,
        vec![("a".to_string(), "b".to_string()), ("ab".to_string(), "ab".to_string())]
    );
    let codes = tokenizer.get_tokens();
    assert_eq!(codes.len(), 4);
    for code in &codes {
        assert_eq!(code.len(), 2);
    }
    assert_eq!(codes[2], std_code("ab", 2));
    assert_eq!(codes[3], std_code("abab", 2));
    assert_eq!(tokenizer.vocab_size(), 4);
}

#[test]
fn training_with_small_target_keeps_the_characters() {
    let tokenizer = trained("hello", 4, 2);
    assert_eq!(tokenizer.get_str_tokens(), vec!["h", "e", "l", "o"]);
    assert!(tokenizer.merges().is_empty());
}

#[test]
fn training_stops_when_no_pair_is_left() {
    let tokenizer = trained("ab", 4, 100);
    assert_eq!(tokenizer.get_str_tokens(), vec!["a", "b", "ab"]);
    assert_eq!(tokenizer.merges().len(), 1);
    let empty = trained("", 4, 10);
    assert!(empty.get_str_tokens().is_empty());
}

#[test]
fn training_never_merges_across_a_space() {
    let tokenizer = trained("a b a b a b", 4, 50);
    for fragment in tokenizer.get_str_tokens() {
        let inner = &fragment[..fragment.len() - 1];
        assert!(!inner.contains(' '), "{:?} joins two words", fragment);
    }
    assert!(tokenizer.get_str_tokens().contains(&"a ".to_string()));
}

#[test]
fn ties_go_to_the_older_left_fragment() {
    // "ab" and "cd" both occur twice; "a" is older than "c".
    let tokenizer = trained("abcdabcd", 4, 5);
    assert_eq!(tokenizer.get_str_tokens(), vec!["a", "b", "c", "d", "ab"]);
}

#[test]
fn training_twice_appends_merges_and_replaces_the_vocabulary() {
    let mut tokenizer = Tokenizer::new(4);
    tokenizer.train("abab", 3);
    tokenizer.train("cdcd", 3);
    assert_eq!(tokenizer.get_str_tokens(), vec!["c", "d", "cd"]);
    assert_eq!(
        tokenizer.merges(),
        vec![("a".to_string(), "b".to_string()), ("c".to_string(), "d".to_string())]
    );
}

#[test]
fn training_reads_at_most_fifty_thousand_characters() {
    let mut text = "a".repeat(50_000);
    text.push_str("zz");
    let tokenizer = trained(&text, 4, 1);
    assert_eq!(tokenizer.get_str_tokens(), vec!["a"]);
}

#[test]
fn greedy_longest_match() {
    let tokenizer = trained("ab", 4, 3);
    assert_eq!(tokenizer.get_str_tokens(), vec!["a", "b", "ab"]);
    assert_eq!(tokenizer.encode_fast("ab".to_string()), vec![std_code("ab", 4)]);
    assert_eq!(
        tokenizer.encode_fast("aab".to_string()),
        vec![std_code("a", 4), std_code("ab", 4)]
    );
    assert_eq!(
        tokenizer.encode_fast_opt("ba".to_string(), true),
        vec![std_code("b", 4), std_code("a", 4)]
    );
}

#[test]
fn encoding_skips_unseen_characters() {
    let tokenizer = trained("ab", 4, 3);
    assert_eq!(
        tokenizer.encode_fast("axb".to_string()),
        vec![std_code("a", 4), std_code("b", 4)]
    );
    assert!(tokenizer.encode_fast("xyz".to_string()).is_empty());
    assert!(tokenizer.encode_fast(String::new()).is_empty());
}

#[test]
fn every_emitted_code_is_in_the_vocabulary() {
    let tokenizer = trained("the quick brown fox jumps over the lazy dog. the end!", 5, 40);
    let vocabulary = tokenizer.get_tokens();
    for code in tokenizer.encode_fast("The lazy fox, the quick dog? Zebra!".to_string()) {
        assert!(vocabulary.contains(&code));
    }
}

#[test]
fn decode_inverts_encode_on_trained_text() {
    let text = "the quick brown fox jumps over the lazy dog. the end!";
    let tokenizer = trained(text, 8, 40);
    let codes = tokenizer.encode_fast(text.to_string());
    assert_eq!(tokenizer.decode(&codes), text);
    let other = "the dog jumps over the fox!";
    assert_eq!(tokenizer.decode(&tokenizer.encode_fast(other.to_string())), other);
}

#[test]
fn decode_marks_unknown_codes() {
    let tokenizer = trained("ab", 4, 3);
    let unknown = vec![1u8, 2, 3];
    let codes = vec![std_code("ab", 4), unknown.clone(), std_code("a", 4)];
    assert_eq!(tokenizer.decode(&codes), "ab[UNK]a");
    assert_eq!(tokenizer.decode(&[]), "");
    assert_eq!(tokenizer.decode(&[unknown]), "[UNK]");
}

#[test]
fn decode_with_delimiters_puts_a_middle_dot_between_tokens() {
    let tokenizer = trained("ab", 4, 3);
    let codes = vec![std_code("a", 4), std_code("ab", 4), vec![9u8]];
    assert_eq!(tokenizer.decode_with_delimiters(&codes), "a\u{b7}ab\u{b7}[UNK]");
    assert_eq!(tokenizer.decode_with_delimiters(&codes[..1]), "a");
    assert_eq!(tokenizer.decode_with_delimiters(&[]), "");
}

#[test]
fn normalize_lowercases_transliterates_and_filters() {
    let tokenizer = Tokenizer::new(4);
    let normalized: String = tokenizer.normalize("H\u{e9}llo, W\u{f6}rld! 123 (ok)").into_iter().collect();
    assert_eq!(normalized, "hello, world!  ok");
    let chinese: String = tokenizer.normalize("\u{5317}\u{4eb0}").into_iter().collect();
    assert_eq!(chinese, "bei jing ");
    let already: String = tokenizer.normalize("plain text.").into_iter().collect();
    assert_eq!(already, "plain text.");
    assert!(tokenizer.normalize("").is_empty());
}

#[test]
fn reverse_map_keeps_one_fragment_per_code() {
    let tokenizer = trained("abab", 4, 3);
    let reverse = tokenizer.build_reverse_map();
    assert_eq!(reverse.len(), 3);
    assert_eq!(reverse.get(&std_code("ab", 4)).map(|s| s.as_str()), Some("ab"));
    assert_eq!(reverse.get(&vec![0u8]), None);
}

#[test]
fn pairs_are_not_counted_across_chunks() {
    // The first chunk ends with "a", the second is "b": "ab" is never seen.
    let mut text = "c".repeat(1023);
    text.push_str("ab");
    let tokenizer = trained(&text, 4, 100);
    let fragments = tokenizer.get_str_tokens();
    assert!(!fragments.contains(&"ab".to_string()));
    let mut whole_chunk = "c".repeat(1023);
    whole_chunk.push('a');
    assert!(fragments.contains(&whole_chunk));
    assert_eq!(tokenizer.encode_fast(text.clone()).len(), 2);
    assert_eq!(tokenizer.decode(&tokenizer.encode_fast(text.clone())), text);
}

#[test]
fn a_merge_that_gives_a_known_fragment_adds_none() {
    // "aa" is made twice: from ("a", "a"), and never again as a new entry.
    let tokenizer = trained("aaaa aaaa aaaa", 4, 50);
    let fragments = tokenizer.get_str_tokens();
    let mut sorted = fragments.clone();
    sorted.sort();
    sorted.dedup();
    assert_eq!(sorted.len(), fragments.len());
    assert!(tokenizer.merges().len() >= fragments.len() - 2);
}

#[test]
fn tokenizer_from_parts_keeps_entries_and_later_codes() {
    let entries = vec![
        ("a".to_string(), vec![1u8]),
        ("b".to_string(), vec![2u8]),
        ("a".to_string(), vec![3u8]),
        ("ab".to_string(), vec![4u8]),
    ];
    let merges = vec![("a".to_string(), "b".to_string())];
    let tokenizer = Tokenizer::from_parts(entries, merges.clone(), 3, 1);
    assert_eq!(tokenizer.get_str_tokens(), vec!["a", "b", "ab"]);
    assert_eq!(tokenizer.get_tokens(), vec![vec![3u8], vec![2u8], vec![4u8]]);
    assert_eq!(tokenizer.merges(), merges);
    assert_eq!(tokenizer.vocab_size(), 3);
    assert_eq!(tokenizer.token_byte_size(), 1);
    assert_eq!(tokenizer.encode_fast("aab".to_string()), vec![vec![3u8], vec![4u8]]);
    assert_eq!(tokenizer.decode(&[vec![4u8], vec![3u8]]), "aba");
}

#[test]
fn colliding_codes_decode_to_the_later_fragment() {
    let entries = vec![("a".to_string(), vec![7u8]), ("b".to_string(), vec![7u8])];
    let tokenizer = Tokenizer::from_parts(entries, Vec::new(), 2, 1);
    let codes = tokenizer.encode_fast("ab".to_string());
    assert_eq!(codes, vec![vec![7u8], vec![7u8]]);
    assert_eq!(tokenizer.decode(&codes), "bb");
}

#[test]
fn a_rebuilt_tokenizer_equals_the_trained_one() {
    let tokenizer = trained("the quick brown fox jumps over the lazy dog", 5, 30);
    let entries: Vec<(String, Vec<u8>)> =
        tokenizer.get_str_tokens().into_iter().zip(tokenizer.get_tokens()).collect();
    let rebuilt = Tokenizer::from_parts(
        entries,
        tokenizer.merges(),
        tokenizer.vocab_size(),
        tokenizer.token_byte_size(),
    );
    assert_eq!(rebuilt, tokenizer);
    let again = trained("the quick brown fox jumps over the lazy dog", 5, 30);
    assert_eq!(again, tokenizer);
}

#[test]
fn default_tokenizer_has_eight_byte_codes() {
    let tokenizer = Tokenizer::default();
    assert_eq!(tokenizer.token_byte_size(), 8);
    assert_eq!(tokenizer, Tokenizer::new(8));
}

/// A text of `len` characters over a small alphabet, from a fixed
/// recurrence.
fn sample_text(len: usize) -> String {
    let alphabet: Vec<char> = "abcdefgh ,.".chars().collect();
    let mut state: u64 = 12345;
    let mut text = String::new();
    for _ in 0..len {
        state = state.wrapping_mul(6364136223846793005).wrapping_add(1442695040888963407);
        text.push(alphabet[((state >> 33) % alphabet.len() as u64) as usize]);
    }
    text
}

#[test]
fn training_on_a_longer_text_reaches_the_target() {
    let text = sample_text(6000);
    let tokenizer = trained(&text, 6, 150);
    let fragments = tokenizer.get_str_tokens();
    assert_eq!(fragments.len(), 150);
    assert_eq!(tokenizer.merges().len(), 150 - 11);
    let mut sorted = fragments.clone();
    sorted.sort();
    sorted.dedup();
    assert_eq!(sorted.len(), 150);
    for (first, second) in tokenizer.merges() {
        assert!(!first.ends_with(' '));
        assert!(fragments.contains(&format!("{}{}", first, second)));
    }
    let codes = tokenizer.encode_fast(text.clone());
    assert!(codes.len() < text.len());
    assert_eq!(tokenizer.decode(&codes), text);
    assert_eq!(trained(&text, 6, 150), tokenizer);
}

#[test]
fn the_first_merge_is_the_most_frequent_pair() {
    let text = sample_text(3000);
    let tokenizer = trained(&text, 6, 12);
    let (first, second) = tokenizer.merges()[0].clone();
    let chars: Vec<char> = text.chars().collect();
    let count = |a: char, b: char| {
        let mut n = 0;
        for chunk in chars.chunks(1024) {
            n += chunk.windows(2).filter(|w| w[0] == a && w[1] == b).count();
        }
        n
    };
    let best = count(first.chars().next().unwrap(), second.chars().next().unwrap());
    for a in "abcdefgh,.".chars() {
        for b in "abcdefgh ,.".chars() {
            assert!(count(a, b) <= best);
        }
    }
}

#[test]
fn text_of_the_alphabet_is_its_own_normal_form() {
    let tokenizer = Tokenizer::new(4);
    let alphabet = "abcdefghijklmnopqrstuvwxyz .,!";
    let normalized: String = tokenizer.normalize(alphabet).into_iter().collect();
    assert_eq!(normalized, alphabet);
    let sentence = "hello, world! this is plain text.";
    let again: String = tokenizer.normalize(sentence).into_iter().collect();
    assert_eq!(again, sentence);
}

#[test]
fn transliteration_gives_ascii_and_keeps_ascii() {
    let tokenizer = Tokenizer::new(4);
    // Capital letters are lowered, every other ASCII character outside the
    // alphabet is dropped, and accents are folded to plain letters.
    let normalized: String =
        tokenizer.normalize("A\u{e9}\u{df}\u{f1} z~[]{}|0123456789\u{5317}").into_iter().collect();
    assert_eq!(normalized, "aessn zbei ");
    for c in tokenizer.normalize("\u{c6}neid \u{e9}tude \u{410}\u{411}\u{412}") {
        assert!(c.is_ascii());
    }
}
