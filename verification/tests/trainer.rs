use bpe_tokenizer_rs::{bytes_to_unicode, to_merges, Trainer, Vocabulary};

fn chunk_to_tokens(chunk: &str) -> Vec<String> {
    let byte_encoder = bytes_to_unicode();
    chunk
        .as_bytes()
        .iter()
        .map(|&byte| byte_encoder[&byte].to_string())
        .collect()
}

fn word_count(table: &[(Vec<String>, usize)], word: &[String]) -> Option<usize> {
    table
        .iter()
        .find(|(w, _)| w.as_slice() == word)
        .map(|(_, c)| *c)
}

fn pair_count(table: &[((String, String), usize)], first: &str, second: &str) -> Option<usize> {
    table
        .iter()
        .find(|((a, b), _)| a == first && b == second)
        .map(|(_, c)| *c)
}

fn owned(pairs: &[(&str, &str)]) -> Vec<((String, String), usize)> {
    Vec::new()
        .into_iter()
        .chain(pairs.iter().map(|(a, b)| ((a.to_string(), b.to_string()), 0)))
        .collect()
}

#[test]
fn train_empty_input_returns_empty() {
    let trainer = Trainer::new(10);
    let result = trainer.train(&[]);

    assert_eq!(result, vec![]);
}

#[test]
fn train_no_merges_returns_empty() {
    let trainer = Trainer::new(0);
    let result = trainer.train(&["hello world"]);

    assert_eq!(result, vec![]);
}

#[test]
fn train_single_character_stops_early() {
    let trainer = Trainer::new(10);
    let result = trainer.train(&["a"]);

    assert_eq!(result, vec![]);
}

#[test]
fn train_simple_text_produces_expected_merges() {
    let trainer = Trainer::new(3);
    let result = trainer.train(&["aa bb cc"]);

    assert_eq!(result.len(), 3);
    assert_eq!(result[0], ("a".to_string(), "a".to_string()));
    assert_eq!(result[1], ("b".to_string(), "b".to_string()));
    assert_eq!(result[2], ("c".to_string(), "c".to_string()));
}

#[test]
fn train_respects_max_merges_limit() {
    let trainer = Trainer::new(2);
    let result = trainer.train(&["hello world"]);

    assert_eq!(result.len(), 2);
}

#[test]
fn train_with_repeated_text_prioritizes_high_frequency() {
    let trainer = Trainer::new(1);
    let result = trainer.train(&["aaa bbb aaa"]);

    assert_eq!(result[0], ("a".to_string(), "a".to_string()));
}

#[test]
fn train_breaks_tie_by_token_id_not_string() {
    let trainer = Trainer::new(5);
    let result = trainer.train(&["123 456 789"]);

    assert_eq!(result[0], ("1".to_string(), "2".to_string()));
    assert_eq!(result[1], ("4".to_string(), "5".to_string()));
    assert_eq!(result[2], ("7".to_string(), "8".to_string()));
}

#[test]
fn train_handles_multibyte_utf8() {
    let trainer = Trainer::new(2);
    let result = trainer.train(&["こんにちは"]);

    assert_eq!(result.len(), 2);
    assert_eq!(result[0], ("ã".to_string(), "ģ".to_string()));
    assert_eq!(result[1], ("¡".to_string(), "ãģ".to_string()));
}

#[test]
fn train_with_multiple_words_finds_common_pairs() {
    let trainer = Trainer::new(3);
    let result = trainer.train(&["hello", "hello", "world"]);

    assert_eq!(result.len(), 3);
    assert_eq!(result[0], ("e".to_string(), "l".to_string()));
    assert_eq!(result[1], ("h".to_string(), "el".to_string()));
    assert_eq!(result[2], ("l".to_string(), "o".to_string()));
}

#[test]
fn build_word_frequencies_empty_input() {
    let trainer = Trainer::new(10);
    let result = trainer.build_word_frequencies(&[]);

    assert!(result.is_empty());
}

#[test]
fn build_word_frequencies_single_word() {
    let trainer = Trainer::new(10);
    let result = trainer.build_word_frequencies(&["hello"]);

    let expected_tokens = chunk_to_tokens("hello");
    assert_eq!(word_count(&result, &expected_tokens), Some(1));
}

#[test]
fn compute_pair_frequencies_empty() {
    let word_freqs: Vec<(Vec<String>, usize)> = Vec::new();
    let pair_freqs = Trainer::compute_pair_frequencies(&word_freqs);

    assert!(pair_freqs.is_empty());
}

#[test]
fn compute_pair_frequencies_finds_pairs() {
    let mut word_freqs: Vec<(Vec<String>, usize)> = Vec::new();
    word_freqs.push((vec!["a".to_string(), "b".to_string(), "c".to_string()], 1));

    let pair_freqs = Trainer::compute_pair_frequencies(&word_freqs);

    assert_eq!(pair_count(&pair_freqs, "a", "b"), Some(1));
    assert_eq!(pair_count(&pair_freqs, "b", "c"), Some(1));
}

#[test]
fn find_best_pair_returns_none_when_empty() {
    let pair_freqs: Vec<((String, String), usize)> = Vec::new();
    let token_to_id: Vec<String> = Vec::new();
    let result = Trainer::find_best_pair(&pair_freqs, &token_to_id);

    assert_eq!(result, None);
}

#[test]
fn find_best_pair_selects_highest_frequency() {
    let mut pair_freqs = owned(&[("a", "b"), ("c", "d"), ("e", "f")]);
    pair_freqs[0].1 = 5;
    pair_freqs[1].1 = 10;
    pair_freqs[2].1 = 3;

    // Token ids follow positions: a:0, b:1, c:2, d:3, e:4, f:5.
    let token_to_id: Vec<String> = ["a", "b", "c", "d", "e", "f"]
        .iter()
        .map(|s| s.to_string())
        .collect();

    let result = Trainer::find_best_pair(&pair_freqs, &token_to_id);

    assert_eq!(result, Some(("c".to_string(), "d".to_string())));
}

#[test]
fn find_best_pair_breaks_tie_by_lowest_token_id() {
    let mut pair_freqs = owned(&[("z", "a"), ("a", "b"), ("c", "d")]);
    pair_freqs[0].1 = 3;
    pair_freqs[1].1 = 3;
    pair_freqs[2].1 = 3;

    // Token ids follow positions: a:0, b:1, c:2, d:3, and z:25.
    let mut token_to_id: Vec<String> = ["a", "b", "c", "d"]
        .iter()
        .map(|s| s.to_string())
        .collect();
    for i in 4..25 {
        token_to_id.push(format!("filler{}", i));
    }
    token_to_id.push("z".to_string());
    assert_eq!(token_to_id.len(), 26);

    let result = Trainer::find_best_pair(&pair_freqs, &token_to_id);

    assert_eq!(result, Some(("a".to_string(), "b".to_string())));
}

#[test]
fn apply_merge_combines_adjacent_pair() {
    let mut word_freqs: Vec<(Vec<String>, usize)> = Vec::new();
    word_freqs.push((vec!["a".to_string(), "b".to_string(), "c".to_string()], 1));

    let result = Trainer::apply_merge(&word_freqs, &("a".to_string(), "b".to_string()));

    let expected = vec!["ab".to_string(), "c".to_string()];
    assert_eq!(word_count(&result, &expected), Some(1));
}

#[test]
fn apply_merge_preserves_word_frequency() {
    let mut word_freqs: Vec<(Vec<String>, usize)> = Vec::new();
    word_freqs.push((vec!["a".to_string(), "b".to_string()], 5));

    let result = Trainer::apply_merge(&word_freqs, &("a".to_string(), "b".to_string()));

    let expected = vec!["ab".to_string()];
    assert_eq!(word_count(&result, &expected), Some(5));
}

#[test]
fn apply_merge_handles_multiple_occurrences_in_same_word() {
    let mut word_freqs: Vec<(Vec<String>, usize)> = Vec::new();
    word_freqs.push((
        vec![
            "a".to_string(),
            "b".to_string(),
            "a".to_string(),
            "b".to_string(),
        ],
        1,
    ));

    let result = Trainer::apply_merge(&word_freqs, &("a".to_string(), "b".to_string()));

    let expected = vec!["ab".to_string(), "ab".to_string()];
    assert_eq!(word_count(&result, &expected), Some(1));
}

#[test]
fn train_produces_same_merges_regardless_of_special_tokens() {
    let trainer = Trainer::new(5);
    let merges = trainer.train(&["hello world hello world hello world"]);

    let vocab_without_special = Vocabulary::new(vec![], merges.clone());

    let special_tokens = vec!["<|endoftext|>".to_string(), "[PAD]".to_string()];
    let vocab_with_special = Vocabulary::new(special_tokens.clone(), merges.clone());

    let first_merge = format!("{}{}", merges[0].0, merges[0].1);

    assert_eq!(vocab_without_special.token_to_id(&first_merge), Some(256));
    assert_eq!(vocab_with_special.token_to_id(&first_merge), Some(258));
    assert_eq!(vocab_without_special.token_to_id("<|endoftext|>"), None);
    assert_eq!(vocab_with_special.token_to_id("<|endoftext|>"), Some(0));
    assert_eq!(vocab_without_special.token_to_id("[PAD]"), None);
    assert_eq!(vocab_with_special.token_to_id("[PAD]"), Some(1));
}

#[test]
fn to_merges_builds_owned_pairs() {
    let merges = to_merges(&[("a", "b"), ("ab", "c")]);
    assert_eq!(
        merges,
        vec![
            ("a".to_string(), "b".to_string()),
            ("ab".to_string(), "c".to_string()),
        ]
    );
}

#[test]
fn training_twice_yields_identical_merges() {
    let corpus = ["hello world hello", "Привет 世界 123", "don't won't"];
    let first = Trainer::new(8).train(&corpus);
    let second = Trainer::new(8).train(&corpus);

    assert_eq!(first, second);
}
