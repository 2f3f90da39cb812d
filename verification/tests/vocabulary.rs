use bpe_tokenizer_rs::Vocabulary;

#[test]
fn vocabulary_base_tokens_correct() {
    let vocab = Vocabulary::new(vec![], vec![]);

    assert_eq!(vocab.token_to_id("A"), Some(32));
    assert_eq!(vocab.id_to_token(32), Some("A"));

    assert_eq!(vocab.token_to_id("Ā"), Some(188));
    assert_eq!(vocab.id_to_token(188), Some("Ā"));

    assert_eq!(vocab.token_to_id("Ġ"), Some(220));
    assert_eq!(vocab.id_to_token(220), Some("Ġ"));
}

#[test]
fn vocabulary_with_merges() {
    let merges = vec![
        ("n".to_string(), "a".to_string()),
        ("na".to_string(), "na".to_string()),
    ];
    let vocab = Vocabulary::new(vec![], merges);

    assert_eq!(vocab.token_to_id("n"), Some(77));
    assert_eq!(vocab.token_to_id("a"), Some(64));

    assert_eq!(vocab.token_to_id("na"), Some(256));
    assert_eq!(vocab.id_to_token(256), Some("na"));

    assert_eq!(vocab.token_to_id("nana"), Some(257));
    assert_eq!(vocab.id_to_token(257), Some("nana"));
}

#[test]
fn vocabulary_unknown_token() {
    let vocab = Vocabulary::new(vec![], vec![]);

    assert_eq!(vocab.token_to_id("unknown_token"), None);
}

#[test]
fn vocabulary_unknown_id() {
    let vocab = Vocabulary::new(vec![], vec![]);

    assert_eq!(vocab.id_to_token(10000), None);
}

#[test]
fn vocabulary_round_trip() {
    let merges = vec![
        ("t".to_string(), "h".to_string()),
        ("th".to_string(), "e".to_string()),
    ];
    let vocab = Vocabulary::new(vec![], merges);

    let token = "the";
    let id = vocab.token_to_id(token).unwrap();
    let recovered_token = vocab.id_to_token(id).unwrap();
    assert_eq!(token, recovered_token);
}

#[test]
fn vocabulary_with_one_special_token() {
    let special_tokens = vec!["<|endoftext|>".to_string()];
    let vocab = Vocabulary::new(special_tokens, vec![]);

    assert_eq!(vocab.token_to_id("<|endoftext|>"), Some(0));
    assert_eq!(vocab.id_to_token(0), Some("<|endoftext|>"));

    assert_eq!(vocab.token_to_id("Ā"), Some(189));
    assert_eq!(vocab.id_to_token(189), Some("Ā"));

    assert_eq!(vocab.token_to_id("A"), Some(33));
    assert_eq!(vocab.id_to_token(33), Some("A"));
}

#[test]
fn vocabulary_with_multiple_special_tokens() {
    let special_tokens = vec![
        "<|endoftext|>".to_string(),
        "[PAD]".to_string(),
        "[UNK]".to_string(),
    ];
    let vocab = Vocabulary::new(special_tokens, vec![]);

    assert_eq!(vocab.token_to_id("<|endoftext|>"), Some(0));
    assert_eq!(vocab.id_to_token(0), Some("<|endoftext|>"));

    assert_eq!(vocab.token_to_id("[PAD]"), Some(1));
    assert_eq!(vocab.id_to_token(1), Some("[PAD]"));

    assert_eq!(vocab.token_to_id("[UNK]"), Some(2));
    assert_eq!(vocab.id_to_token(2), Some("[UNK]"));

    assert_eq!(vocab.token_to_id("Ā"), Some(191));
    assert_eq!(vocab.id_to_token(191), Some("Ā"));

    assert_eq!(vocab.token_to_id("A"), Some(35));
    assert_eq!(vocab.id_to_token(35), Some("A"));
}

#[test]
fn vocabulary_with_special_tokens_and_merges() {
    let special_tokens = vec!["<|endoftext|>".to_string()];
    let merges = vec![
        ("h".to_string(), "e".to_string()),
        ("he".to_string(), "l".to_string()),
    ];
    let vocab = Vocabulary::new(special_tokens, merges);

    assert_eq!(vocab.token_to_id("<|endoftext|>"), Some(0));

    assert_eq!(vocab.token_to_id("h"), Some(72));
    assert_eq!(vocab.token_to_id("e"), Some(69));
    assert_eq!(vocab.token_to_id("l"), Some(76));

    assert_eq!(vocab.token_to_id("he"), Some(257));
    assert_eq!(vocab.id_to_token(257), Some("he"));

    assert_eq!(vocab.token_to_id("hel"), Some(258));
    assert_eq!(vocab.id_to_token(258), Some("hel"));
}

#[test]
fn vocabulary_special_token_round_trip() {
    let special_tokens = vec!["<|endoftext|>".to_string(), "[PAD]".to_string()];
    let vocab = Vocabulary::new(special_tokens, vec![]);

    let token1 = "<|endoftext|>";
    let id1 = vocab.token_to_id(token1).unwrap();
    let recovered1 = vocab.id_to_token(id1).unwrap();
    assert_eq!(token1, recovered1);

    let token2 = "[PAD]";
    let id2 = vocab.token_to_id(token2).unwrap();
    let recovered2 = vocab.id_to_token(id2).unwrap();
    assert_eq!(token2, recovered2);
}

#[test]
fn vocabulary_id_density() {
    let special_tokens = vec!["<|s|>".to_string(), "<|e|>".to_string()];
    let merges = vec![
        ("a".to_string(), "b".to_string()),
        ("ab".to_string(), "c".to_string()),
        ("x".to_string(), "y".to_string()),
    ];
    let total = special_tokens.len() + 256 + merges.len();
    let vocab = Vocabulary::new(special_tokens, merges);

    // Every id below the total resolves, and none at or above it does.
    for id in 0..total as u32 {
        assert!(vocab.id_to_token(id).is_some());
    }
    assert!(vocab.id_to_token(total as u32).is_none());
    assert!(vocab.id_to_token(total as u32 + 1).is_none());
}
