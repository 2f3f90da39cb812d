use bpe_tokenizer_rs::{Encoder, PreTokenizer, Trainer, Vocabulary};

fn build_encoder(merges: Vec<(String, String)>, special_tokens: Vec<String>) -> Encoder {
    let vocab = Vocabulary::new(special_tokens.clone(), merges.clone());
    let pre_tokenizer = PreTokenizer::new();
    Encoder::new(merges, pre_tokenizer, vocab, special_tokens)
}

#[test]
fn encode_empty_text() {
    let trainer = Trainer::new(5);
    let merges = trainer.train(&["test"]);
    let encoder = build_encoder(merges, vec![]);

    let ids = encoder.encode("");

    assert_eq!(ids, vec![]);
}

#[test]
fn encoder_encode_single_ascii_char() {
    let trainer = Trainer::new(0);
    let merges = trainer.train(&[""]);
    let encoder = build_encoder(merges, vec![]);

    let ids = encoder.encode("A");

    assert_eq!(ids, vec![32]);
}

#[test]
fn encode_two_ascii_chars() {
    let trainer = Trainer::new(0);
    let merges = trainer.train(&[""]);
    let encoder = build_encoder(merges, vec![]);

    let ids = encoder.encode("AB");

    assert_eq!(ids, vec![32, 33]);
}

#[test]
fn encode_with_punctuation_split() {
    let trainer = Trainer::new(0);
    let merges = trainer.train(&[""]);
    let encoder = build_encoder(merges, vec![]);

    let ids = encoder.encode("A,B");

    assert_eq!(ids, vec![32, 11, 33]);
}

#[test]
fn encoder_encode_utf8_two_bytes() {
    let trainer = Trainer::new(0);
    let merges = trainer.train(&[""]);
    let encoder = build_encoder(merges, vec![]);

    let ids = encoder.encode("é");

    assert_eq!(ids, vec![127, 102]);
}

#[test]
fn encode_with_leading_space() {
    let trainer = Trainer::new(0);
    let merges = trainer.train(&[""]);
    let encoder = build_encoder(merges, vec![]);

    let ids = encoder.encode(" A");

    assert_eq!(ids, vec![220, 32]);
}

#[test]
fn encode_applies_single_merge() {
    let trainer = Trainer::new(1);
    let merges = trainer.train(&["aa aa aa"]);
    let encoder = build_encoder(merges, vec![]);

    let ids = encoder.encode("aa");

    assert_eq!(ids.len(), 1);
    assert_eq!(ids[0], 256);
}

#[test]
fn encode_with_learned_merge() {
    let trainer = Trainer::new(1);
    let merges = trainer.train(&["ab ab ab"]);
    let encoder = build_encoder(merges, vec![]);

    let ids = encoder.encode("ab");

    assert_eq!(ids, vec![256]);
}

#[test]
fn encode_japanese_characters() {
    let trainer = Trainer::new(0);
    let merges = trainer.train(&[""]);
    let encoder = build_encoder(merges, vec![]);

    let ids = encoder.encode("日");

    assert_eq!(ids, vec![162, 245, 98]);
}

#[test]
fn encode_russian_text() {
    let trainer = Trainer::new(0);
    let merges = trainer.train(&[""]);
    let encoder = build_encoder(merges, vec![]);

    let ids = encoder.encode("Привет");

    assert_eq!(
        ids,
        vec![140, 253, 141, 222, 140, 116, 140, 110, 140, 113, 141, 224]
    );
}

#[test]
fn encode_mixed_languages() {
    let trainer = Trainer::new(0);
    let merges = trainer.train(&[""]);
    let encoder = build_encoder(merges, vec![]);

    let ids_hello = encoder.encode("Hello");
    let ids_chinese = encoder.encode("世界");
    let ids_russian = encoder.encode("Привет");

    assert_eq!(ids_hello, vec![39, 68, 75, 75, 78]);
    assert_eq!(ids_chinese, vec![160, 116, 244, 163, 243, 234]);
    assert_eq!(
        ids_russian,
        vec![140, 253, 141, 222, 140, 116, 140, 110, 140, 113, 141, 224]
    );
}

#[test]
fn encode_emoji() {
    let trainer = Trainer::new(0);
    let merges = trainer.train(&[""]);
    let encoder = build_encoder(merges, vec![]);

    let ids = encoder.encode("🦀");

    assert_eq!(ids, vec![172, 253, 99, 222]);
}

#[test]
fn encode_russian_with_single_merge() {
    let trainer = Trainer::new(1);
    let merges = trainer.train(&["Привет Привет Привет"]);
    let encoder = build_encoder(merges, vec![]);

    let ids = encoder.encode("Привет");

    assert_eq!(
        ids,
        vec![140, 253, 141, 222, 140, 116, 140, 256, 113, 141, 224]
    );
}

#[test]
fn encode_chinese_with_single_merge() {
    let trainer = Trainer::new(1);
    let merges = trainer.train(&["世界 世界 世界"]);
    let encoder = build_encoder(merges, vec![]);

    let ids = encoder.encode("世界");

    assert_eq!(ids, vec![160, 256, 163, 243, 234]);
}

#[test]
fn encode_special_token_at_start() {
    let special_tokens = vec!["<|endoftext|>".to_string()];
    let trainer = Trainer::new(0);
    let merges = trainer.train(&[""]);
    let encoder = build_encoder(merges, special_tokens);

    let ids = encoder.encode("<|endoftext|>hello");

    assert_eq!(ids, vec![0, 72, 69, 76, 76, 79]);
}

#[test]
fn encode_special_token_at_end() {
    let special_tokens = vec!["<|endoftext|>".to_string()];
    let trainer = Trainer::new(0);
    let merges = trainer.train(&[""]);
    let encoder = build_encoder(merges, special_tokens);

    let ids = encoder.encode("hello<|endoftext|>");

    assert_eq!(ids, vec![72, 69, 76, 76, 79, 0]);
}

#[test]
fn encode_special_token_in_middle() {
    let special_tokens = vec!["<|endoftext|>".to_string()];
    let trainer = Trainer::new(0);
    let merges = trainer.train(&[""]);
    let encoder = build_encoder(merges, special_tokens);

    let ids = encoder.encode("hello<|endoftext|>world");

    assert_eq!(ids, vec![72, 69, 76, 76, 79, 0, 87, 79, 82, 76, 68]);
}

#[test]
fn encode_multiple_special_tokens() {
    let special_tokens = vec!["<|endoftext|>".to_string(), "[PAD]".to_string()];
    let trainer = Trainer::new(0);
    let merges = trainer.train(&[""]);
    let encoder = build_encoder(merges, special_tokens);

    let ids = encoder.encode("<|endoftext|>hello[PAD]");

    assert_eq!(ids, vec![0, 73, 70, 77, 77, 80, 1]);
}

#[test]
fn encode_adjacent_special_tokens() {
    let special_tokens = vec!["<|endoftext|>".to_string(), "[PAD]".to_string()];
    let trainer = Trainer::new(0);
    let merges = trainer.train(&[""]);
    let encoder = build_encoder(merges, special_tokens);

    let ids = encoder.encode("<|endoftext|>[PAD]");

    assert_eq!(ids, vec![0, 1]);
}

#[test]
fn encode_with_special_tokens_defined_but_not_used() {
    let special_tokens = vec!["<|endoftext|>".to_string()];
    let trainer = Trainer::new(0);
    let merges = trainer.train(&[""]);
    let encoder = build_encoder(merges, special_tokens);

    let ids = encoder.encode("hello world");

    assert_eq!(ids, vec![72, 69, 76, 76, 79, 221, 87, 79, 82, 76, 68]);
}

#[test]
fn encode_applies_rules_in_rank_order() {
    // Rank 0 fuses (b, c) first, leaving nothing for the later rule (a, b):
    // the earlier-learned rule wins even though (a, b) comes first in the text.
    let merges = vec![
        ("b".to_string(), "c".to_string()),
        ("a".to_string(), "b".to_string()),
    ];
    let encoder = build_encoder(merges, vec![]);

    let ids = encoder.encode("abc");

    // 'a' is id 64; "bc" is the first merge product, id 256.
    assert_eq!(ids, vec![64, 256]);
}

#[test]
fn encode_exhausts_rule_before_moving_on() {
    // One pass of (a, a) over "aaaa" fuses both non-overlapping occurrences
    // before the later rule (aa, aa) gets its turn.
    let merges = vec![
        ("a".to_string(), "a".to_string()),
        ("aa".to_string(), "aa".to_string()),
    ];
    let encoder = build_encoder(merges, vec![]);

    let ids = encoder.encode("aaaa");

    // "aaaa" is the second merge product, id 257.
    assert_eq!(ids, vec![257]);
}
