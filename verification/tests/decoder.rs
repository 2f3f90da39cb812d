use bpe_tokenizer_rs::{Decoder, Encoder, PreTokenizer, Trainer, Vocabulary};

fn build_decoder(merges: Vec<(String, String)>) -> Decoder {
    let vocab = Vocabulary::new(vec![], merges);
    Decoder::new(vocab)
}

fn build_pipeline(
    merges: Vec<(String, String)>,
    special_tokens: Vec<String>,
) -> (Encoder, Decoder) {
    let vocab = Vocabulary::new(special_tokens.clone(), merges.clone());
    let pre_tokenizer = PreTokenizer::new();
    let encoder = Encoder::new(merges, pre_tokenizer, vocab, special_tokens);
    let decoder = Decoder::new(encoder.vocabulary().clone());
    (encoder, decoder)
}

#[test]
fn decoder_decode_empty_sequence() {
    let trainer = Trainer::new(0);
    let merges = trainer.train(&[""]);
    let decoder = build_decoder(merges);

    let text = decoder.decode(&[]);

    assert_eq!(text, "");
}

#[test]
fn decoder_decode_single_ascii_char() {
    let trainer = Trainer::new(0);
    let merges = trainer.train(&[""]);
    let decoder = build_decoder(merges);

    let text = decoder.decode(&[32]);

    assert_eq!(text, "A");
}

#[test]
fn decoder_decode_multiple_ascii_chars() {
    let trainer = Trainer::new(0);
    let merges = trainer.train(&[""]);
    let decoder = build_decoder(merges);

    let text = decoder.decode(&[32, 33, 34]);

    assert_eq!(text, "ABC");
}

#[test]
fn decode_with_space() {
    let trainer = Trainer::new(0);
    let merges = trainer.train(&[""]);
    let decoder = build_decoder(merges);

    let text = decoder.decode(&[39, 68, 75, 75, 78, 220, 54, 78, 81, 75, 67]);

    assert_eq!(text, "Hello World");
}

#[test]
fn decoder_decode_utf8_two_bytes() {
    let trainer = Trainer::new(0);
    let merges = trainer.train(&[""]);
    let decoder = build_decoder(merges);

    let text = decoder.decode(&[127, 102]);

    assert_eq!(text, "é");
}

#[test]
fn decode_japanese_characters() {
    let trainer = Trainer::new(0);
    let merges = trainer.train(&[""]);
    let decoder = build_decoder(merges);

    let text = decoder.decode(&[162, 245, 98]);

    assert_eq!(text, "日");
}

#[test]
fn decode_russian_text() {
    let trainer = Trainer::new(0);
    let merges = trainer.train(&[""]);
    let decoder = build_decoder(merges);

    let text = decoder.decode(&[140, 253, 141, 222, 140, 116, 140, 110, 140, 113, 141, 224]);

    assert_eq!(text, "Привет");
}

#[test]
fn decode_chinese_text() {
    let trainer = Trainer::new(0);
    let merges = trainer.train(&[""]);
    let decoder = build_decoder(merges);

    let text = decoder.decode(&[160, 116, 244, 163, 243, 234]);

    assert_eq!(text, "世界");
}

#[test]
fn decode_emoji() {
    let trainer = Trainer::new(0);
    let merges = trainer.train(&[""]);
    let decoder = build_decoder(merges);

    let text = decoder.decode(&[172, 253, 99, 222]);

    assert_eq!(text, "🦀");
}

#[test]
fn decode_with_single_merge() {
    let trainer = Trainer::new(1);
    let merges = trainer.train(&["ab ab ab"]);
    let decoder = build_decoder(merges);

    let text = decoder.decode(&[256]);

    assert_eq!(text, "ab");
}

#[test]
fn decode_mixed_base_and_merged_tokens() {
    let trainer = Trainer::new(1);
    let merges = trainer.train(&["ab ab ab"]);
    let decoder = build_decoder(merges);

    let text = decoder.decode(&[66, 256, 67]);

    assert_eq!(text, "cabd");
}

#[test]
fn decode_russian_with_merge() {
    let trainer = Trainer::new(1);
    let merges = trainer.train(&["Привет Привет Привет"]);
    let decoder = build_decoder(merges);

    let text = decoder.decode(&[140, 253, 141, 222, 140, 116, 140, 256, 113, 141, 224]);

    assert_eq!(text, "Привет");
}

#[test]
fn decode_chinese_with_merge() {
    let trainer = Trainer::new(1);
    let merges = trainer.train(&["世界 世界 世界"]);
    let decoder = build_decoder(merges);

    let text = decoder.decode(&[160, 256, 163, 243, 234]);

    assert_eq!(text, "世界");
}

#[test]
fn encode_decode_round_trip_ascii() {
    let trainer = Trainer::new(5);
    let merges = trainer.train(&["hello world hello world hello world"]);
    let (encoder, decoder) = build_pipeline(merges, vec![]);

    let original = "hello world";
    let ids = encoder.encode(original);
    let decoded = decoder.decode(&ids);

    assert_eq!(decoded, original);
}

#[test]
fn encode_decode_round_trip_multilingual() {
    let trainer = Trainer::new(10);
    let merges = trainer.train(&["Hello мир 世界 Hello мир 世界 Hello мир 世界"]);
    let (encoder, decoder) = build_pipeline(merges, vec![]);

    let original = "Hello мир 世界";
    let ids = encoder.encode(original);
    let decoded = decoder.decode(&ids);

    assert_eq!(decoded, original);
}

#[test]
fn encode_decode_round_trip_with_emoji() {
    let trainer = Trainer::new(3);
    let merges = trainer.train(&["🦀 Rust 🦀 Rust 🦀 Rust"]);
    let (encoder, decoder) = build_pipeline(merges, vec![]);

    let original = "🦀 Rust";
    let ids = encoder.encode(original);
    let decoded = decoder.decode(&ids);

    assert_eq!(decoded, original);
}

#[test]
fn encode_decode_round_trip_with_punctuation() {
    let trainer = Trainer::new(5);
    let merges = trainer.train(&["Hello, world! How are you? Hello, world! How are you?"]);
    let (encoder, decoder) = build_pipeline(merges, vec![]);

    let original = "Hello, world! How are you?";
    let ids = encoder.encode(original);
    let decoded = decoder.decode(&ids);

    assert_eq!(decoded, original);
}

#[test]
fn encode_decode_round_trip_special_token_at_start() {
    let special_tokens = vec!["<|endoftext|>".to_string()];
    let trainer = Trainer::new(0);
    let merges = trainer.train(&[""]);
    let (encoder, decoder) = build_pipeline(merges, special_tokens);

    let original = "<|endoftext|>hello world";
    let ids = encoder.encode(original);
    let decoded = decoder.decode(&ids);

    assert_eq!(decoded, original);
}

#[test]
fn encode_decode_round_trip_special_token_at_end() {
    let special_tokens = vec!["<|endoftext|>".to_string()];
    let trainer = Trainer::new(0);
    let merges = trainer.train(&[""]);
    let (encoder, decoder) = build_pipeline(merges, special_tokens);

    let original = "hello world<|endoftext|>";
    let ids = encoder.encode(original);
    let decoded = decoder.decode(&ids);

    assert_eq!(decoded, original);
}

#[test]
fn encode_decode_round_trip_special_token_in_middle() {
    let special_tokens = vec!["<|endoftext|>".to_string()];
    let trainer = Trainer::new(0);
    let merges = trainer.train(&[""]);
    let (encoder, decoder) = build_pipeline(merges, special_tokens);

    let original = "hello<|endoftext|>world";
    let ids = encoder.encode(original);
    let decoded = decoder.decode(&ids);

    assert_eq!(decoded, original);
}

#[test]
fn encode_decode_round_trip_multiple_special_tokens() {
    let special_tokens = vec!["<|start|>".to_string(), "<|end|>".to_string()];
    let trainer = Trainer::new(0);
    let merges = trainer.train(&[""]);
    let (encoder, decoder) = build_pipeline(merges, special_tokens);

    let original = "<|start|>hello world<|end|>";
    let ids = encoder.encode(original);
    let decoded = decoder.decode(&ids);

    assert_eq!(decoded, original);
}

#[test]
fn encode_decode_round_trip_adjacent_special_tokens() {
    let special_tokens = vec!["<|start|>".to_string(), "<|end|>".to_string()];
    let trainer = Trainer::new(0);
    let merges = trainer.train(&[""]);
    let (encoder, decoder) = build_pipeline(merges, special_tokens);

    let original = "<|start|><|end|>";
    let ids = encoder.encode(original);
    let decoded = decoder.decode(&ids);

    assert_eq!(decoded, original);
}

#[test]
fn encode_decode_round_trip_special_tokens_with_merges() {
    let special_tokens = vec!["<|endoftext|>".to_string()];
    let trainer = Trainer::new(5);
    let merges = trainer.train(&["hello world hello world hello world"]);
    let (encoder, decoder) = build_pipeline(merges, special_tokens);

    let original = "<|endoftext|>hello world";
    let ids = encoder.encode(original);
    let decoded = decoder.decode(&ids);

    assert_eq!(decoded, original);
}
