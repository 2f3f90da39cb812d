use bpe_tokenizer_rs::{word_to_symbols, PreTokenizer};

#[test]
fn pre_tokenize_basic_sentence() {
    let tokenizer = PreTokenizer::new();
    let result = tokenizer.pre_tokenize("Hello, world!");

    assert_eq!(result, vec!["Hello", ",", " world", "!"]);
}

#[test]
fn pre_tokenize_contractions() {
    let tokenizer = PreTokenizer::new();
    let result = tokenizer.pre_tokenize("don't");

    assert_eq!(result, vec!["don", "'t"]);
}

#[test]
fn pre_tokenize_multiple_contractions() {
    let tokenizer = PreTokenizer::new();
    let result = tokenizer.pre_tokenize("I'm sure it's fine");

    assert_eq!(result, vec!["I", "'m", " sure", " it", "'s", " fine"]);
}

#[test]
fn pre_tokenize_numbers() {
    let tokenizer = PreTokenizer::new();
    let result = tokenizer.pre_tokenize("I have 123 apples");

    assert_eq!(result, vec!["I", " have", " 123", " apples"]);
}

#[test]
fn pre_tokenize_punctuation() {
    let tokenizer = PreTokenizer::new();
    let result = tokenizer.pre_tokenize("Hello... What?!");

    assert_eq!(result, vec!["Hello", "...", " What", "?!"]);
}

#[test]
fn pre_tokenize_keeps_spaces_with_words() {
    let tokenizer = PreTokenizer::new();
    let result = tokenizer.pre_tokenize("Hello world");

    assert_eq!(result, vec!["Hello", " world"]);
}

#[test]
fn pre_tokenize_concatenation_reproduces_text() {
    let tokenizer = PreTokenizer::new();
    let texts = [
        "",
        "Hello, world!  How are  you?",
        "I'm sure it's fine... 12x 34\t\nмир 世界 🦀 co-op",
        "   ",
        "'", // a lone apostrophe is no contraction
        "a'lleluja 'll",
    ];
    for text in texts {
        let chunks = tokenizer.pre_tokenize(text);
        let rebuilt: String = chunks.concat();
        assert_eq!(rebuilt, text);
        for chunk in chunks {
            assert!(!chunk.is_empty());
        }
    }
}

#[test]
fn pre_tokenize_every_contraction() {
    let tokenizer = PreTokenizer::new();
    let result = tokenizer.pre_tokenize("x's x't x're x've x'm x'll x'd");
    assert_eq!(
        result,
        vec![
            "x", "'s", " x", "'t", " x", "'re", " x", "'ve", " x", "'m", " x", "'ll", " x", "'d"
        ]
    );
}

#[test]
fn word_to_symbols_basic() {
    let result = word_to_symbols("banana").unwrap();
    let expected = vec!["b", "a", "n", "a", "n", "a", "</w>"];
    assert_eq!(result, expected);
}

#[test]
fn word_to_symbols_single_char() {
    let result = word_to_symbols("a").unwrap();
    let expected = vec!["a", "</w>"];
    assert_eq!(result, expected);
}

#[test]
fn word_to_symbols_with_hyphen() {
    let result = word_to_symbols("co-op").unwrap();
    let expected = vec!["c", "o", "-", "o", "p", "</w>"];
    assert_eq!(result, expected);
}

#[test]
fn word_to_symbols_empty() {
    let result = word_to_symbols("").unwrap();
    let expected = vec!["</w>"];
    assert_eq!(result, expected);
}

#[test]
fn word_to_symbols_multiple_words_fails() {
    let result = word_to_symbols("hello world");
    assert!(result.is_err());
    assert!(result.unwrap_err().contains("multiple words"));
}
