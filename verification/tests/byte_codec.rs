use bpe_tokenizer_rs::{bytes_to_unicode, decode_char, encode_byte, unicode_to_bytes};

#[test]
fn bytes_to_unicode_return_correct_values() {
    let mapping = bytes_to_unicode();
    assert_eq!(mapping.get(&65), Some(&'A'));
    assert_eq!(mapping.get(&66), Some(&'B'));
    assert_eq!(mapping.get(&0), Some(&'Ā'));
    assert_eq!(mapping.get(&10), Some(&'Ċ'));
    assert_eq!(mapping.get(&255), Some(&'ÿ'));
}

#[test]
fn unicode_to_bytes_return_correct_values() {
    let mapping = unicode_to_bytes();
    assert_eq!(mapping.get(&('A' as u32)), Some(&65));
    assert_eq!(mapping.get(&('B' as u32)), Some(&66));
    assert_eq!(mapping.get(&('Ā' as u32)), Some(&0));
    assert_eq!(mapping.get(&('Ċ' as u32)), Some(&10));
    assert_eq!(mapping.get(&('ÿ' as u32)), Some(&255));
}

#[test]
fn codec_round_trips_every_byte() {
    for b in 0..=255u8 {
        let c = encode_byte(b);
        assert_eq!(decode_char(c), Some(b));
    }
}

#[test]
fn codec_code_points_pairwise_distinct() {
    let mut seen: Vec<char> = Vec::new();
    for b in 0..=255u8 {
        let c = encode_byte(b);
        assert!(!seen.contains(&c));
        seen.push(c);
    }
    assert_eq!(seen.len(), 256);
}

#[test]
fn decode_char_rejects_unmapped_characters() {
    // Control characters map away from themselves, so they have no inverse.
    assert_eq!(decode_char('\n'), None);
    assert_eq!(decode_char(' '), None);
    // Code points past the 256-value image are unmapped too.
    assert_eq!(decode_char('Ŵ'), None);
}
