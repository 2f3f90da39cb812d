//! Byte-level byte-pair-encoding (BPE) tokenization.
//!
//! Arbitrary UTF-8 text is converted into a sequence of integer token ids
//! drawn from a bounded vocabulary, and such a sequence is losslessly
//! convertible back into the original text.  The scheme is the GPT-2 style
//! byte-level one: every byte of the text is first mapped to a printable
//! code point, text is pre-split into boundary-respecting chunks, and a
//! learned, rank-ordered list of merge rules fuses adjacent symbols.

mod byte_encoder;
mod decoder;
mod encoder;
mod freq;
mod pre_tokenizer;
mod round_trip;
mod symbols;
mod test_utils;
mod text;
mod tokenizer;
mod trainer;
mod vocabulary;

pub use byte_encoder::bytes_to_unicode;
pub use byte_encoder::decode_char;
pub use byte_encoder::encode_byte;
pub use byte_encoder::unicode_to_bytes;
pub use decoder::Decoder;
pub use encoder::Encoder;
pub use pre_tokenizer::PreTokenizer;
pub use symbols::word_to_symbols;
pub use test_utils::to_merges;
pub use tokenizer::BpeTokenizer;
pub use trainer::Trainer;
pub use vocabulary::Vocabulary;
