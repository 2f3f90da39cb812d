//! The complete tokenizer: encoder and decoder over one shared vocabulary.

use crate::decoder::decodable;
use crate::decoder::decode_spec;
use crate::decoder::Decoder;
use crate::encoder::encode_spec;
use crate::encoder::u32s;
use crate::encoder::Encoder;
use crate::pre_tokenizer::PreTokenizer;
use crate::text::clone_pairs_vec;
use crate::text::clone_string_vec;
use crate::trainer::corpus_units;
use crate::trainer::lemma_train_from_len;
use crate::trainer::train_spec;
use crate::trainer::Trainer;
use crate::vocabulary::vocab_tokens;
use crate::vocabulary::Vocabulary;
use vstd::prelude::*;

verus! {

/// A byte-level BPE tokenizer: encoding and decoding share one vocabulary
/// built from the same special tokens and merge rules.
pub struct BpeTokenizer {
    encoder: Encoder,
    decoder: Decoder,
}

impl BpeTokenizer {
    /// The rank-ordered merge rules.
    pub closed spec fn rules(&self) -> Seq<(Seq<char>, Seq<char>)> {
        self.encoder.rules()
    }

    /// The special tokens, in caller order.
    pub closed spec fn specials(&self) -> Seq<Seq<char>> {
        self.encoder.specials()
    }

    /// The shared vocabulary's token table.
    pub closed spec fn vocab(&self) -> Seq<Seq<char>> {
        self.encoder.vocab()
    }

    /// Internal consistency: the encoder is well formed and the decoder
    /// shares its vocabulary.
    pub closed spec fn wf(&self) -> bool {
        &&& self.encoder.wf()
        &&& self.decoder.vocab() == self.encoder.vocab()
    }

    /// Builds a tokenizer from merge rules and special tokens; the
    /// vocabulary is constructed from exactly these inputs.
    pub fn new(merges: Vec<(String, String)>, special_tokens: Vec<String>) -> (r: Self)
        requires
            special_tokens@.len() + 256 + merges@.len() <= u32::MAX,
            forall|i: int|
                0 <= i < special_tokens@.len() ==> (#[trigger] special_tokens.deep_view()[i]).len()
                    >= 1,
        ensures
            r.wf(),
            r.rules() == merges.deep_view(),
            r.specials() == special_tokens.deep_view(),
            r.vocab() == vocab_tokens(special_tokens.deep_view(), merges.deep_view()),
    {
        let pre_tokenizer = PreTokenizer::new();
        let specials_copy = clone_string_vec(&special_tokens);
        let merges_copy = clone_pairs_vec(&merges);
        let vocabulary = Vocabulary::new(specials_copy, merges_copy);
        let vocab_copy = vocabulary.clone();
        let encoder = Encoder::new(merges, pre_tokenizer, vocabulary, special_tokens);
        let decoder = Decoder::new(vocab_copy);
        BpeTokenizer { encoder, decoder }
    }

    /// Encodes text into its id sequence.
    pub fn encode(&self, text: &str) -> (r: Vec<u32>)
        requires
            self.wf(),
        ensures
            u32s(r@) == encode_spec(text@, self.rules(), self.specials(), self.vocab()),
    {
        self.encoder.encode(text)
    }

    /// Decodes an id sequence back into the text it stands for.
    pub fn decode(&self, ids: &[u32]) -> (r: String)
        requires
            self.wf(),
            decodable(self.vocab(), u32s(ids@)),
        ensures
            r@ == decode_spec(self.vocab(), u32s(ids@)),
    {
        self.decoder.decode(ids)
    }

    /// Trains merge rules on the corpus, then builds the tokenizer from
    /// them and the special tokens.
    pub fn from_trainer(
        trainer: &Trainer,
        training_texts: &[&str],
        special_tokens: Vec<String>,
    ) -> (r: BpeTokenizer)
        requires
            corpus_units(training_texts.deep_view()) <= usize::MAX,
            special_tokens@.len() + 256 + trainer.budget() <= u32::MAX,
            forall|i: int|
                0 <= i < special_tokens@.len() ==> (#[trigger] special_tokens.deep_view()[i]).len()
                    >= 1,
        ensures
            r.wf(),
            r.rules() == train_spec(trainer.budget(), training_texts.deep_view()),
            r.specials() == special_tokens.deep_view(),
            r.vocab() == vocab_tokens(
                special_tokens.deep_view(),
                train_spec(trainer.budget(), training_texts.deep_view()),
            ),
    {
        let merges = trainer.train(training_texts);
        proof {
            let b = trainer.budget();
            let texts = training_texts.deep_view();
            let tbl = crate::trainer::build_table(crate::trainer::corpus_words(texts));
            let toks = crate::vocabulary::base_tokens();
            lemma_train_from_len(tbl, toks, b);
            assert(train_spec(b, texts) == crate::trainer::train_from(tbl, toks, b));
            assert(merges.deep_view().len() == merges@.len());
            assert(merges@.len() <= trainer.budget());
        }
        Self::new(merges, special_tokens)
    }
}

/// Round trip at the tokenizer level: for any text and any well-formed
/// tokenizer whose special tokens are printable-ASCII strings, the encoding
/// decodes, and decoding it reproduces the text exactly.
pub proof fn lemma_tokenizer_round_trip(t: &BpeTokenizer, text: Seq<char>)
    requires
        t.wf(),
        forall|i: int| 0 <= i < t.specials().len() ==> (#[trigger] t.specials()[i]).len() >= 1,
        forall|i: int|
            0 <= i < t.specials().len() ==> crate::round_trip::ascii_printable(
                #[trigger] t.specials()[i],
            ),
    ensures
        ({
            let ids = encode_spec(text, t.rules(), t.specials(), t.vocab());
            &&& decodable(t.vocab(), ids)
            &&& decode_spec(t.vocab(), ids) == text
        }),
{
    crate::round_trip::lemma_encode_decode_round_trip(text, t.rules(), t.specials());
}

} // verus!
