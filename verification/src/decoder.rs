//! Decoding token ids back into text.
//!
//! Each id is resolved to its token string, every character of the token is
//! mapped back to the byte it stands for, and the collected bytes are read
//! as UTF-8 text.  An id outside the vocabulary, a character outside the
//! byte mapping's image, or a byte buffer that is not valid UTF-8 signals
//! ids that this tokenizer's encoder never produced, so the contract rules
//! those inputs out rather than fabricate text.

use crate::byte_encoder::char_byte;
use crate::encoder::u32s;
use crate::byte_encoder::decode_char;
use crate::text::str_to_chars;
use crate::text::string_from_utf8;
use crate::vocabulary::Vocabulary;
use vstd::prelude::*;
use vstd::utf8::decode_utf8;
use vstd::utf8::encode_utf8_decode_utf8;
use vstd::utf8::valid_utf8;

verus! {

/// Whether every id falls inside the vocabulary.
pub open spec fn ids_in_range(vocab: Seq<Seq<char>>, ids: Seq<int>) -> bool {
    forall|j: int| 0 <= j < ids.len() ==> 0 <= #[trigger] ids[j] < vocab.len()
}

/// The characters of the referenced tokens, concatenated in id order.
pub open spec fn tokens_chars(vocab: Seq<Seq<char>>, ids: Seq<int>) -> Seq<char>
    decreases ids.len(),
{
    if ids.len() == 0 {
        seq![]
    } else {
        vocab[ids[0]] + tokens_chars(vocab, ids.drop_first())
    }
}

/// Whether every character of every referenced token stands for a byte.
pub open spec fn tokens_decodable(vocab: Seq<Seq<char>>, ids: Seq<int>) -> bool {
    forall|j: int, ci: int|
        0 <= j < ids.len() && 0 <= ci < vocab[ids[j]].len() ==> char_byte(
            #[trigger] vocab[ids[j]][ci],
        ) is Some
}

/// The byte a character stands for.
pub open spec fn char_byte_val(c: char) -> u8 {
    char_byte(c)->Some_0
}

/// The bytes a character run stands for.
pub open spec fn chars_bytes(cs: Seq<char>) -> Seq<u8> {
    cs.map_values(|c: char| char_byte_val(c))
}

/// Whether an id sequence decodes: ids in range, every token character maps
/// back to a byte, and the byte run is valid UTF-8.
pub open spec fn decodable(vocab: Seq<Seq<char>>, ids: Seq<int>) -> bool {
    &&& ids_in_range(vocab, ids)
    &&& tokens_decodable(vocab, ids)
    &&& valid_utf8(chars_bytes(tokens_chars(vocab, ids)))
}

/// The text an id sequence decodes to.
pub open spec fn decode_spec(vocab: Seq<Seq<char>>, ids: Seq<int>) -> Seq<char> {
    decode_utf8(chars_bytes(tokens_chars(vocab, ids)))
}

/// One more id appends its token's characters on the right.
pub proof fn lemma_tokens_chars_push(vocab: Seq<Seq<char>>, ids: Seq<int>, id: int)
    ensures
        tokens_chars(vocab, ids.push(id)) == tokens_chars(vocab, ids) + vocab[id],
    decreases ids.len(),
{
    if ids.len() == 0 {
        assert(ids.push(id)[0] == id);
        assert(ids.push(id).drop_first() =~= Seq::<int>::empty());
        assert(tokens_chars(vocab, Seq::<int>::empty()) =~= Seq::<char>::empty());
        assert(tokens_chars(vocab, ids.push(id)) =~= tokens_chars(vocab, ids) + vocab[id]);
    } else {
        assert(ids.push(id).drop_first() =~= ids.drop_first().push(id));
        lemma_tokens_chars_push(vocab, ids.drop_first(), id);
        assert(ids.push(id)[0] == ids[0]);
        assert(tokens_chars(vocab, ids.push(id)) =~= tokens_chars(vocab, ids) + vocab[id]);
    }
}

/// Decodes id sequences against a fixed vocabulary.
pub struct Decoder {
    vocabulary: Vocabulary,
}

impl Decoder {
    /// The vocabulary's token table.
    pub closed spec fn vocab(&self) -> Seq<Seq<char>> {
        self.vocabulary@
    }

    /// A decoder over the given vocabulary.
    pub fn new(vocabulary: Vocabulary) -> (r: Self)
        ensures
            r.vocab() == vocabulary@,
    {
        Decoder { vocabulary }
    }

    /// Decodes a sequence of token ids back into the text they stand for.
    pub fn decode(&self, token_ids: &[u32]) -> (r: String)
        requires
            decodable(self.vocab(), u32s(token_ids@)),
        ensures
            r@ == decode_spec(self.vocab(), u32s(token_ids@)),
    {
        let ghost vocab = self.vocab();
        let ghost ids = u32s(token_ids@);
        let n = token_ids.len();
        let mut bytes: Vec<u8> = Vec::new();
        let mut ii: usize = 0;
        proof {
            assert(ids.take(0) =~= Seq::<int>::empty());
            assert(bytes@ =~= chars_bytes(tokens_chars(vocab, ids.take(0))));
        }
        while ii < n
            invariant
                ii <= n,
                n == ids.len(),
                ids == u32s(token_ids@),
                vocab == self.vocab(),
                decodable(vocab, ids),
                bytes@ == chars_bytes(tokens_chars(vocab, ids.take(ii as int))),
            decreases n - ii,
        {
            let id = token_ids[ii];
            proof {
                assert(ids[ii as int] == token_ids@[ii as int] as int);
            }
            let ghost tdv = vocab[id as int];
            let tok: &str = match self.vocabulary.id_to_token(id) {
                Some(t) => t,
                None => {
                    proof {
                        assert(ids[ii as int] < vocab.len());
                        assert(false);
                    }
                    vstd::pervasive::unreached()
                },
            };
            let chars = str_to_chars(tok);
            let nc = chars.len();
            let ghost base = bytes@;
            let mut ci: usize = 0;
            proof {
                assert(tdv.take(0) =~= Seq::<char>::empty());
                assert(bytes@ =~= base + chars_bytes(tdv.take(0)));
            }
            while ci < nc
                invariant
                    ci <= nc,
                    nc == tdv.len(),
                    chars@ == tdv,
                    vocab == self.vocab(),
                    ids == u32s(token_ids@),
                    0 <= ii < ids.len(),
                    tdv == vocab[ids[ii as int]],
                    decodable(vocab, ids),
                    bytes@ == base + chars_bytes(tdv.take(ci as int)),
                decreases nc - ci,
            {
                let c = chars[ci];
                proof {
                    assert(char_byte(vocab[ids[ii as int]][ci as int]) is Some);
                }
                let b = match decode_char(c) {
                    Some(b) => b,
                    None => {
                        proof {
                            assert(false);
                        }
                        vstd::pervasive::unreached()
                    },
                };
                bytes.push(b);
                proof {
                    assert(tdv.take(ci + 1) =~= tdv.take(ci as int).push(tdv[ci as int]));
                    assert(chars_bytes(tdv.take(ci + 1)) =~= chars_bytes(tdv.take(ci as int)).push(
                        char_byte_val(tdv[ci as int]),
                    ));
                    assert(bytes@ =~= base + chars_bytes(tdv.take(ci + 1)));
                }
                ci = ci + 1;
            }
            proof {
                assert(tdv.take(nc as int) =~= tdv);
                assert(ids.take(ii + 1) =~= ids.take(ii as int).push(ids[ii as int]));
                lemma_tokens_chars_push(vocab, ids.take(ii as int), ids[ii as int]);
                assert(chars_bytes(tokens_chars(vocab, ids.take(ii as int)) + tdv) =~= chars_bytes(
                    tokens_chars(vocab, ids.take(ii as int)),
                ) + chars_bytes(tdv));
                assert(bytes@ =~= chars_bytes(tokens_chars(vocab, ids.take(ii + 1))));
            }
            ii = ii + 1;
        }
        proof {
            assert(ids.take(n as int) =~= ids);
        }
        match string_from_utf8(bytes) {
            Some(s) => {
                proof {
                    encode_utf8_decode_utf8(s@);
                }
                s
            },
            None => {
                proof {
                    assert(false);
                }
                vstd::pervasive::unreached()
            },
        }
    }
}

} // verus!
