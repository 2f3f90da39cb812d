//! The round-trip law: decoding an encoding reproduces the text.
//!
//! Encoding only rearranges the text's UTF-8 bytes: segmentation partitions
//! the text, the starting symbols carry one byte each, and merging fuses
//! symbols without changing their concatenation.  Decoding maps every token
//! character back to its byte, so the collected bytes are exactly the
//! text's UTF-8 encoding, and reading them back yields the text.  Special
//! tokens decode through the same byte mapping, so the law asks that their
//! characters be printable ASCII, where that mapping and UTF-8 agree.

use crate::byte_encoder::byte_char;
use crate::byte_encoder::char_byte;
use crate::byte_encoder::lemma_char_byte_of_byte_char;
use crate::decoder::char_byte_val;
use crate::decoder::chars_bytes;
use crate::decoder::decodable;
use crate::decoder::decode_spec;
use crate::decoder::ids_in_range;
use crate::decoder::tokens_chars;
use crate::decoder::tokens_decodable;
use crate::encoder::apply_merges;
use crate::encoder::chunks_specials_ok;
use crate::encoder::encode_chunk;
use crate::encoder::encode_chunks;
use crate::encoder::encode_spec;
use crate::encoder::encode_words;
use crate::encoder::find_sub;
use crate::encoder::first_rule;
use crate::encoder::lemma_apply_merges_in_vocab;
use crate::encoder::lemma_chunk_syms_in_vocab;
use crate::encoder::lemma_find_sub_spec;
use crate::encoder::lemma_first_rule_spec;
use crate::encoder::lemma_split_specials_ok;
use crate::encoder::lemma_tok_index_spec;
use crate::encoder::split_from;
use crate::encoder::split_round;
use crate::encoder::split_rounds;
use crate::encoder::split_specials;
use crate::encoder::tok_index;
use crate::encoder::word_ids;
use crate::encoder::word_in_vocab;
use crate::pre_tokenizer::lemma_partition_lossless;
use crate::pre_tokenizer::segment;
use crate::symbols::chunk_syms;
use crate::symbols::lemma_encode_utf8_concat;
use crate::symbols::lemma_merge_word_concat;
use crate::symbols::lemma_merge_word_len;
use crate::symbols::lemma_merge_word_members;
use crate::symbols::merge_word;
use crate::symbols::sym_of_byte;
use crate::vocabulary::vocab_tokens;
use vstd::prelude::*;
use vstd::utf8::encode_utf8;
use vstd::utf8::encode_utf8_decode_utf8;
use vstd::utf8::encode_utf8_valid_utf8;

verus! {

/// The codec characters of a byte run, one per byte.
pub open spec fn byte_chars(bs: Seq<u8>) -> Seq<char> {
    bs.map_values(|b: u8| byte_char(b))
}

/// The token characters of concatenated id runs concatenate.
pub proof fn lemma_tokens_chars_concat(vocab: Seq<Seq<char>>, xs: Seq<int>, ys: Seq<int>)
    ensures
        tokens_chars(vocab, xs + ys) == tokens_chars(vocab, xs) + tokens_chars(vocab, ys),
    decreases xs.len(),
{
    if xs.len() == 0 {
        assert(xs + ys =~= ys);
        assert(tokens_chars(vocab, xs) =~= Seq::<char>::empty());
        assert(tokens_chars(vocab, xs + ys) =~= tokens_chars(vocab, xs) + tokens_chars(vocab, ys));
    } else {
        assert((xs + ys).drop_first() =~= xs.drop_first() + ys);
        assert((xs + ys)[0] == xs[0]);
        lemma_tokens_chars_concat(vocab, xs.drop_first(), ys);
        assert(tokens_chars(vocab, xs + ys) =~= tokens_chars(vocab, xs) + tokens_chars(vocab, ys));
    }
}

/// The bytes of concatenated character runs concatenate.
pub proof fn lemma_chars_bytes_concat(x: Seq<char>, y: Seq<char>)
    ensures
        chars_bytes(x + y) == chars_bytes(x) + chars_bytes(y),
{
    assert(chars_bytes(x + y) =~= chars_bytes(x) + chars_bytes(y));
}

/// Repeated merging never changes the concatenation of a word's symbols.
pub proof fn lemma_apply_merges_concat(rules: Seq<(Seq<char>, Seq<char>)>, w: Seq<Seq<char>>)
    ensures
        apply_merges(rules, w).flatten() == w.flatten(),
    decreases w.len(),
{
    let k = first_rule(rules, w);
    if k >= 0 {
        lemma_first_rule_spec(rules, w);
        lemma_merge_word_len(w, rules[k].0, rules[k].1);
        lemma_merge_word_concat(w, rules[k].0, rules[k].1);
        lemma_apply_merges_concat(rules, merge_word(w, rules[k].0, rules[k].1));
    }
}

/// The starting symbols of a byte run concatenate to its codec characters.
pub proof fn lemma_chunk_syms_flatten(chunk: Seq<char>)
    ensures
        chunk_syms(chunk).flatten() == byte_chars(encode_utf8(chunk)),
{
    lemma_syms_flatten(encode_utf8(chunk));
    assert(chunk_syms(chunk) =~= encode_utf8(chunk).map_values(|b: u8| sym_of_byte(b)));
}

proof fn lemma_syms_flatten(bs: Seq<u8>)
    ensures
        bs.map_values(|b: u8| sym_of_byte(b)).flatten() == byte_chars(bs),
    decreases bs.len(),
{
    let syms = bs.map_values(|b: u8| sym_of_byte(b));
    if bs.len() == 0 {
        assert(syms.flatten() =~= byte_chars(bs));
    } else {
        lemma_syms_flatten(bs.drop_first());
        assert(syms.drop_first() =~= bs.drop_first().map_values(|b: u8| sym_of_byte(b)));
        assert(syms[0] == sym_of_byte(bs[0]));
        assert(syms.flatten() =~= byte_chars(bs));
    }
}

/// Mapping codec characters back to bytes recovers the byte run.
pub proof fn lemma_chars_bytes_byte_chars(bs: Seq<u8>)
    ensures
        chars_bytes(byte_chars(bs)) == bs,
{
    assert forall|i: int| 0 <= i < bs.len() implies chars_bytes(byte_chars(bs))[i] == bs[i] by {
        lemma_char_byte_of_byte_char(bs[i]);
        assert(byte_chars(bs)[i] == byte_char(bs[i]));
        assert(chars_bytes(byte_chars(bs))[i] == char_byte_val(byte_char(bs[i])));
    }
    assert(chars_bytes(byte_chars(bs)) =~= bs);
}

/// Whether every character of every symbol stands for a byte.
pub open spec fn word_chars_decodable(syms: Seq<Seq<char>>) -> bool {
    forall|j: int, ci: int|
        0 <= j < syms.len() && 0 <= ci < syms[j].len() ==> char_byte(#[trigger] syms[j][ci]) is Some
}

/// A chunk's starting symbols hold only codec characters.
pub proof fn lemma_chunk_syms_decodable(chunk: Seq<char>)
    ensures
        word_chars_decodable(chunk_syms(chunk)),
{
    let syms = chunk_syms(chunk);
    assert forall|j: int, ci: int|
        0 <= j < syms.len() && 0 <= ci < syms[j].len() implies char_byte(
        #[trigger] syms[j][ci],
    ) is Some by {
        let b = encode_utf8(chunk)[j];
        assert(syms[j] == sym_of_byte(b));
        lemma_char_byte_of_byte_char(b);
    }
}

/// Merging keeps every symbol character a codec character.
pub proof fn lemma_apply_merges_decodable(rules: Seq<(Seq<char>, Seq<char>)>, w: Seq<Seq<char>>)
    requires
        word_chars_decodable(w),
    ensures
        word_chars_decodable(apply_merges(rules, w)),
    decreases w.len(),
{
    let k = first_rule(rules, w);
    if k >= 0 {
        lemma_first_rule_spec(rules, w);
        let a = rules[k].0;
        let b = rules[k].1;
        let w2 = merge_word(w, a, b);
        lemma_merge_word_members(w, a, b);
        let pi = choose|i: int| 0 <= i && i + 1 < w.len() && #[trigger] w[i] == a && w[i + 1] == b;
        assert forall|j: int, ci: int|
            0 <= j < w2.len() && 0 <= ci < w2[j].len() implies char_byte(
            #[trigger] w2[j][ci],
        ) is Some by {
            if w2[j] == a + b {
                if ci < a.len() {
                    assert(w2[j][ci] == w[pi][ci]);
                } else {
                    assert(w2[j][ci] == w[pi + 1][ci - a.len()]);
                }
            } else {
                let i = choose|i: int| 0 <= i < w.len() && w[i] == w2[j];
                assert(char_byte(w[i][ci]) is Some);
            }
        }
        lemma_merge_word_len(w, a, b);
        lemma_apply_merges_decodable(rules, w2);
    }
}

/// Resolving a vocabulary word's ids and reading them back yields the same
/// symbols, hence the same characters.
pub proof fn lemma_word_ids_round(vocab: Seq<Seq<char>>, syms: Seq<Seq<char>>)
    requires
        word_in_vocab(vocab, syms),
    ensures
        ids_in_range(vocab, word_ids(vocab, syms)),
        tokens_chars(vocab, word_ids(vocab, syms)) == syms.flatten(),
        word_chars_decodable(syms) ==> tokens_decodable(vocab, word_ids(vocab, syms)),
    decreases syms.len(),
{
    let ids = word_ids(vocab, syms);
    assert forall|j: int| 0 <= j < ids.len() implies 0 <= #[trigger] ids[j] < vocab.len() by {
        assert(ids[j] == tok_index(vocab, syms[j]));
        lemma_tok_index_spec(vocab, syms[j]);
    }
    assert forall|j: int| 0 <= j < ids.len() implies vocab[#[trigger] ids[j]] == syms[j] by {
        assert(ids[j] == tok_index(vocab, syms[j]));
        lemma_tok_index_spec(vocab, syms[j]);
    }
    if syms.len() == 0 {
        assert(tokens_chars(vocab, ids) =~= syms.flatten());
    } else {
        assert forall|j: int|
            0 <= j < syms.drop_first().len() implies tok_index(
            vocab,
            #[trigger] syms.drop_first()[j],
        ) >= 0 by {
            assert(syms.drop_first()[j] == syms[j + 1]);
        }
        lemma_word_ids_round(vocab, syms.drop_first());
        assert(ids.drop_first() =~= word_ids(vocab, syms.drop_first()));
        assert(ids[0] == tok_index(vocab, syms[0]));
        assert(vocab[ids[0]] == syms[0]);
        assert(tokens_chars(vocab, ids) =~= syms.flatten());
    }
    if word_chars_decodable(syms) {
        assert forall|j: int, ci: int|
            0 <= j < ids.len() && 0 <= ci < vocab[ids[j]].len() implies char_byte(
            #[trigger] vocab[ids[j]][ci],
        ) is Some by {
            assert(vocab[ids[j]] == syms[j]);
            assert(char_byte(syms[j][ci]) is Some);
        }
    }
}

/// The ids of a run of segmenter chunks are in range and decodable, and
/// their bytes are the UTF-8 encoding of the chunks' concatenation.
pub proof fn lemma_encode_words_props(
    specials: Seq<Seq<char>>,
    rules: Seq<(Seq<char>, Seq<char>)>,
    wchunks: Seq<Seq<char>>,
)
    ensures
        ({
            let vocab = vocab_tokens(specials, rules);
            let ids = encode_words(vocab, rules, wchunks);
            &&& ids_in_range(vocab, ids)
            &&& tokens_decodable(vocab, ids)
            &&& chars_bytes(tokens_chars(vocab, ids)) == encode_utf8(wchunks.flatten())
        }),
    decreases wchunks.len(),
{
    let vocab = vocab_tokens(specials, rules);
    let ids = encode_words(vocab, rules, wchunks);
    if wchunks.len() == 0 {
        assert(wchunks.flatten() =~= Seq::<char>::empty());
        assert(tokens_chars(vocab, ids) =~= Seq::<char>::empty());
        assert(chars_bytes(tokens_chars(vocab, ids)) =~= encode_utf8(wchunks.flatten()));
    } else {
        let chunk = wchunks[0];
        let syms = apply_merges(rules, chunk_syms(chunk));
        let head = word_ids(vocab, syms);
        let rest = encode_words(vocab, rules, wchunks.drop_first());
        lemma_encode_words_props(specials, rules, wchunks.drop_first());
        lemma_chunk_syms_in_vocab(specials, rules, chunk);
        lemma_apply_merges_in_vocab(specials, rules, chunk_syms(chunk));
        lemma_chunk_syms_decodable(chunk);
        lemma_apply_merges_decodable(rules, chunk_syms(chunk));
        lemma_word_ids_round(vocab, syms);
        lemma_apply_merges_concat(rules, chunk_syms(chunk));
        lemma_chunk_syms_flatten(chunk);
        lemma_chars_bytes_byte_chars(encode_utf8(chunk));
        assert(chars_bytes(tokens_chars(vocab, head)) == encode_utf8(chunk));
        lemma_tokens_chars_concat(vocab, head, rest);
        lemma_chars_bytes_concat(tokens_chars(vocab, head), tokens_chars(vocab, rest));
        assert(wchunks.flatten() == chunk + wchunks.drop_first().flatten());
        lemma_encode_utf8_concat(chunk, wchunks.drop_first().flatten());
        assert(ids =~= head + rest);
        assert forall|j: int| 0 <= j < ids.len() implies 0 <= #[trigger] ids[j] < vocab.len() by {
            if j < head.len() {
                assert(ids[j] == head[j]);
            } else {
                assert(ids[j] == rest[j - head.len()]);
            }
        }
        assert forall|j: int, ci: int|
            0 <= j < ids.len() && 0 <= ci < vocab[ids[j]].len() implies char_byte(
            #[trigger] vocab[ids[j]][ci],
        ) is Some by {
            if j < head.len() {
                assert(ids[j] == head[j]);
                assert(char_byte(vocab[head[j]][ci]) is Some);
            } else {
                assert(ids[j] == rest[j - head.len()]);
                assert(char_byte(vocab[rest[j - head.len()]][ci]) is Some);
            }
        }
        assert(chars_bytes(tokens_chars(vocab, ids)) == encode_utf8(wchunks.flatten()));
    }
}

/// Whether every character of a string is printable ASCII.
pub open spec fn ascii_printable(s: Seq<char>) -> bool {
    forall|ci: int| 0 <= ci < s.len() ==> 33 <= (#[trigger] s[ci]) as u32 <= 126
}

/// A printable-ASCII token decodes to its own UTF-8 bytes.
pub proof fn lemma_ascii_token_bytes(s: Seq<char>)
    requires
        ascii_printable(s),
    ensures
        forall|ci: int| 0 <= ci < s.len() ==> char_byte(#[trigger] s[ci]) is Some,
        chars_bytes(s) == encode_utf8(s),
    decreases s.len(),
{
    if s.len() == 0 {
        assert(chars_bytes(s) =~= encode_utf8(s));
    } else {
        assert forall|ci: int| 0 <= ci < s.drop_first().len() implies 33 <= (
        #[trigger] s.drop_first()[ci]) as u32 <= 126 by {
            assert(s.drop_first()[ci] == s[ci + 1]);
        }
        lemma_ascii_token_bytes(s.drop_first());
        let u = s[0] as u32;
        assert(33 <= u <= 126);
        assert(u & 0x7F == u) by (bit_vector)
            requires
                u <= 126,
        ;
        assert(vstd::utf8::encode_scalar(u) =~= seq![u as u8]);
        assert(char_byte(s[0]) == Some(u as u8));
        assert(chars_bytes(s) =~= encode_utf8(s));
    }
}

/// The concatenation of a chunk list's texts.
pub open spec fn chunks_text(chunks: Seq<(Seq<char>, bool)>) -> Seq<char>
    decreases chunks.len(),
{
    if chunks.len() == 0 {
        seq![]
    } else {
        chunks[0].0 + chunks_text(chunks.drop_first())
    }
}

/// The text of a single chunk.
proof fn lemma_chunks_text_singleton(c: (Seq<char>, bool))
    ensures
        chunks_text(seq![c]) == c.0,
{
    assert(seq![c].drop_first() =~= Seq::<(Seq<char>, bool)>::empty());
    assert(chunks_text(Seq::<(Seq<char>, bool)>::empty()) =~= Seq::<char>::empty());
    assert(chunks_text(seq![c]) =~= c.0);
}

/// Chunk texts concatenate over concatenated chunk lists.
proof fn lemma_chunks_text_concat(x: Seq<(Seq<char>, bool)>, y: Seq<(Seq<char>, bool)>)
    ensures
        chunks_text(x + y) == chunks_text(x) + chunks_text(y),
    decreases x.len(),
{
    if x.len() == 0 {
        assert(x + y =~= y);
        assert(chunks_text(x) =~= Seq::<char>::empty());
        assert(chunks_text(x + y) =~= chunks_text(x) + chunks_text(y));
    } else {
        assert((x + y).drop_first() =~= x.drop_first() + y);
        assert((x + y)[0] == x[0]);
        lemma_chunks_text_concat(x.drop_first(), y);
        assert(chunks_text(x + y) =~= chunks_text(x) + chunks_text(y));
    }
}

/// Splitting by one token preserves the text from the split position on.
proof fn lemma_split_from_text(text: Seq<char>, pat: Seq<char>, pos: int)
    requires
        0 <= pos <= text.len(),
        pat.len() >= 1,
    ensures
        chunks_text(split_from(text, pat, pos)) == text.skip(pos),
    decreases text.len() - pos,
{
    let i = find_sub(text, pat, pos);
    lemma_find_sub_spec(text, pat, pos);
    if i < 0 {
        if pos < text.len() {
            lemma_chunks_text_singleton((text.skip(pos), false));
        } else {
            assert(text.skip(pos) =~= Seq::<char>::empty());
            assert(chunks_text(split_from(text, pat, pos)) =~= text.skip(pos));
        }
    } else {
        lemma_split_from_text(text, pat, i + pat.len());
        let head = if i > pos {
            seq![(text.subrange(pos, i), false)]
        } else {
            Seq::<(Seq<char>, bool)>::empty()
        };
        let rest = split_from(text, pat, i + pat.len());
        lemma_chunks_text_concat(head + seq![(pat, true)], rest);
        lemma_chunks_text_concat(head, seq![(pat, true)]);
        lemma_chunks_text_singleton((pat, true));
        if i > pos {
            lemma_chunks_text_singleton((text.subrange(pos, i), false));
        } else {
            assert(chunks_text(head) =~= Seq::<char>::empty());
        }
        assert(text.subrange(i, i + pat.len()) == pat);
        assert(text.skip(pos) =~= text.subrange(pos, i) + text.subrange(i, i + pat.len())
            + text.skip(i + pat.len()));
        assert(chunks_text(split_from(text, pat, pos)) =~= text.skip(pos));
    }
}

/// One splitting round preserves the concatenation of the chunk texts.
proof fn lemma_split_round_text(chunks: Seq<(Seq<char>, bool)>, pat: Seq<char>)
    requires
        pat.len() >= 1,
    ensures
        chunks_text(split_round(chunks, pat)) == chunks_text(chunks),
    decreases chunks.len(),
{
    if chunks.len() > 0 {
        lemma_split_round_text(chunks.drop_first(), pat);
        let head = if chunks[0].1 {
            seq![chunks[0]]
        } else {
            split_from(chunks[0].0, pat, 0)
        };
        if chunks[0].1 {
            lemma_chunks_text_singleton(chunks[0]);
        } else {
            lemma_split_from_text(chunks[0].0, pat, 0);
            assert(chunks[0].0.skip(0) =~= chunks[0].0);
        }
        lemma_chunks_text_concat(head, split_round(chunks.drop_first(), pat));
        assert(chunks_text(split_round(chunks, pat)) =~= chunks_text(chunks));
    }
}

/// Splitting by the special tokens from position `off` on preserves the
/// concatenation of the chunk texts.
proof fn lemma_split_rounds_text(chunks: Seq<(Seq<char>, bool)>, all: Seq<Seq<char>>, off: int)
    requires
        0 <= off <= all.len(),
        forall|i: int| 0 <= i < all.len() ==> (#[trigger] all[i]).len() >= 1,
    ensures
        chunks_text(split_rounds(chunks, all.skip(off))) == chunks_text(chunks),
    decreases all.len() - off,
{
    if off < all.len() {
        let sps = all.skip(off);
        assert(sps[0] == all[off]);
        lemma_split_round_text(chunks, all[off]);
        assert(sps.drop_first() =~= all.skip(off + 1));
        lemma_split_rounds_text(split_round(chunks, all[off]), all, off + 1);
    } else {
        assert(all.skip(off) =~= Seq::<Seq<char>>::empty());
    }
}

/// The special-token split is lossless: the chunk texts concatenate back to
/// the text.
pub proof fn lemma_split_specials_text(text: Seq<char>, specials: Seq<Seq<char>>)
    requires
        forall|i: int| 0 <= i < specials.len() ==> (#[trigger] specials[i]).len() >= 1,
    ensures
        chunks_text(split_specials(text, specials)) == text,
{
    lemma_chunks_text_singleton((text, false));
    assert(specials.skip(0) =~= specials);
    lemma_split_rounds_text(seq![(text, false)], specials, 0);
}

/// The ids of a chunk list are in range and decodable, and their bytes are
/// the UTF-8 encoding of the chunk texts' concatenation.
proof fn lemma_encode_chunks_props(
    specials: Seq<Seq<char>>,
    rules: Seq<(Seq<char>, Seq<char>)>,
    chunks: Seq<(Seq<char>, bool)>,
)
    requires
        chunks_specials_ok(chunks, specials),
        forall|i: int| 0 <= i < specials.len() ==> ascii_printable(#[trigger] specials[i]),
    ensures
        ({
            let vocab = vocab_tokens(specials, rules);
            let ids = encode_chunks(vocab, rules, chunks);
            &&& ids_in_range(vocab, ids)
            &&& tokens_decodable(vocab, ids)
            &&& chars_bytes(tokens_chars(vocab, ids)) == encode_utf8(chunks_text(chunks))
        }),
    decreases chunks.len(),
{
    let vocab = vocab_tokens(specials, rules);
    let ids = encode_chunks(vocab, rules, chunks);
    if chunks.len() == 0 {
        assert(chunks_text(chunks) =~= Seq::<char>::empty());
        assert(tokens_chars(vocab, ids) =~= Seq::<char>::empty());
        assert(chars_bytes(tokens_chars(vocab, ids)) =~= encode_utf8(chunks_text(chunks)));
    } else {
        let c = chunks[0];
        let head = encode_chunk(vocab, rules, c);
        let rest = encode_chunks(vocab, rules, chunks.drop_first());
        assert forall|j: int|
            0 <= j < chunks.drop_first().len() && (#[trigger] chunks.drop_first()[j]).1 implies exists|i: int|
            0 <= i < specials.len() && specials[i] == chunks.drop_first()[j].0 by {
            assert(chunks.drop_first()[j] == chunks[j + 1]);
        }
        lemma_encode_chunks_props(specials, rules, chunks.drop_first());
        if c.1 {
            let s = c.0;
            let si = choose|i: int| 0 <= i < specials.len() && specials[i] == s;
            assert(vocab[si] == specials[si]);
            crate::encoder::lemma_tok_index_found(vocab, s, si);
            lemma_tok_index_spec(vocab, s);
            let id = tok_index(vocab, s);
            assert(head =~= seq![id]);
            assert(head.drop_first() =~= Seq::<int>::empty());
            assert(tokens_chars(vocab, Seq::<int>::empty()) =~= Seq::<char>::empty());
            assert(tokens_chars(vocab, head) =~= s);
            lemma_ascii_token_bytes(s);
            assert(chars_bytes(tokens_chars(vocab, head)) == encode_utf8(s));
            assert forall|j: int, ci: int|
                0 <= j < head.len() && 0 <= ci < vocab[head[j]].len() implies char_byte(
                #[trigger] vocab[head[j]][ci],
            ) is Some by {
                assert(vocab[head[j]] == s);
                assert(char_byte(s[ci]) is Some);
            }
        } else {
            lemma_encode_words_props(specials, rules, segment(c.0));
            lemma_partition_lossless(c.0);
        }
        assert(chars_bytes(tokens_chars(vocab, head)) == encode_utf8(c.0));
        lemma_tokens_chars_concat(vocab, head, rest);
        lemma_chars_bytes_concat(tokens_chars(vocab, head), tokens_chars(vocab, rest));
        lemma_encode_utf8_concat(c.0, chunks_text(chunks.drop_first()));
        assert(ids =~= head + rest);
        assert forall|j: int| 0 <= j < ids.len() implies 0 <= #[trigger] ids[j] < vocab.len() by {
            if j < head.len() {
                assert(ids[j] == head[j]);
            } else {
                assert(ids[j] == rest[j - head.len()]);
            }
        }
        assert forall|j: int, ci: int|
            0 <= j < ids.len() && 0 <= ci < vocab[ids[j]].len() implies char_byte(
            #[trigger] vocab[ids[j]][ci],
        ) is Some by {
            if j < head.len() {
                assert(ids[j] == head[j]);
                assert(char_byte(vocab[head[j]][ci]) is Some);
            } else {
                assert(ids[j] == rest[j - head.len()]);
                assert(char_byte(vocab[rest[j - head.len()]][ci]) is Some);
            }
        }
        assert(chars_bytes(tokens_chars(vocab, ids)) == encode_utf8(chunks_text(chunks)));
    }
}

/// Round trip: for any text and any tokenizer built from a rule list and
/// printable-ASCII special tokens, the encoding decodes, and decoding it
/// reproduces the text exactly.
pub proof fn lemma_encode_decode_round_trip(
    text: Seq<char>,
    rules: Seq<(Seq<char>, Seq<char>)>,
    specials: Seq<Seq<char>>,
)
    requires
        forall|i: int| 0 <= i < specials.len() ==> (#[trigger] specials[i]).len() >= 1,
        forall|i: int| 0 <= i < specials.len() ==> ascii_printable(#[trigger] specials[i]),
    ensures
        ({
            let vocab = vocab_tokens(specials, rules);
            let ids = encode_spec(text, rules, specials, vocab);
            &&& decodable(vocab, ids)
            &&& decode_spec(vocab, ids) == text
        }),
{
    let vocab = vocab_tokens(specials, rules);
    let chunks = split_specials(text, specials);
    let ids = encode_spec(text, rules, specials, vocab);
    lemma_split_specials_ok(text, specials);
    lemma_encode_chunks_props(specials, rules, chunks);
    lemma_split_specials_text(text, specials);
    assert(chars_bytes(tokens_chars(vocab, ids)) == encode_utf8(text));
    encode_utf8_valid_utf8(text);
    encode_utf8_decode_utf8(text);
}

} // verus!
