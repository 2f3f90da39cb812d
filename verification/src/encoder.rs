//! Encoding text into token ids.
//!
//! Text is first split on the caller's special tokens, scanned in list
//! order; each special chunk maps directly to its id.  Every other chunk is
//! segmented, expanded to byte-level symbols, and merged: the rule list is
//! scanned in rank order, the first rule whose pair occurs anywhere is
//! applied to all its non-overlapping occurrences at once, and the scan
//! restarts from rank zero until no rule applies.  The final symbols are
//! looked up in the vocabulary.

use crate::pre_tokenizer::segment;
use crate::pre_tokenizer::PreTokenizer;
use crate::symbols::chunk_syms;
use crate::symbols::chunk_to_symbols;
use crate::symbols::has_pair;
use crate::symbols::lemma_merge_word_len;
use crate::symbols::lemma_merge_word_members;
use crate::symbols::merge_symbols;
use crate::symbols::merge_word;
use crate::symbols::string_eq;
use crate::symbols::sym_of_byte;
use crate::text::chars_to_string;
use crate::text::concat_strings;
use crate::text::str_to_chars;
use crate::vocabulary::base_token;
use crate::vocabulary::base_tokens;
use crate::vocabulary::byte_rank;
use crate::vocabulary::lemma_base_tokens;
use crate::vocabulary::vocab_tokens;
use crate::vocabulary::Vocabulary;
use vstd::prelude::*;

verus! {

/// The first position at or after `from` where `pat` occurs in `text`, or -1
/// when it occurs nowhere at or after `from`.
pub open spec fn find_sub(text: Seq<char>, pat: Seq<char>, from: int) -> int
    decreases text.len() - from + 1,
{
    if !(0 <= from && from + pat.len() <= text.len()) {
        -1
    } else if text.subrange(from, from + pat.len()) == pat {
        from
    } else {
        find_sub(text, pat, from + 1)
    }
}

/// What `find_sub` finds: a match with none earlier, or no match at all.
pub proof fn lemma_find_sub_spec(text: Seq<char>, pat: Seq<char>, from: int)
    requires
        0 <= from,
    ensures
        find_sub(text, pat, from) >= 0 ==> {
            &&& from <= find_sub(text, pat, from)
            &&& find_sub(text, pat, from) + pat.len() <= text.len()
            &&& text.subrange(
                find_sub(text, pat, from),
                find_sub(text, pat, from) + pat.len(),
            ) == pat
            &&& forall|i: int|
                from <= i < find_sub(text, pat, from) ==> #[trigger] text.subrange(
                    i,
                    i + pat.len(),
                ) != pat
        },
        find_sub(text, pat, from) < 0 ==> forall|i: int|
            from <= i && i + pat.len() <= text.len() ==> #[trigger] text.subrange(i, i + pat.len())
                != pat,
    decreases text.len() - from,
{
    if 0 <= from && from + pat.len() <= text.len() && text.subrange(from, from + pat.len())
        != pat {
        assert(pat.len() >= 1) by {
            if pat.len() == 0 {
                assert(text.subrange(from, from + pat.len()) =~= pat);
            }
        }
        lemma_find_sub_spec(text, pat, from + 1);
        let r = find_sub(text, pat, from);
        if r >= 0 {
            assert forall|i: int| from <= i < r implies #[trigger] text.subrange(i, i + pat.len())
                != pat by {
                if i > from {
                    assert(find_sub(text, pat, from + 1) == r);
                }
            }
        }
    }
}

/// The split of `text` from position `pos` on by the literal pattern `pat`:
/// non-empty stretches between occurrences, and one marked piece per
/// occurrence.
pub open spec fn split_from(text: Seq<char>, pat: Seq<char>, pos: int) -> Seq<(Seq<char>, bool)>
    decreases text.len() - pos,
        when 0 <= pos && pat.len() >= 1 via split_from_decreases
{
    let i = find_sub(text, pat, pos);
    if i < 0 {
        if pos < text.len() {
            seq![(text.skip(pos), false)]
        } else {
            seq![]
        }
    } else {
        (if i > pos {
            seq![(text.subrange(pos, i), false)]
        } else {
            seq![]
        }) + seq![(pat, true)] + split_from(text, pat, i + pat.len())
    }
}

#[via_fn]
proof fn split_from_decreases(text: Seq<char>, pat: Seq<char>, pos: int) {
    lemma_find_sub_spec(text, pat, pos);
}

/// One round of splitting: every non-special chunk is split by `pat`;
/// already-special chunks pass through.
pub open spec fn split_round(chunks: Seq<(Seq<char>, bool)>, pat: Seq<char>) -> Seq<
    (Seq<char>, bool),
>
    decreases chunks.len(),
{
    if chunks.len() == 0 {
        seq![]
    } else {
        (if chunks[0].1 {
            seq![chunks[0]]
        } else {
            split_from(chunks[0].0, pat, 0)
        }) + split_round(chunks.drop_first(), pat)
    }
}

/// The chunks after splitting by every special token, in list order.
pub open spec fn split_rounds(
    chunks: Seq<(Seq<char>, bool)>,
    specials: Seq<Seq<char>>,
) -> Seq<(Seq<char>, bool)>
    decreases specials.len(),
{
    if specials.len() == 0 {
        chunks
    } else {
        split_rounds(split_round(chunks, specials[0]), specials.drop_first())
    }
}

/// The special-token split of a text: the whole text starts as one
/// non-special chunk.
pub open spec fn split_specials(text: Seq<char>, specials: Seq<Seq<char>>) -> Seq<
    (Seq<char>, bool),
> {
    split_rounds(seq![(text, false)], specials)
}

/// The exec model of a chunk list.
pub open spec fn chunks_model(v: Seq<(String, bool)>) -> Seq<(Seq<char>, bool)> {
    Seq::new(v.len(), |i: int| (v[i].0@, v[i].1))
}

/// The first occurrence of `pat` in `chars` at or after `from`.
fn find_sub_exec(chars: &Vec<char>, pat: &Vec<char>, from: usize) -> (r: Option<usize>)
    ensures
        match r {
            Some(i) => from <= i && i as int == find_sub(chars@, pat@, from as int),
            None => find_sub(chars@, pat@, from as int) < 0,
        },
{
    let n = chars.len();
    let m = pat.len();
    if m > n || from > n {
        proof {
            lemma_find_sub_spec(chars@, pat@, from as int);
        }
        return None;
    }
    let mut i = from;
    while i <= n - m
        invariant
            from <= i,
            i <= n + 1,
            m <= n,
            n == chars@.len(),
            m == pat@.len(),
            find_sub(chars@, pat@, from as int) == find_sub(chars@, pat@, i as int),
        decreases n - i,
    {
        proof {
            assert(chars@.subrange(i as int, i as int) =~= pat@.subrange(0, 0));
        }
        let mut j: usize = 0;
        let mut ok = true;
        while j < m
            invariant
                j <= m,
                m == pat@.len(),
                n == chars@.len(),
                i + m <= n,
                ok == (chars@.subrange(i as int, i + j) == pat@.subrange(0, j as int)),
            decreases m - j,
        {
            let same = chars[i + j] == pat[j];
            proof {
                if ok && same {
                    assert(chars@.subrange(i as int, i + j + 1) =~= chars@.subrange(
                        i as int,
                        i + j,
                    ).push(chars@[i + j]));
                    assert(pat@.subrange(0, j + 1) =~= pat@.subrange(0, j as int).push(pat@[
                    j as int]));
                } else {
                    if chars@.subrange(i as int, i + j + 1) == pat@.subrange(0, j + 1) {
                        assert(chars@.subrange(i as int, i + j) =~= chars@.subrange(
                            i as int,
                            i + j + 1,
                        ).take(j as int));
                        assert(pat@.subrange(0, j as int) =~= pat@.subrange(0, j + 1).take(
                            j as int,
                        ));
                        assert(chars@[i + j] == chars@.subrange(i as int, i + j + 1)[j as int]);
                        assert(pat@[j as int] == pat@.subrange(0, j + 1)[j as int]);
                    }
                }
            }
            ok = ok && same;
            j = j + 1;
        }
        proof {
            assert(pat@.subrange(0, m as int) =~= pat@);
        }
        if ok {
            return Some(i);
        }
        proof {
            assert(find_sub(chars@, pat@, i as int) == find_sub(chars@, pat@, i + 1));
        }
        i = i + 1;
    }
    proof {
        lemma_find_sub_spec(chars@, pat@, i as int);
    }
    None
}

/// The piece of `chars` from `lo` to `hi`, as a string.
fn substring_of(chars: &Vec<char>, lo: usize, hi: usize) -> (r: String)
    requires
        lo <= hi <= chars@.len(),
    ensures
        r@ == chars@.subrange(lo as int, hi as int),
{
    let mut piece: Vec<char> = Vec::new();
    let mut j = lo;
    while j < hi
        invariant
            lo <= j <= hi <= chars@.len(),
            piece@ == chars@.subrange(lo as int, j as int),
        decreases hi - j,
    {
        piece.push(chars[j]);
        proof {
            assert(piece@ =~= chars@.subrange(lo as int, j + 1));
        }
        j = j + 1;
    }
    chars_to_string(&piece)
}

/// Splits one non-special chunk by one special token, left to right; empty
/// fragments between occurrences are dropped.
fn split_chunk_on_token(text: &String, token: &String, out: &mut Vec<(String, bool)>)
    requires
        token@.len() >= 1,
    ensures
        chunks_model(final(out)@) == chunks_model(old(out)@) + split_from(text@, token@, 0),
{
    let tchars = str_to_chars(text.as_str());
    let pchars = str_to_chars(token.as_str());
    let n = tchars.len();
    let m = pchars.len();
    let ghost base = chunks_model(out@);
    let mut pos: usize = 0;
    proof {
        assert(chunks_model(out@) + split_from(text@, token@, 0) =~= base + split_from(
            text@,
            token@,
            0,
        ));
    }
    loop
        invariant
            pos <= n,
            n == text@.len(),
            m == token@.len(),
            m >= 1,
            tchars@ == text@,
            pchars@ == token@,
            chunks_model(out@) + split_from(text@, token@, pos as int) == base + split_from(
                text@,
                token@,
                0,
            ),
        ensures
            pos == n,
        decreases n - pos,
    {
        if pos == n {
            break ;
        }
        let found = find_sub_exec(&tchars, &pchars, pos);
        match found {
            Some(i) => {
                proof {
                    lemma_find_sub_spec(text@, token@, pos as int);
                }
                let ghost prev = chunks_model(out@);
                if i > pos {
                    let piece = substring_of(&tchars, pos, i);
                    out.push((piece, false));
                    proof {
                        assert forall|l: int| 0 <= l < prev.len() + 1 implies chunks_model(out@)[l]
                            == prev.push((text@.subrange(pos as int, i as int), false))[l] by {
                            assert(chunks_model(out@)[l] == (out@[l].0@, out@[l].1));
                        }
                        assert(chunks_model(out@) =~= prev.push(
                            (text@.subrange(pos as int, i as int), false),
                        ));
                    }
                }
                let ghost mid = chunks_model(out@);
                out.push((token.clone(), true));
                proof {
                    assert forall|l: int| 0 <= l < mid.len() + 1 implies chunks_model(out@)[l]
                        == mid.push((token@, true))[l] by {
                        assert(chunks_model(out@)[l] == (out@[l].0@, out@[l].1));
                    }
                    assert(chunks_model(out@) =~= mid.push((token@, true)));
                    assert(chunks_model(out@) + split_from(text@, token@, i + m) =~= base
                        + split_from(text@, token@, 0));
                }
                pos = i + m;
            },
            None => {
                proof {
                    lemma_find_sub_spec(text@, token@, pos as int);
                }
                let ghost prev = chunks_model(out@);
                let piece = substring_of(&tchars, pos, n);
                proof {
                    assert(text@.subrange(pos as int, n as int) =~= text@.skip(pos as int));
                }
                out.push((piece, false));
                proof {
                    assert forall|l: int| 0 <= l < prev.len() + 1 implies chunks_model(out@)[l]
                        == prev.push((text@.skip(pos as int), false))[l] by {
                        assert(chunks_model(out@)[l] == (out@[l].0@, out@[l].1));
                    }
                    assert(chunks_model(out@) =~= prev.push((text@.skip(pos as int), false)));
                    assert(chunks_model(out@) + split_from(text@, token@, n as int) =~= base
                        + split_from(text@, token@, 0));
                }
                pos = n;
                break ;
            },
        }
    }
    proof {
        assert(split_from(text@, token@, pos as int) =~= Seq::<(Seq<char>, bool)>::empty());
        assert(chunks_model(out@) =~= chunks_model(out@) + split_from(text@, token@, pos as int));
    }
}

/// Splitting one more chunk extends the round's output on the right.
proof fn lemma_split_round_push(chunks: Seq<(Seq<char>, bool)>, c: (Seq<char>, bool), pat: Seq<char>)
    requires
        pat.len() >= 1,
    ensures
        split_round(chunks.push(c), pat) == split_round(chunks, pat) + (if c.1 {
            seq![c]
        } else {
            split_from(c.0, pat, 0)
        }),
    decreases chunks.len(),
{
    let piece = if c.1 {
        seq![c]
    } else {
        split_from(c.0, pat, 0)
    };
    let x = chunks.push(c);
    if chunks.len() == 0 {
        assert(x[0] == c);
        assert(x.drop_first() =~= chunks);
        assert(split_round(x, pat) == (if x[0].1 {
            seq![x[0]]
        } else {
            split_from(x[0].0, pat, 0)
        }) + split_round(x.drop_first(), pat));
        assert(split_round(x, pat) =~= split_round(chunks, pat) + piece);
    } else {
        assert(x.drop_first() =~= chunks.drop_first().push(c));
        lemma_split_round_push(chunks.drop_first(), c, pat);
        assert(x[0] == chunks[0]);
        assert(split_round(x, pat) == (if x[0].1 {
            seq![x[0]]
        } else {
            split_from(x[0].0, pat, 0)
        }) + split_round(x.drop_first(), pat));
        assert(split_round(x, pat) =~= split_round(chunks, pat) + piece);
    }
}

/// The least rank whose pair occurs in `w`, or -1 when no rule applies.
pub open spec fn first_rule(rules: Seq<(Seq<char>, Seq<char>)>, w: Seq<Seq<char>>) -> int
    decreases rules.len(),
{
    if rules.len() == 0 {
        -1
    } else if has_pair(w, rules[0].0, rules[0].1) {
        0
    } else {
        let r = first_rule(rules.drop_first(), w);
        if r < 0 {
            -1
        } else {
            r + 1
        }
    }
}

/// Rank order: the rule found is the earliest-learned one that applies; no
/// earlier-ranked rule has a pair left in the word.
pub proof fn lemma_first_rule_spec(rules: Seq<(Seq<char>, Seq<char>)>, w: Seq<Seq<char>>)
    ensures
        first_rule(rules, w) >= 0 ==> {
            &&& first_rule(rules, w) < rules.len()
            &&& has_pair(w, rules[first_rule(rules, w)].0, rules[first_rule(rules, w)].1)
            &&& forall|j: int|
                0 <= j < first_rule(rules, w) ==> !has_pair(
                    w,
                    (#[trigger] rules[j]).0,
                    rules[j].1,
                )
        },
        first_rule(rules, w) < 0 ==> forall|j: int|
            0 <= j < rules.len() ==> !has_pair(w, (#[trigger] rules[j]).0, rules[j].1),
    decreases rules.len(),
{
    if rules.len() > 0 && !has_pair(w, rules[0].0, rules[0].1) {
        lemma_first_rule_spec(rules.drop_first(), w);
        assert(forall|j: int| 1 <= j < rules.len() ==> rules.drop_first()[j - 1] == rules[j]);
    }
}

/// A rank whose pair occurs, with no earlier one occurring, is what
/// `first_rule` returns.
proof fn lemma_first_rule_at(rules: Seq<(Seq<char>, Seq<char>)>, w: Seq<Seq<char>>, k: int)
    requires
        0 <= k < rules.len(),
        has_pair(w, rules[k].0, rules[k].1),
        forall|j: int| 0 <= j < k ==> !has_pair(w, (#[trigger] rules[j]).0, rules[j].1),
    ensures
        first_rule(rules, w) == k,
    decreases rules.len(),
{
    if k > 0 {
        assert(forall|j: int| 0 <= j < k - 1 ==> rules.drop_first()[j] == rules[j + 1]);
        assert(rules.drop_first()[k - 1] == rules[k]);
        lemma_first_rule_at(rules.drop_first(), w, k - 1);
    }
}

/// The word after repeatedly applying merge rules: the earliest-ranked rule
/// whose pair occurs is applied to all its occurrences, and the scan
/// restarts, until no rule applies.
pub open spec fn apply_merges(rules: Seq<(Seq<char>, Seq<char>)>, w: Seq<Seq<char>>) -> Seq<
    Seq<char>,
>
    decreases w.len(),
        via apply_merges_decreases
{
    let k = first_rule(rules, w);
    if k < 0 {
        w
    } else {
        apply_merges(rules, merge_word(w, rules[k].0, rules[k].1))
    }
}

#[via_fn]
proof fn apply_merges_decreases(rules: Seq<(Seq<char>, Seq<char>)>, w: Seq<Seq<char>>) {
    let k = first_rule(rules, w);
    if k >= 0 {
        lemma_first_rule_spec(rules, w);
        lemma_merge_word_len(w, rules[k].0, rules[k].1);
    }
}

/// The smallest id bound to token `t`, or -1 when the table holds none.
pub open spec fn tok_index(vocab: Seq<Seq<char>>, t: Seq<char>) -> int
    decreases vocab.len(),
{
    if vocab.len() == 0 {
        -1
    } else if vocab[0] == t {
        0
    } else {
        let r = tok_index(vocab.drop_first(), t);
        if r < 0 {
            -1
        } else {
            r + 1
        }
    }
}

/// A token has an id exactly when it stands somewhere in the table, and the
/// id is its earliest position.
pub proof fn lemma_tok_index_spec(vocab: Seq<Seq<char>>, t: Seq<char>)
    ensures
        tok_index(vocab, t) >= 0 ==> {
            &&& tok_index(vocab, t) < vocab.len()
            &&& vocab[tok_index(vocab, t)] == t
            &&& forall|j: int| 0 <= j < tok_index(vocab, t) ==> vocab[j] != t
        },
        tok_index(vocab, t) < 0 ==> forall|j: int| 0 <= j < vocab.len() ==> vocab[j] != t,
    decreases vocab.len(),
{
    if vocab.len() > 0 && vocab[0] != t {
        lemma_tok_index_spec(vocab.drop_first(), t);
        assert(forall|j: int| 1 <= j < vocab.len() ==> vocab.drop_first()[j - 1] == vocab[j]);
    }
}

/// A position holding the token, with no earlier one, is the token's id.
pub proof fn lemma_tok_index_at(vocab: Seq<Seq<char>>, t: Seq<char>, k: int)
    requires
        0 <= k < vocab.len(),
        vocab[k] == t,
        forall|j: int| 0 <= j < k ==> vocab[j] != t,
    ensures
        tok_index(vocab, t) == k,
    decreases vocab.len(),
{
    if k > 0 {
        assert(forall|j: int| 0 <= j < k - 1 ==> vocab.drop_first()[j] == vocab[j + 1]);
        assert(vocab.drop_first()[k - 1] == vocab[k]);
        lemma_tok_index_at(vocab.drop_first(), t, k - 1);
    }
}

/// A token that stands somewhere in the table has an id.
pub proof fn lemma_tok_index_found(vocab: Seq<Seq<char>>, t: Seq<char>, k: int)
    requires
        0 <= k < vocab.len(),
        vocab[k] == t,
    ensures
        tok_index(vocab, t) >= 0,
{
    lemma_tok_index_spec(vocab, t);
    if tok_index(vocab, t) < 0 {
        assert(vocab[k] != t);
    }
}

/// Whether every symbol of `syms` has an id in the table.
pub open spec fn word_in_vocab(vocab: Seq<Seq<char>>, syms: Seq<Seq<char>>) -> bool {
    forall|j: int| 0 <= j < syms.len() ==> tok_index(vocab, #[trigger] syms[j]) >= 0
}

/// The ids of a symbol sequence, in order.
pub open spec fn word_ids(vocab: Seq<Seq<char>>, syms: Seq<Seq<char>>) -> Seq<int> {
    syms.map_values(|s: Seq<char>| tok_index(vocab, s))
}

/// The ids of a run of segmenter chunks.
pub open spec fn encode_words(
    vocab: Seq<Seq<char>>,
    rules: Seq<(Seq<char>, Seq<char>)>,
    wchunks: Seq<Seq<char>>,
) -> Seq<int>
    decreases wchunks.len(),
{
    if wchunks.len() == 0 {
        seq![]
    } else {
        word_ids(vocab, apply_merges(rules, chunk_syms(wchunks[0]))) + encode_words(
            vocab,
            rules,
            wchunks.drop_first(),
        )
    }
}

/// The ids of one chunk of the special-token split.
pub open spec fn encode_chunk(
    vocab: Seq<Seq<char>>,
    rules: Seq<(Seq<char>, Seq<char>)>,
    c: (Seq<char>, bool),
) -> Seq<int> {
    if c.1 {
        seq![tok_index(vocab, c.0)]
    } else {
        encode_words(vocab, rules, segment(c.0))
    }
}

/// The ids of a chunk list, in order.
pub open spec fn encode_chunks(
    vocab: Seq<Seq<char>>,
    rules: Seq<(Seq<char>, Seq<char>)>,
    chunks: Seq<(Seq<char>, bool)>,
) -> Seq<int>
    decreases chunks.len(),
{
    if chunks.len() == 0 {
        seq![]
    } else {
        encode_chunk(vocab, rules, chunks[0]) + encode_chunks(vocab, rules, chunks.drop_first())
    }
}

/// The id sequence of a text under a rule list, special-token list and
/// vocabulary.
pub open spec fn encode_spec(
    text: Seq<char>,
    rules: Seq<(Seq<char>, Seq<char>)>,
    specials: Seq<Seq<char>>,
    vocab: Seq<Seq<char>>,
) -> Seq<int> {
    encode_chunks(vocab, rules, split_specials(text, specials))
}

/// The integer values of a `u32` sequence.
pub open spec fn u32s(s: Seq<u32>) -> Seq<int> {
    s.map_values(|x: u32| x as int)
}

/// Every starting symbol of a chunk is a base token of the vocabulary.
pub proof fn lemma_chunk_syms_in_vocab(
    specials: Seq<Seq<char>>,
    merges: Seq<(Seq<char>, Seq<char>)>,
    chunk: Seq<char>,
)
    ensures
        word_in_vocab(vocab_tokens(specials, merges), chunk_syms(chunk)),
{
    let vocab = vocab_tokens(specials, merges);
    assert forall|j: int| 0 <= j < chunk_syms(chunk).len() implies tok_index(
        vocab,
        #[trigger] chunk_syms(chunk)[j],
    ) >= 0 by {
        let b = vstd::utf8::encode_utf8(chunk)[j];
        assert(chunk_syms(chunk)[j] == sym_of_byte(b));
        lemma_base_tokens(byte_rank(b), b);
        assert(base_token(byte_rank(b)) == sym_of_byte(b));
        assert(vocab[specials.len() + byte_rank(b)] == base_tokens()[byte_rank(b)]);
        lemma_tok_index_found(vocab, sym_of_byte(b), specials.len() + byte_rank(b));
    }
}

/// Merging keeps every symbol of a word inside the vocabulary: new symbols
/// are exactly the merge products, which the vocabulary carries.
pub proof fn lemma_apply_merges_in_vocab(
    specials: Seq<Seq<char>>,
    merges: Seq<(Seq<char>, Seq<char>)>,
    w: Seq<Seq<char>>,
)
    requires
        word_in_vocab(vocab_tokens(specials, merges), w),
    ensures
        word_in_vocab(vocab_tokens(specials, merges), apply_merges(merges, w)),
    decreases w.len(),
{
    let vocab = vocab_tokens(specials, merges);
    let k = first_rule(merges, w);
    if k >= 0 {
        lemma_first_rule_spec(merges, w);
        let a = merges[k].0;
        let b = merges[k].1;
        let w2 = merge_word(w, a, b);
        lemma_merge_word_members(w, a, b);
        assert forall|j: int| 0 <= j < w2.len() implies tok_index(vocab, #[trigger] w2[j])
            >= 0 by {
            if w2[j] == a + b {
                assert(vocab[specials.len() + 256 + k] == merges.map_values(
                    |m: (Seq<char>, Seq<char>)| m.0 + m.1,
                )[k]);
                lemma_tok_index_found(vocab, a + b, specials.len() + 256 + k);
            } else {
                let i = choose|i: int| 0 <= i < w.len() && w[i] == w2[j];
                assert(tok_index(vocab, w[i]) >= 0);
            }
        }
        lemma_merge_word_len(w, a, b);
        lemma_apply_merges_in_vocab(specials, merges, w2);
    }
}

/// Whether every special-marked chunk carries one of the special tokens.
pub open spec fn chunks_specials_ok(
    chunks: Seq<(Seq<char>, bool)>,
    specials: Seq<Seq<char>>,
) -> bool {
    forall|j: int|
        0 <= j < chunks.len() && (#[trigger] chunks[j]).1 ==> exists|i: int|
            0 <= i < specials.len() && specials[i] == chunks[j].0
}

/// Splitting by a pattern marks only pieces that hold the pattern itself.
proof fn lemma_split_from_ok(text: Seq<char>, pat: Seq<char>, pos: int)
    requires
        0 <= pos,
        pat.len() >= 1,
    ensures
        forall|j: int|
            0 <= j < split_from(text, pat, pos).len() && (#[trigger] split_from(
                text,
                pat,
                pos,
            )[j]).1 ==> split_from(text, pat, pos)[j].0 == pat,
    decreases text.len() - pos,
{
    let i = find_sub(text, pat, pos);
    lemma_find_sub_spec(text, pat, pos);
    let r = split_from(text, pat, pos);
    if i >= 0 {
        lemma_split_from_ok(text, pat, i + pat.len());
        let head = if i > pos {
            seq![(text.subrange(pos, i), false)]
        } else {
            Seq::<(Seq<char>, bool)>::empty()
        };
        let rest = split_from(text, pat, i + pat.len());
        assert forall|j: int| 0 <= j < r.len() && (#[trigger] r[j]).1 implies r[j].0 == pat by {
            if j > head.len() {
                assert(r[j] == rest[j - head.len() - 1]);
            } else if j == head.len() {
                assert(r[j] == (pat, true));
            } else {
                assert(r[j] == (text.subrange(pos, i), false));
            }
        }
    }
}

/// One splitting round keeps every special-marked chunk a special token.
proof fn lemma_split_round_ok(
    chunks: Seq<(Seq<char>, bool)>,
    pat: Seq<char>,
    specials: Seq<Seq<char>>,
    pi: int,
)
    requires
        chunks_specials_ok(chunks, specials),
        0 <= pi < specials.len(),
        specials[pi] == pat,
        pat.len() >= 1,
    ensures
        chunks_specials_ok(split_round(chunks, pat), specials),
    decreases chunks.len(),
{
    if chunks.len() > 0 {
        assert forall|j: int|
            0 <= j < chunks.drop_first().len() && (#[trigger] chunks.drop_first()[j]).1 implies exists|i: int|
            0 <= i < specials.len() && specials[i] == chunks.drop_first()[j].0 by {
            assert(chunks.drop_first()[j] == chunks[j + 1]);
        }
        lemma_split_round_ok(chunks.drop_first(), pat, specials, pi);
        lemma_split_from_ok(chunks[0].0, pat, 0);
        let head = if chunks[0].1 {
            seq![chunks[0]]
        } else {
            split_from(chunks[0].0, pat, 0)
        };
        let r = split_round(chunks, pat);
        assert forall|j: int|
            0 <= j < r.len() && (#[trigger] r[j]).1 implies exists|i: int|
            0 <= i < specials.len() && specials[i] == r[j].0 by {
            if j < head.len() {
                assert(r[j] == head[j]);
            } else {
                assert(r[j] == split_round(chunks.drop_first(), pat)[j - head.len()]);
            }
        }
    }
}

/// Splitting by the special tokens from position `off` on keeps every
/// marked chunk one of the list's tokens.
proof fn lemma_split_rounds_ok(chunks: Seq<(Seq<char>, bool)>, all: Seq<Seq<char>>, off: int)
    requires
        chunks_specials_ok(chunks, all),
        0 <= off <= all.len(),
        forall|i: int| 0 <= i < all.len() ==> (#[trigger] all[i]).len() >= 1,
    ensures
        chunks_specials_ok(split_rounds(chunks, all.skip(off)), all),
    decreases all.len() - off,
{
    if off < all.len() {
        let sps = all.skip(off);
        assert(sps[0] == all[off]);
        lemma_split_round_ok(chunks, all[off], all, off);
        assert(sps.drop_first() =~= all.skip(off + 1));
        lemma_split_rounds_ok(split_round(chunks, all[off]), all, off + 1);
    } else {
        assert(all.skip(off) =~= Seq::<Seq<char>>::empty());
    }
}

/// Every special-marked chunk of the special-token split carries one of the
/// special tokens.
pub proof fn lemma_split_specials_ok(text: Seq<char>, specials: Seq<Seq<char>>)
    requires
        forall|i: int| 0 <= i < specials.len() ==> (#[trigger] specials[i]).len() >= 1,
    ensures
        chunks_specials_ok(split_specials(text, specials), specials),
{
    assert(chunks_specials_ok(seq![(text, false)], specials));
    assert(specials.skip(0) =~= specials);
    lemma_split_rounds_ok(seq![(text, false)], specials, 0);
}

/// Encodes text into token ids under a fixed rule list, special-token list
/// and vocabulary.
pub struct Encoder {
    merge_rules: Vec<(String, String)>,
    pre_tokenizer: PreTokenizer,
    vocabulary: Vocabulary,
    special_tokens: Vec<String>,
}

impl Encoder {
    /// The rank-ordered merge rules.
    pub closed spec fn rules(&self) -> Seq<(Seq<char>, Seq<char>)> {
        self.merge_rules.deep_view()
    }

    /// The special tokens, in caller order.
    pub closed spec fn specials(&self) -> Seq<Seq<char>> {
        self.special_tokens.deep_view()
    }

    /// The vocabulary's token table.
    pub closed spec fn vocab(&self) -> Seq<Seq<char>> {
        self.vocabulary@
    }

    /// Internal consistency: the vocabulary is the one built from exactly
    /// these special tokens and merge rules, and no special token is empty.
    pub open spec fn wf(&self) -> bool {
        &&& self.vocab() == vocab_tokens(self.specials(), self.rules())
        &&& forall|i: int| 0 <= i < self.specials().len() ==> (#[trigger] self.specials()[i]).len() >= 1
    }

    /// Bundles merge rules, a pre-tokenizer, a vocabulary and special tokens
    /// into an encoder; the vocabulary must be the one these rules and
    /// special tokens build.
    pub fn new(
        merge_rules: Vec<(String, String)>,
        pre_tokenizer: PreTokenizer,
        vocabulary: Vocabulary,
        special_tokens: Vec<String>,
    ) -> (r: Self)
        requires
            vocabulary@ == vocab_tokens(special_tokens.deep_view(), merge_rules.deep_view()),
            forall|i: int|
                0 <= i < special_tokens@.len() ==> (#[trigger] special_tokens.deep_view()[i]).len()
                    >= 1,
        ensures
            r.wf(),
            r.rules() == merge_rules.deep_view(),
            r.specials() == special_tokens.deep_view(),
            r.vocab() == vocabulary@,
    {
        Encoder { merge_rules, pre_tokenizer, vocabulary, special_tokens }
    }

    /// The vocabulary this encoder resolves tokens against.
    pub fn vocabulary(&self) -> (r: &Vocabulary)
        ensures
            r@ == self.vocab(),
    {
        &self.vocabulary
    }

    /// The id of a token known to be in the vocabulary.
    fn lookup_token_id(&self, token: &str) -> (id: u32)
        requires
            tok_index(self.vocab(), token@) >= 0,
        ensures
            id as int == tok_index(self.vocab(), token@),
    {
        proof {
            lemma_tok_index_spec(self.vocab(), token@);
        }
        match self.vocabulary.token_to_id(token) {
            Some(id) => {
                proof {
                    lemma_tok_index_at(self.vocab(), token@, id as int);
                }
                id
            },
            None => {
                proof {
                    assert(self.vocab()[tok_index(self.vocab(), token@)] == token@);
                    assert(false);
                }
                vstd::pervasive::unreached()
            },
        }
    }

    /// Splits text into special and non-special chunks, scanning the special
    /// tokens in list order.
    fn split_on_special_tokens(&self, text: &str) -> (r: Vec<(String, bool)>)
        requires
            forall|i: int|
                0 <= i < self.specials().len() ==> (#[trigger] self.specials()[i]).len() >= 1,
        ensures
            chunks_model(r@) == split_specials(text@, self.specials()),
    {
        let ghost specials_dv = self.specials();
        let mut chunks: Vec<(String, bool)> = Vec::new();
        chunks.push((String::from_str(text), false));
        proof {
            assert(chunks_model(chunks@) =~= seq![(text@, false)]);
            assert(specials_dv.skip(0) =~= specials_dv);
        }
        let nt = self.special_tokens.len();
        let mut ti: usize = 0;
        while ti < nt
            invariant
                ti <= nt,
                nt == self.special_tokens@.len(),
                specials_dv == self.specials(),
                forall|i: int|
                    0 <= i < specials_dv.len() ==> (#[trigger] specials_dv[i]).len() >= 1,
                split_rounds(chunks_model(chunks@), specials_dv.skip(ti as int)) == split_specials(
                    text@,
                    specials_dv,
                ),
            decreases nt - ti,
        {
            let ghost pat = specials_dv[ti as int];
            proof {
                assert(pat == self.special_tokens@[ti as int]@);
                assert(specials_dv.skip(ti as int)[0] == pat);
                assert(specials_dv.skip(ti as int).drop_first() =~= specials_dv.skip(ti + 1));
            }
            let ghost cur = chunks_model(chunks@);
            let nc = chunks.len();
            let mut next: Vec<(String, bool)> = Vec::new();
            let mut ci: usize = 0;
            proof {
                assert(cur.take(0) =~= Seq::<(Seq<char>, bool)>::empty());
                assert(chunks_model(next@) =~= split_round(cur.take(0), pat));
            }
            while ci < nc
                invariant
                    ci <= nc,
                    nc == chunks@.len(),
                    cur == chunks_model(chunks@),
                    specials_dv == self.specials(),
                    nt == self.special_tokens@.len(),
                    0 <= ti < nt,
                    pat == specials_dv[ti as int],
                    pat.len() >= 1,
                    chunks_model(next@) == split_round(cur.take(ci as int), pat),
                decreases nc - ci,
            {
                proof {
                    assert(cur[ci as int] == (chunks@[ci as int].0@, chunks@[ci as int].1));
                    assert(cur.take(ci + 1) =~= cur.take(ci as int).push(cur[ci as int]));
                    lemma_split_round_push(cur.take(ci as int), cur[ci as int], pat);
                }
                if chunks[ci].1 {
                    let ghost prev = chunks_model(next@);
                    next.push((chunks[ci].0.clone(), true));
                    proof {
                        assert forall|l: int| 0 <= l < prev.len() + 1 implies chunks_model(next@)[l]
                            == prev.push(cur[ci as int])[l] by {
                            assert(chunks_model(next@)[l] == (next@[l].0@, next@[l].1));
                        }
                        assert(chunks_model(next@) =~= prev.push(cur[ci as int]));
                        assert(chunks_model(next@) =~= split_round(cur.take(ci + 1), pat));
                    }
                } else {
                    proof {
                        assert(self.special_tokens@[ti as int]@ == pat);
                    }
                    split_chunk_on_token(&chunks[ci].0, &self.special_tokens[ti], &mut next);
                    proof {
                        assert(chunks_model(next@) =~= split_round(cur.take(ci + 1), pat));
                    }
                }
                ci = ci + 1;
            }
            proof {
                assert(cur.take(nc as int) =~= cur);
            }
            chunks = next;
            ti = ti + 1;
        }
        proof {
            assert(specials_dv.skip(nt as int) =~= Seq::<Seq<char>>::empty());
        }
        chunks
    }

    /// Whether the adjacent pair occurs anywhere in the word.
    fn word_has_pair(syms: &Vec<String>, a: &String, b: &String) -> (r: bool)
        ensures
            r == has_pair(syms.deep_view(), a@, b@),
    {
        let ghost dv = syms.deep_view();
        let n = syms.len();
        let mut i: usize = 0;
        if n == 0 {
            return false;
        }
        while i + 1 < n
            invariant
                i < n,
                n == syms@.len(),
                dv == syms.deep_view(),
                forall|j: int| 0 <= j < i ==> !(#[trigger] dv[j] == a@ && dv[j + 1] == b@),
            decreases n - i,
        {
            proof {
                assert(dv[i as int] == syms@[i as int]@);
                assert(dv[i + 1] == syms@[i + 1]@);
            }
            if string_eq(&syms[i], a) && string_eq(&syms[i + 1], b) {
                proof {
                    assert(0 <= i as int && i + 1 < dv.len() && dv[i as int] == a@ && dv[i + 1]
                        == b@);
                }
                return true;
            }
            i = i + 1;
        }
        proof {
            if has_pair(dv, a@, b@) {
                let j = choose|j: int|
                    0 <= j && j + 1 < dv.len() && #[trigger] dv[j] == a@ && dv[j + 1] == b@;
                assert(!(dv[j] == a@ && dv[j + 1] == b@));
            }
        }
        false
    }

    /// The earliest-ranked rule whose pair occurs in the word.
    fn find_applicable_rule(&self, syms: &Vec<String>) -> (r: Option<usize>)
        ensures
            match r {
                Some(k) => k < self.rules().len() && k as int == first_rule(
                    self.rules(),
                    syms.deep_view(),
                ),
                None => first_rule(self.rules(), syms.deep_view()) < 0,
            },
    {
        let ghost rules = self.rules();
        let ghost dv = syms.deep_view();
        let n = self.merge_rules.len();
        let mut k: usize = 0;
        while k < n
            invariant
                k <= n,
                n == self.merge_rules@.len(),
                rules == self.rules(),
                dv == syms.deep_view(),
                forall|j: int| 0 <= j < k ==> !has_pair(dv, (#[trigger] rules[j]).0, rules[j].1),
            decreases n - k,
        {
            proof {
                assert(rules[k as int] == (self.merge_rules@[k as int].0@,
                self.merge_rules@[k as int].1@));
            }
            if Self::word_has_pair(syms, &self.merge_rules[k].0, &self.merge_rules[k].1) {
                proof {
                    lemma_first_rule_at(rules, dv, k as int);
                }
                return Some(k);
            }
            k = k + 1;
        }
        proof {
            lemma_first_rule_spec(rules, dv);
        }
        None
    }

    /// Applies merge rules until none has an adjacent occurrence left: the
    /// earliest-ranked applicable rule goes first, all its occurrences at
    /// once, and the scan restarts from rank zero.
    fn apply_merge_rules(&self, symbols: Vec<String>) -> (r: Vec<String>)
        ensures
            r.deep_view() == apply_merges(self.rules(), symbols.deep_view()),
    {
        let ghost rules = self.rules();
        let ghost dv0 = symbols.deep_view();
        let mut syms = symbols;
        loop
            invariant
                rules == self.rules(),
                apply_merges(rules, syms.deep_view()) == apply_merges(rules, dv0),
            ensures
                first_rule(rules, syms.deep_view()) < 0,
            decreases syms@.len(),
        {
            let found = self.find_applicable_rule(&syms);
            match found {
                None => {
                    break ;
                },
                Some(k) => {
                    let ghost dv = syms.deep_view();
                    proof {
                        lemma_first_rule_spec(rules, dv);
                        lemma_merge_word_len(dv, rules[k as int].0, rules[k as int].1);
                        assert(rules[k as int] == (self.merge_rules@[k as int].0@,
                        self.merge_rules@[k as int].1@));
                    }
                    let merged = concat_strings(&self.merge_rules[k].0, &self.merge_rules[k].1);
                    let next = merge_symbols(
                        &syms,
                        &self.merge_rules[k].0,
                        &self.merge_rules[k].1,
                        &merged,
                    );
                    syms = next;
                },
            }
        }
        proof {
            assert(apply_merges(rules, syms.deep_view()) == syms.deep_view());
        }
        syms
    }

    /// Encodes one non-special stretch of text: segments it, expands each
    /// chunk to symbols, merges, and resolves each symbol's id.
    fn encode_regular_text(&self, text: &str, out: &mut Vec<u32>)
        requires
            self.wf(),
        ensures
            u32s(final(out)@) == u32s(old(out)@) + encode_words(
                self.vocab(),
                self.rules(),
                segment(text@),
            ),
    {
        let ghost vocab = self.vocab();
        let ghost rules = self.rules();
        let ghost base = u32s(out@);
        let chunks = self.pre_tokenizer.pre_tokenize(text);
        let nc = chunks.len();
        let mut ci: usize = 0;
        proof {
            assert(segment(text@).skip(0) =~= segment(text@));
        }
        while ci < nc
            invariant
                ci <= nc,
                nc == chunks@.len(),
                self.wf(),
                vocab == self.vocab(),
                rules == self.rules(),
                chunks.deep_view() == segment(text@),
                u32s(out@) + encode_words(vocab, rules, segment(text@).skip(ci as int)) == base
                    + encode_words(vocab, rules, segment(text@)),
            decreases nc - ci,
        {
            let ghost wchunk = segment(text@)[ci as int];
            proof {
                assert(chunks.deep_view()[ci as int] == chunks@[ci as int]@);
                assert(segment(text@).skip(ci as int)[0] == wchunk);
                assert(segment(text@).skip(ci as int).drop_first() =~= segment(text@).skip(ci + 1));
            }
            let word = chunk_to_symbols(chunks[ci].as_str());
            let merged = self.apply_merge_rules(word);
            let ghost mdv = merged.deep_view();
            proof {
                lemma_chunk_syms_in_vocab(self.specials(), rules, wchunk);
                lemma_apply_merges_in_vocab(self.specials(), rules, chunk_syms(wchunk));
                assert(mdv == apply_merges(rules, chunk_syms(wchunk)));
            }
            let nm = merged.len();
            let mut si: usize = 0;
            let ghost mid = u32s(out@);
            while si < nm
                invariant
                    si <= nm,
                    nm == merged@.len(),
                    self.wf(),
                    vocab == self.vocab(),
                    mdv == merged.deep_view(),
                    word_in_vocab(vocab, mdv),
                    u32s(out@) == mid + word_ids(vocab, mdv).take(si as int),
                decreases nm - si,
            {
                proof {
                    assert(mdv[si as int] == merged@[si as int]@);
                }
                let id = self.lookup_token_id(merged[si].as_str());
                let ghost prev = u32s(out@);
                out.push(id);
                proof {
                    assert forall|l: int| 0 <= l < prev.len() + 1 implies u32s(out@)[l]
                        == prev.push(id as int)[l] by {
                        assert(u32s(out@)[l] == out@[l] as int);
                    }
                    assert(u32s(out@) =~= prev.push(id as int));
                    assert(word_ids(vocab, mdv)[si as int] == tok_index(vocab, mdv[si as int]));
                    assert(word_ids(vocab, mdv).take(si + 1) =~= word_ids(vocab, mdv).take(
                        si as int,
                    ).push(word_ids(vocab, mdv)[si as int]));
                    assert(u32s(out@) =~= mid + word_ids(vocab, mdv).take(si + 1));
                }
                si = si + 1;
            }
            proof {
                assert(word_ids(vocab, mdv).take(nm as int) =~= word_ids(vocab, mdv));
                assert(u32s(out@) + encode_words(vocab, rules, segment(text@).skip(ci + 1)) =~= base
                    + encode_words(vocab, rules, segment(text@)));
            }
            ci = ci + 1;
        }
        proof {
            assert(segment(text@).skip(nc as int) =~= Seq::<Seq<char>>::empty());
            assert(u32s(out@) =~= u32s(out@) + encode_words(
                vocab,
                rules,
                segment(text@).skip(nc as int),
            ));
        }
    }

    /// Encodes text into its id sequence.
    pub fn encode(&self, text: &str) -> (r: Vec<u32>)
        requires
            self.wf(),
        ensures
            u32s(r@) == encode_spec(text@, self.rules(), self.specials(), self.vocab()),
    {
        let ghost vocab = self.vocab();
        let ghost rules = self.rules();
        let ghost specials = self.specials();
        let chunks = self.split_on_special_tokens(text);
        let ghost cm = chunks_model(chunks@);
        proof {
            lemma_split_specials_ok(text@, specials);
            assert(cm.skip(0) =~= cm);
        }
        let mut out: Vec<u32> = Vec::new();
        let nc = chunks.len();
        let mut ci: usize = 0;
        proof {
            assert(u32s(out@) =~= Seq::<int>::empty());
        }
        while ci < nc
            invariant
                ci <= nc,
                nc == chunks@.len(),
                self.wf(),
                vocab == self.vocab(),
                rules == self.rules(),
                specials == self.specials(),
                cm == chunks_model(chunks@),
                chunks_specials_ok(cm, specials),
                u32s(out@) + encode_chunks(vocab, rules, cm.skip(ci as int)) == encode_chunks(
                    vocab,
                    rules,
                    cm,
                ),
            decreases nc - ci,
        {
            proof {
                assert(cm[ci as int] == (chunks@[ci as int].0@, chunks@[ci as int].1));
                assert(cm.skip(ci as int)[0] == cm[ci as int]);
                assert(cm.skip(ci as int).drop_first() =~= cm.skip(ci + 1));
            }
            if chunks[ci].1 {
                proof {
                    let s = cm[ci as int].0;
                    let i = choose|i: int| 0 <= i < specials.len() && specials[i] == s;
                    assert(vocab[i] == specials[i]);
                    lemma_tok_index_found(vocab, s, i);
                }
                let id = self.lookup_token_id(chunks[ci].0.as_str());
                let ghost prev = u32s(out@);
                out.push(id);
                proof {
                    assert forall|l: int| 0 <= l < prev.len() + 1 implies u32s(out@)[l]
                        == prev.push(id as int)[l] by {
                        assert(u32s(out@)[l] == out@[l] as int);
                    }
                    assert(u32s(out@) =~= prev.push(id as int));
                    assert(u32s(out@) + encode_chunks(vocab, rules, cm.skip(ci + 1))
                        =~= encode_chunks(vocab, rules, cm));
                }
            } else {
                self.encode_regular_text(chunks[ci].0.as_str(), &mut out);
                proof {
                    assert(u32s(out@) + encode_chunks(vocab, rules, cm.skip(ci + 1))
                        =~= encode_chunks(vocab, rules, cm));
                }
            }
            ci = ci + 1;
        }
        proof {
            assert(cm.skip(nc as int) =~= Seq::<(Seq<char>, bool)>::empty());
            assert(u32s(out@) =~= u32s(out@) + encode_chunks(vocab, rules, cm.skip(nc as int)));
        }
        out
    }
}

} // verus!
