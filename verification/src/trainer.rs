//! Greedy merge learning.
//!
//! Training segments every corpus text, expands each chunk to byte-level
//! symbols, counts how often each distinct symbol sequence occurs, and then
//! repeatedly fuses the most frequent adjacent symbol pair, up to a merge
//! budget.  Ties between equally frequent pairs go to the pair whose
//! `(left id, right id)` tuple is lexicographically smallest under the
//! running token-id assignment: base tokens get ids in code-point order and
//! every newly created merge token takes the next id.

use crate::freq::assoc_add;
use crate::freq::assoc_index;
use crate::freq::assoc_total;
use crate::freq::counts_at_least;
use crate::freq::lemma_assoc_add_counts;
use crate::freq::lemma_assoc_add_total;
use crate::freq::lemma_assoc_entry_le_total;
use crate::freq::lemma_assoc_index_spec;
use crate::freq::lemma_assoc_index_unique;
use crate::freq::lemma_assoc_total_nonneg;
use crate::freq::lemma_assoc_total_take_le;
use crate::pre_tokenizer::lemma_partition_lossless;
use crate::pre_tokenizer::segment;
use crate::pre_tokenizer::PreTokenizer;
use crate::symbols::chunk_syms;
use crate::symbols::chunk_to_symbols;
use crate::symbols::lemma_encode_utf8_concat;
use crate::symbols::merge_symbols;
use crate::symbols::merge_word;
use crate::symbols::string_eq;
use crate::text::char_to_string;
use crate::text::clone_string_vec;
use crate::text::concat_strings;
use crate::vocabulary::base_byte_exec;
use crate::vocabulary::base_token;
use crate::vocabulary::base_tokens;
use crate::vocabulary::lemma_base_tokens;
use vstd::prelude::*;
use vstd::utf8::encode_utf8;

verus! {

/// A training word: the symbol sequence of one chunk.
pub type Word = Seq<Seq<char>>;

/// A word-frequency table: words with corpus counts.
pub type WordTable = Seq<(Word, int)>;

/// A pair-frequency table: adjacent symbol pairs with tallies.
pub type PairTable = Seq<((Seq<char>, Seq<char>), int)>;

/// The words of one text: its chunks, each expanded to symbols.
pub open spec fn text_words(t: Seq<char>) -> Seq<Word> {
    segment(t).map_values(|c: Seq<char>| chunk_syms(c))
}

/// The words of a whole corpus, in text order.
pub open spec fn corpus_words(texts: Seq<Seq<char>>) -> Seq<Word>
    decreases texts.len(),
{
    if texts.len() == 0 {
        seq![]
    } else {
        corpus_words(texts.drop_last()) + text_words(texts.last())
    }
}

/// The total number of symbols in a word list.
pub open spec fn words_units(ws: Seq<Word>) -> int
    decreases ws.len(),
{
    if ws.len() == 0 {
        0
    } else {
        words_units(ws.drop_last()) + ws.last().len()
    }
}

/// The total number of byte-level symbols a corpus expands to; every count
/// and tally that training keeps is bounded by it.
pub open spec fn corpus_units(texts: Seq<Seq<char>>) -> int {
    words_units(corpus_words(texts))
}

/// The total UTF-8 byte length of a corpus.
pub open spec fn corpus_bytes(texts: Seq<Seq<char>>) -> int
    decreases texts.len(),
{
    if texts.len() == 0 {
        0
    } else {
        corpus_bytes(texts.drop_last()) + encode_utf8(texts.last()).len()
    }
}

/// Symbol totals add over concatenated word lists.
proof fn lemma_words_units_concat(x: Seq<Word>, y: Seq<Word>)
    ensures
        words_units(x + y) == words_units(x) + words_units(y),
    decreases y.len(),
{
    if y.len() == 0 {
        assert(x + y =~= x);
    } else {
        assert((x + y).drop_last() =~= x + y.drop_last());
        assert((x + y).last() == y.last());
        lemma_words_units_concat(x, y.drop_last());
    }
}

/// A list of words, one per chunk, holds exactly as many symbols as the
/// chunks' concatenation has UTF-8 bytes.
proof fn lemma_chunk_list_units(ws: Seq<Word>, cs: Seq<Seq<char>>)
    requires
        ws.len() == cs.len(),
        forall|j: int| 0 <= j < cs.len() ==> ws[j] == chunk_syms(#[trigger] cs[j]),
    ensures
        words_units(ws) == encode_utf8(cs.flatten()).len(),
    decreases cs.len(),
{
    if cs.len() == 0 {
        assert(cs.flatten() =~= Seq::<char>::empty());
        assert(encode_utf8(Seq::<char>::empty()) =~= Seq::<u8>::empty());
    } else {
        assert forall|j: int| 0 <= j < cs.drop_last().len() implies ws.drop_last()[j] == chunk_syms(
            #[trigger] cs.drop_last()[j],
        ) by {
            assert(cs.drop_last()[j] == cs[j]);
            assert(ws.drop_last()[j] == ws[j]);
        }
        lemma_chunk_list_units(ws.drop_last(), cs.drop_last());
        assert(ws.last() == chunk_syms(cs.last()));
        assert(cs =~= cs.drop_last().push(cs.last()));
        cs.drop_last().lemma_flatten_push(cs.last());
        lemma_encode_utf8_concat(cs.drop_last().flatten(), cs.last());
    }
}

/// One text's words hold exactly as many symbols as the text has UTF-8
/// bytes.
proof fn lemma_text_words_units(t: Seq<char>)
    ensures
        words_units(text_words(t)) == encode_utf8(t).len(),
{
    assert forall|j: int| 0 <= j < segment(t).len() implies text_words(t)[j] == chunk_syms(
        #[trigger] segment(t)[j],
    ) by {}
    lemma_chunk_list_units(text_words(t), segment(t));
    lemma_partition_lossless(t);
}

/// The corpus expands to exactly one symbol per UTF-8 byte: the symbol total
/// is the corpus's total byte length.
pub proof fn lemma_corpus_units_bytes(texts: Seq<Seq<char>>)
    ensures
        corpus_units(texts) == corpus_bytes(texts),
    decreases texts.len(),
{
    if texts.len() > 0 {
        lemma_corpus_units_bytes(texts.drop_last());
        lemma_words_units_concat(corpus_words(texts.drop_last()), text_words(texts.last()));
        lemma_text_words_units(texts.last());
    }
}

/// The word-frequency table of a word list: counts per distinct word, in
/// first-appearance order.
pub open spec fn build_table(ws: Seq<Word>) -> WordTable
    decreases ws.len(),
{
    if ws.len() == 0 {
        seq![]
    } else {
        assoc_add(build_table(ws.drop_last()), ws.last(), 1)
    }
}

/// The table's weight: the sum over entries of count times word length.
pub open spec fn tbl_weight(tbl: WordTable) -> int
    decreases tbl.len(),
{
    if tbl.len() == 0 {
        0
    } else {
        tbl_weight(tbl.drop_last()) + tbl.last().1 * tbl.last().0.len()
    }
}

/// The pair tallies after walking word `w` (count `c`) from position `i` on:
/// every adjacent position adds `c` to its pair.
pub open spec fn pairs_from(pt: PairTable, w: Word, c: int, i: int) -> PairTable
    decreases w.len() - i,
{
    if 0 <= i && i + 1 < w.len() {
        pairs_from(assoc_add(pt, (w[i], w[i + 1]), c), w, c, i + 1)
    } else {
        pt
    }
}

/// The pair-frequency table of a word table: every adjacent pair of every
/// entry tallies that entry's count.
pub open spec fn build_pairs(tbl: WordTable) -> PairTable
    decreases tbl.len(),
{
    if tbl.len() == 0 {
        seq![]
    } else {
        pairs_from(build_pairs(tbl.drop_last()), tbl.last().0, tbl.last().1, 0)
    }
}

/// The id of token `t` under the running assignment: the position of its
/// latest entry, or `u32::MAX` for a token with no entry.
pub open spec fn token_id(tokens: Seq<Seq<char>>, t: Seq<char>) -> int
    decreases tokens.len(),
{
    if tokens.len() == 0 {
        u32::MAX as int
    } else if tokens.last() == t {
        tokens.len() - 1
    } else {
        token_id(tokens.drop_last(), t)
    }
}

/// The id tuple of a pair.
pub open spec fn pair_ids(tokens: Seq<Seq<char>>, p: (Seq<char>, Seq<char>)) -> (int, int) {
    (token_id(tokens, p.0), token_id(tokens, p.1))
}

/// Lexicographic order on id tuples.
pub open spec fn ids_le(x: (int, int), y: (int, int)) -> bool {
    x.0 < y.0 || (x.0 == y.0 && x.1 <= y.1)
}

/// Whether a candidate entry displaces the current best: a higher tally, or
/// an equal tally with an id tuple no larger.
pub open spec fn displaces(
    cand: ((Seq<char>, Seq<char>), int),
    cur: ((Seq<char>, Seq<char>), int),
    tokens: Seq<Seq<char>>,
) -> bool {
    cand.1 > cur.1 || (cand.1 == cur.1 && ids_le(pair_ids(tokens, cand.0), pair_ids(tokens, cur.0)))
}

/// The winning entry of a non-empty pair table: highest tally, ties broken
/// by the lexicographically smallest id tuple.
pub open spec fn best_entry(pf: PairTable, tokens: Seq<Seq<char>>) -> ((Seq<char>, Seq<char>), int)
    recommends
        pf.len() > 0,
    decreases pf.len(),
{
    if pf.len() <= 1 {
        pf[0]
    } else {
        let prev = best_entry(pf.drop_last(), tokens);
        if displaces(pf.last(), prev, tokens) {
            pf.last()
        } else {
            prev
        }
    }
}

/// One training iteration: the winning pair, the rewritten table, and the
/// token list extended with the new merge token; `None` when no adjacent
/// pair is left.
pub open spec fn train_step(tbl: WordTable, tokens: Seq<Seq<char>>) -> Option<
    ((Seq<char>, Seq<char>), WordTable, Seq<Seq<char>>),
> {
    let pf = build_pairs(tbl);
    if pf.len() == 0 {
        None
    } else {
        let p = best_entry(pf, tokens).0;
        Some((p, apply_merge_tbl(tbl, p.0, p.1), tokens.push(p.0 + p.1)))
    }
}

/// The word table after applying a merge: every entry's word is rewritten,
/// and entries whose words collide afterwards pool their counts.
pub open spec fn apply_merge_tbl(tbl: WordTable, a: Seq<char>, b: Seq<char>) -> WordTable
    decreases tbl.len(),
{
    if tbl.len() == 0 {
        seq![]
    } else {
        assoc_add(
            apply_merge_tbl(tbl.drop_last(), a, b),
            merge_word(tbl.last().0, a, b),
            tbl.last().1,
        )
    }
}

/// The merges learned from state `(tbl, tokens)` with `budget` iterations
/// left, in learned order.
pub open spec fn train_from(tbl: WordTable, tokens: Seq<Seq<char>>, budget: nat) -> Seq<
    (Seq<char>, Seq<char>),
>
    decreases budget,
{
    if budget == 0 {
        seq![]
    } else {
        match train_step(tbl, tokens) {
            None => seq![],
            Some((p, tbl2, tokens2)) => seq![p] + train_from(tbl2, tokens2, (budget - 1) as nat),
        }
    }
}

/// The ordered merge list that training a corpus under a merge budget
/// produces.
pub open spec fn train_spec(budget: nat, texts: Seq<Seq<char>>) -> Seq<(Seq<char>, Seq<char>)> {
    train_from(build_table(corpus_words(texts)), base_tokens(), budget)
}

/// Training is deterministic: the merge list is a pure function of the
/// budget and the corpus, so training twice with the same budget on the
/// same corpus yields an identical list.  `train`'s contract pins its
/// result to `train_spec` of exactly these two inputs.
pub proof fn lemma_training_deterministic(t1: &Trainer, t2: &Trainer, texts: Seq<Seq<char>>)
    requires
        t1.budget() == t2.budget(),
    ensures
        train_spec(t1.budget(), texts) == train_spec(t2.budget(), texts),
{
}

/// Training never learns more merges than its budget.
pub proof fn lemma_train_from_len(tbl: WordTable, tokens: Seq<Seq<char>>, budget: nat)
    ensures
        train_from(tbl, tokens, budget).len() <= budget,
    decreases budget,
{
    if budget > 0 {
        match train_step(tbl, tokens) {
            None => {},
            Some((p, tbl2, tokens2)) => {
                lemma_train_from_len(tbl2, tokens2, (budget - 1) as nat);
            },
        }
    }
}

/// The exec model of a word table.
pub open spec fn tbl_model(v: Seq<(Vec<String>, usize)>) -> WordTable {
    Seq::new(v.len(), |i: int| (v[i].0.deep_view(), v[i].1 as int))
}

/// The exec model of a pair table.
pub open spec fn pf_model(v: Seq<((String, String), usize)>) -> PairTable {
    Seq::new(v.len(), |i: int| ((v[i].0.0@, v[i].0.1@), v[i].1 as int))
}

/// UTF-8 encodes every character in at least one byte.
proof fn lemma_encode_utf8_ge_len(chars: Seq<char>)
    ensures
        encode_utf8(chars).len() >= chars.len(),
    decreases chars.len(),
{
    if chars.len() > 0 {
        lemma_encode_utf8_ge_len(chars.drop_first());
    }
}

/// Every corpus word holds at least one symbol.
pub proof fn lemma_corpus_words_nonempty(texts: Seq<Seq<char>>)
    ensures
        forall|j: int|
            0 <= j < corpus_words(texts).len() ==> (#[trigger] corpus_words(texts)[j]).len() >= 1,
    decreases texts.len(),
{
    if texts.len() > 0 {
        lemma_corpus_words_nonempty(texts.drop_last());
        let t = texts.last();
        lemma_partition_lossless(t);
        let front = corpus_words(texts.drop_last());
        assert forall|j: int| 0 <= j < corpus_words(texts).len() implies (#[trigger] corpus_words(
            texts,
        )[j]).len() >= 1 by {
            if j >= front.len() {
                let jj = j - front.len();
                assert(corpus_words(texts)[j] == text_words(t)[jj]);
                assert(text_words(t)[jj] == chunk_syms(segment(t)[jj]));
                lemma_encode_utf8_ge_len(segment(t)[jj]);
            }
        }
    }
}

/// A list of non-empty words holds at least as many symbols as words.
pub proof fn lemma_words_units_ge_len(ws: Seq<Word>)
    requires
        forall|j: int| 0 <= j < ws.len() ==> (#[trigger] ws[j]).len() >= 1,
    ensures
        words_units(ws) >= ws.len(),
    decreases ws.len(),
{
    if ws.len() > 0 {
        assert forall|j: int| 0 <= j < ws.len() - 1 implies (#[trigger] ws.drop_last()[j]).len()
            >= 1 by {
            assert(ws.drop_last()[j] == ws[j]);
        }
        lemma_words_units_ge_len(ws.drop_last());
    }
}

/// A word table built from a word list counts each word once: the counts sum
/// to the list's length.
pub proof fn lemma_build_table_total(ws: Seq<Word>)
    ensures
        assoc_total(build_table(ws)) == ws.len(),
    decreases ws.len(),
{
    if ws.len() > 0 {
        lemma_build_table_total(ws.drop_last());
        lemma_assoc_add_total(build_table(ws.drop_last()), ws.last(), 1);
    }
}

/// An exec word table models non-negative counts.
proof fn lemma_tbl_model_nonneg(v: Seq<(Vec<String>, usize)>)
    ensures
        counts_at_least(tbl_model(v), 0),
{
    assert forall|j: int| 0 <= j < tbl_model(v).len() implies (#[trigger] tbl_model(v)[j]).1
        >= 0 by {
        assert(tbl_model(v)[j].1 == v[j].1 as int);
    }
}

/// Weights are non-negative over non-negative counts.
proof fn lemma_tbl_weight_nonneg(tbl: WordTable)
    requires
        counts_at_least(tbl, 0),
    ensures
        tbl_weight(tbl) >= 0,
    decreases tbl.len(),
{
    if tbl.len() > 0 {
        assert forall|j: int| 0 <= j < tbl.len() - 1 implies (#[trigger] tbl.drop_last()[j]).1
            >= 0 by {
            assert(tbl.drop_last()[j] == tbl[j]);
        }
        lemma_tbl_weight_nonneg(tbl.drop_last());
        assert(tbl.last().1 * tbl.last().0.len() >= 0) by (nonlinear_arith)
            requires
                tbl.last().1 >= 0,
                tbl.last().0.len() >= 0,
        ;
    }
}

/// A prefix of a table weighs no more than the whole table.
proof fn lemma_tbl_weight_take_le(tbl: WordTable, n: int)
    requires
        counts_at_least(tbl, 0),
        0 <= n <= tbl.len(),
    ensures
        tbl_weight(tbl.take(n)) <= tbl_weight(tbl),
    decreases tbl.len() - n,
{
    if n == tbl.len() {
        assert(tbl.take(n) =~= tbl);
    } else {
        lemma_tbl_weight_take_le(tbl, n + 1);
        assert(tbl.take(n + 1).drop_last() =~= tbl.take(n));
        assert(tbl.take(n + 1).last() == tbl[n]);
        assert(tbl[n].1 * tbl[n].0.len() >= 0) by (nonlinear_arith)
            requires
                tbl[n].1 >= 0,
                tbl[n].0.len() >= 0,
        ;
    }
}

/// Walking a word adds at most its count times its remaining length to the
/// tally total, and keeps tallies non-negative.
proof fn lemma_pairs_from_bounds(pt: PairTable, w: Word, c: int, i: int)
    requires
        counts_at_least(pt, 0),
        c >= 0,
        0 <= i <= w.len(),
    ensures
        assoc_total(pairs_from(pt, w, c, i)) <= assoc_total(pt) + c * (w.len() - i),
        counts_at_least(pairs_from(pt, w, c, i), 0),
    decreases w.len() - i,
{
    if i + 1 < w.len() {
        let pt2 = assoc_add(pt, (w[i], w[i + 1]), c);
        lemma_assoc_add_total(pt, (w[i], w[i + 1]), c);
        lemma_assoc_add_counts(pt, (w[i], w[i + 1]), c, 0);
        lemma_pairs_from_bounds(pt2, w, c, i + 1);
        assert(c * (w.len() - i) == c + c * (w.len() - i - 1)) by (nonlinear_arith);
    } else {
        assert(c * (w.len() - i) >= 0) by (nonlinear_arith)
            requires
                c >= 0,
                w.len() - i >= 0,
        ;
    }
}

/// The pair tallies of a table sum to at most its weight, and every tally is
/// non-negative.
pub proof fn lemma_build_pairs_bounds(tbl: WordTable)
    requires
        counts_at_least(tbl, 0),
    ensures
        assoc_total(build_pairs(tbl)) <= tbl_weight(tbl),
        counts_at_least(build_pairs(tbl), 0),
    decreases tbl.len(),
{
    if tbl.len() > 0 {
        assert forall|j: int| 0 <= j < tbl.len() - 1 implies (#[trigger] tbl.drop_last()[j]).1
            >= 0 by {
            assert(tbl.drop_last()[j] == tbl[j]);
        }
        lemma_build_pairs_bounds(tbl.drop_last());
        lemma_pairs_from_bounds(build_pairs(tbl.drop_last()), tbl.last().0, tbl.last().1, 0);
    }
}

/// Adding `c` occurrences of a word raises the weight by `c` times its
/// length.
proof fn lemma_assoc_add_weight(tbl: WordTable, w: Word, c: int)
    ensures
        tbl_weight(assoc_add(tbl, w, c)) == tbl_weight(tbl) + c * w.len(),
    decreases tbl.len(),
{
    let i = assoc_index(tbl, w);
    lemma_assoc_index_spec(tbl, w);
    if i < 0 {
        assert(tbl.push((w, c)).drop_last() =~= tbl);
    } else {
        let upd = tbl.update(i, (w, tbl[i].1 + c));
        if i == tbl.len() - 1 {
            assert(upd.drop_last() =~= tbl.drop_last());
            assert((tbl[i].1 + c) * w.len() == tbl[i].1 * w.len() + c * w.len())
                by (nonlinear_arith);
        } else {
            assert(upd.drop_last() =~= tbl.drop_last().update(i, (w, tbl[i].1 + c)));
            assert(tbl.drop_last()[i] == tbl[i]);
            assert(assoc_index(tbl.drop_last(), w) == i) by {
                lemma_assoc_index_spec(tbl.drop_last(), w);
                lemma_assoc_index_unique(tbl.drop_last(), w, i);
            }
            assert(assoc_add(tbl.drop_last(), w, c) == upd.drop_last());
            lemma_assoc_add_weight(tbl.drop_last(), w, c);
            assert(upd.last() == tbl.last());
        }
    }
}

/// A table built from a word list weighs exactly the list's symbol count.
pub proof fn lemma_build_table_weight(ws: Seq<Word>)
    ensures
        tbl_weight(build_table(ws)) == words_units(ws),
    decreases ws.len(),
{
    if ws.len() > 0 {
        lemma_build_table_weight(ws.drop_last());
        lemma_assoc_add_weight(build_table(ws.drop_last()), ws.last(), 1);
    }
}

/// Applying a merge pools counts without changing their sum.
proof fn lemma_apply_merge_total(tbl: WordTable, a: Seq<char>, b: Seq<char>)
    ensures
        assoc_total(apply_merge_tbl(tbl, a, b)) == assoc_total(tbl),
    decreases tbl.len(),
{
    if tbl.len() > 0 {
        lemma_apply_merge_total(tbl.drop_last(), a, b);
        lemma_assoc_add_total(
            apply_merge_tbl(tbl.drop_last(), a, b),
            merge_word(tbl.last().0, a, b),
            tbl.last().1,
        );
    }
}

/// Applying a merge never raises the weight, and keeps counts non-negative.
proof fn lemma_apply_merge_weight(tbl: WordTable, a: Seq<char>, b: Seq<char>)
    requires
        counts_at_least(tbl, 0),
    ensures
        tbl_weight(apply_merge_tbl(tbl, a, b)) <= tbl_weight(tbl),
        counts_at_least(apply_merge_tbl(tbl, a, b), 0),
    decreases tbl.len(),
{
    if tbl.len() > 0 {
        assert forall|j: int| 0 <= j < tbl.len() - 1 implies (#[trigger] tbl.drop_last()[j]).1
            >= 0 by {
            assert(tbl.drop_last()[j] == tbl[j]);
        }
        lemma_apply_merge_weight(tbl.drop_last(), a, b);
        let w2 = merge_word(tbl.last().0, a, b);
        let c = tbl.last().1;
        lemma_assoc_add_weight(apply_merge_tbl(tbl.drop_last(), a, b), w2, c);
        crate::symbols::lemma_merge_word_len(tbl.last().0, a, b);
        assert(c * w2.len() <= c * tbl.last().0.len()) by (nonlinear_arith)
            requires
                c >= 0,
                w2.len() <= tbl.last().0.len(),
        ;
        lemma_assoc_add_counts(apply_merge_tbl(tbl.drop_last(), a, b), w2, c, 0);
    }
}

/// An exec pair table models non-negative tallies.
proof fn lemma_pf_model_nonneg(v: Seq<((String, String), usize)>)
    ensures
        counts_at_least(pf_model(v), 0),
{
    assert forall|j: int| 0 <= j < pf_model(v).len() implies (#[trigger] pf_model(v)[j]).1
        >= 0 by {
        assert(pf_model(v)[j].1 == v[j].1 as int);
    }
}

/// Whether two symbol vectors hold the same symbols.
pub fn syms_eq(a: &Vec<String>, b: &Vec<String>) -> (r: bool)
    ensures
        r == (a.deep_view() == b.deep_view()),
{
    let n = a.len();
    if n != b.len() {
        proof {
            assert(a.deep_view().len() != b.deep_view().len());
        }
        return false;
    }
    let mut i: usize = 0;
    while i < n
        invariant
            i <= n,
            n == a@.len(),
            n == b@.len(),
            forall|j: int| 0 <= j < i ==> a.deep_view()[j] == b.deep_view()[j],
        decreases n - i,
    {
        if !string_eq(&a[i], &b[i]) {
            proof {
                assert(a.deep_view()[i as int] == a@[i as int]@);
                assert(b.deep_view()[i as int] == b@[i as int]@);
            }
            return false;
        }
        proof {
            assert(a.deep_view()[i as int] == a@[i as int]@);
            assert(b.deep_view()[i as int] == b@[i as int]@);
        }
        i = i + 1;
    }
    proof {
        assert(a.deep_view() =~= b.deep_view());
    }
    true
}

/// The position of `w`'s entry in the table, if the table has one.
fn find_word(tbl: &Vec<(Vec<String>, usize)>, w: &Vec<String>) -> (r: Option<usize>)
    ensures
        match r {
            Some(j) => j < tbl@.len() && assoc_index(tbl_model(tbl@), w.deep_view()) == j,
            None => assoc_index(tbl_model(tbl@), w.deep_view()) < 0,
        },
{
    let ghost model = tbl_model(tbl@);
    let ghost wdv = w.deep_view();
    let n = tbl.len();
    let mut j: usize = 0;
    while j < n
        invariant
            j <= n,
            n == tbl@.len(),
            model == tbl_model(tbl@),
            wdv == w.deep_view(),
            forall|jj: int| 0 <= jj < j ==> (#[trigger] model[jj]).0 != wdv,
        decreases n - j,
    {
        if syms_eq(&tbl[j].0, w) {
            proof {
                assert(model[j as int].0 == tbl@[j as int].0.deep_view());
                lemma_assoc_index_unique(model, wdv, j as int);
            }
            return Some(j);
        }
        proof {
            assert(model[j as int].0 == tbl@[j as int].0.deep_view());
        }
        j = j + 1;
    }
    proof {
        lemma_assoc_index_spec(model, wdv);
    }
    None
}

/// The id of `t` under the running assignment, scanning latest entries
/// first; `u32::MAX` stands for an unassigned token.
fn token_index(tokens: &Vec<String>, t: &String) -> (r: u32)
    requires
        tokens@.len() <= u32::MAX,
    ensures
        r as int == token_id(tokens.deep_view(), t@),
{
    let ghost dv = tokens.deep_view();
    let mut i: usize = tokens.len();
    proof {
        assert(dv.take(i as int) =~= dv);
    }
    while i > 0
        invariant
            i <= tokens@.len(),
            tokens@.len() <= u32::MAX,
            dv == tokens.deep_view(),
            token_id(dv, t@) == token_id(dv.take(i as int), t@),
        decreases i,
    {
        i = i - 1;
        proof {
            assert(dv.take(i + 1).last() == dv[i as int]);
            assert(dv.take(i + 1).drop_last() =~= dv.take(i as int));
            assert(dv[i as int] == tokens@[i as int]@);
        }
        if string_eq(&tokens[i], t) {
            return i as u32;
        }
    }
    proof {
        assert(dv.take(0) =~= Seq::<Seq<char>>::empty());
    }
    u32::MAX
}

/// The fold that picks the winning pair never passes over a higher tally,
/// and among entries of the winning tally it picks one whose id tuple is
/// lexicographically least.
pub proof fn lemma_best_entry_max(pf: PairTable, tokens: Seq<Seq<char>>)
    requires
        pf.len() > 0,
    ensures
        exists|i: int| 0 <= i < pf.len() && pf[i] == best_entry(pf, tokens),
        forall|j: int| 0 <= j < pf.len() ==> (#[trigger] pf[j]).1 <= best_entry(pf, tokens).1,
        forall|j: int|
            0 <= j < pf.len() && (#[trigger] pf[j]).1 == best_entry(pf, tokens).1 ==> ids_le(
                pair_ids(tokens, best_entry(pf, tokens).0),
                pair_ids(tokens, pf[j].0),
            ),
    decreases pf.len(),
{
    if pf.len() > 1 {
        lemma_best_entry_max(pf.drop_last(), tokens);
        let prev = best_entry(pf.drop_last(), tokens);
        assert(forall|j: int| 0 <= j < pf.len() - 1 ==> pf.drop_last()[j] == pf[j]);
        let i = choose|i: int|
            0 <= i < pf.drop_last().len() && pf.drop_last()[i] == best_entry(pf.drop_last(), tokens);
        assert(pf[i] == prev);
        if displaces(pf.last(), prev, tokens) {
            assert(pf[pf.len() - 1] == best_entry(pf, tokens));
        } else {
            assert(pf[i] == best_entry(pf, tokens));
        }
    } else {
        assert(pf[0] == best_entry(pf, tokens));
    }
}

/// The position of the pair `(a, b)`'s entry in the tally table, if any.
fn find_pair(pf: &Vec<((String, String), usize)>, a: &String, b: &String) -> (r: Option<usize>)
    ensures
        match r {
            Some(j) => j < pf@.len() && assoc_index(pf_model(pf@), (a@, b@)) == j,
            None => assoc_index(pf_model(pf@), (a@, b@)) < 0,
        },
{
    let ghost model = pf_model(pf@);
    let n = pf.len();
    let mut j: usize = 0;
    while j < n
        invariant
            j <= n,
            n == pf@.len(),
            model == pf_model(pf@),
            forall|jj: int| 0 <= jj < j ==> (#[trigger] model[jj]).0 != (a@, b@),
        decreases n - j,
    {
        if string_eq(&pf[j].0.0, a) && string_eq(&pf[j].0.1, b) {
            proof {
                assert(model[j as int].0 == (pf@[j as int].0.0@, pf@[j as int].0.1@));
                lemma_assoc_index_unique(model, (a@, b@), j as int);
            }
            return Some(j);
        }
        proof {
            assert(model[j as int].0 == (pf@[j as int].0.0@, pf@[j as int].0.1@));
        }
        j = j + 1;
    }
    proof {
        lemma_assoc_index_spec(model, (a@, b@));
    }
    None
}

/// Learns an ordered list of merge rules from a corpus, under a merge
/// budget.
pub struct Trainer {
    num_merges: usize,
    pre_tokenizer: PreTokenizer,
}

impl Trainer {
    /// The merge budget this trainer was created with.
    pub closed spec fn budget(&self) -> nat {
        self.num_merges as nat
    }

    /// A trainer that will learn at most `num_merges` merge rules.
    pub fn new(num_merges: usize) -> (r: Self)
        ensures
            r.budget() == num_merges,
    {
        Trainer { num_merges, pre_tokenizer: PreTokenizer::default() }
    }

    /// The initial token-id assignment: the 256 base tokens, ids in
    /// code-point order.
    pub fn build_initial_token_to_id(&self) -> (r: Vec<String>)
        ensures
            r.deep_view() == base_tokens(),
    {
        let mut toks: Vec<String> = Vec::new();
        let mut k: usize = 0;
        while k < 256
            invariant
                k <= 256,
                toks.deep_view().len() == k,
                forall|j: int| 0 <= j < k ==> toks.deep_view()[j] == base_token(j),
            decreases 256 - k,
        {
            let b = base_byte_exec(k);
            proof {
                lemma_base_tokens(k as int, b);
            }
            let c = crate::byte_encoder::encode_byte(b);
            let ghost prev = toks.deep_view();
            toks.push(char_to_string(c));
            proof {
                assert forall|j: int| 0 <= j < k + 1 implies toks.deep_view()[j] == base_token(
                    j,
                ) by {
                    if j < k {
                        assert(toks.deep_view()[j] == prev[j]);
                    } else {
                        assert(toks.deep_view()[j] == toks@[j]@);
                    }
                }
            }
            k = k + 1;
        }
        proof {
            assert(toks.deep_view() =~= base_tokens());
        }
        toks
    }

    /// The word-frequency table of a corpus: every text is segmented, every
    /// chunk expanded to symbols, and identical words anywhere in the corpus
    /// share one counted entry.
    pub fn build_word_frequencies(&self, training_texts: &[&str]) -> (r: Vec<
        (Vec<String>, usize),
    >)
        requires
            corpus_units(training_texts.deep_view()) <= usize::MAX,
        ensures
            tbl_model(r@) == build_table(corpus_words(training_texts.deep_view())),
    {
        let ghost texts_dv = training_texts.deep_view();
        let mut words: Vec<Vec<String>> = Vec::new();
        let nt = training_texts.len();
        let mut ti: usize = 0;
        proof {
            assert(texts_dv.take(0) =~= Seq::<Seq<char>>::empty());
            assert(words.deep_view() =~= corpus_words(texts_dv.take(0)));
        }
        while ti < nt
            invariant
                ti <= nt,
                nt == training_texts@.len(),
                texts_dv == training_texts.deep_view(),
                words.deep_view() == corpus_words(texts_dv.take(ti as int)),
            decreases nt - ti,
        {
            let text: &str = training_texts[ti];
            proof {
                assert(text@ == texts_dv[ti as int]);
            }
            let chunks = self.pre_tokenizer.pre_tokenize(text);
            let nc = chunks.len();
            let mut ci: usize = 0;
            proof {
                assert(text_words(text@).take(0) =~= Seq::<Word>::empty());
                assert(words.deep_view() + text_words(text@).take(0) =~= words.deep_view());
            }
            while ci < nc
                invariant
                    ci <= nc,
                    nc == chunks@.len(),
                    chunks.deep_view() == segment(texts_dv[ti as int]),
                    0 <= ti < texts_dv.len(),
                    words.deep_view() == corpus_words(texts_dv.take(ti as int)) + text_words(
                        texts_dv[ti as int],
                    ).take(ci as int),
                decreases nc - ci,
            {
                let w = chunk_to_symbols(chunks[ci].as_str());
                let ghost prev = words.deep_view();
                words.push(w);
                proof {
                    let t = texts_dv[ti as int];
                    assert(words.deep_view().len() == prev.len() + 1);
                    assert forall|j: int| 0 <= j < prev.len() implies words.deep_view()[j]
                        == prev[j] by {
                        assert(words.deep_view()[j] == words@[j].deep_view());
                    }
                    assert(words.deep_view()[prev.len() as int] == words@[prev.len() as int
                    ].deep_view());
                    assert(chunks.deep_view()[ci as int] == chunks@[ci as int]@);
                    assert(words.deep_view()[prev.len() as int] == chunk_syms(segment(t)[ci as int]));
                    assert(text_words(t)[ci as int] == chunk_syms(segment(t)[ci as int]));
                    assert(words.deep_view() =~= prev.push(chunk_syms(segment(t)[ci as int])));
                    assert(text_words(t).take(ci + 1) =~= text_words(t).take(ci as int).push(
                        text_words(t)[ci as int],
                    ));
                    assert(words.deep_view() =~= corpus_words(texts_dv.take(ti as int))
                        + text_words(t).take(ci + 1));
                }
                ci = ci + 1;
            }
            proof {
                let t = texts_dv[ti as int];
                assert(text_words(t).take(nc as int) =~= text_words(t));
                assert(texts_dv.take(ti + 1).drop_last() =~= texts_dv.take(ti as int));
                assert(texts_dv.take(ti + 1).last() == t);
                assert(words.deep_view() =~= corpus_words(texts_dv.take(ti + 1)));
            }
            ti = ti + 1;
        }
        proof {
            assert(texts_dv.take(nt as int) =~= texts_dv);
            lemma_corpus_words_nonempty(texts_dv);
            lemma_words_units_ge_len(corpus_words(texts_dv));
        }
        let ghost ws = corpus_words(texts_dv);
        let nw = words.len();
        let mut tbl: Vec<(Vec<String>, usize)> = Vec::new();
        let mut wi: usize = 0;
        proof {
            assert(ws.take(0) =~= Seq::<Word>::empty());
            assert(tbl_model(tbl@) =~= build_table(ws.take(0)));
        }
        while wi < nw
            invariant
                wi <= nw,
                nw == words@.len(),
                words.deep_view() == ws,
                ws == corpus_words(texts_dv),
                nw <= corpus_units(texts_dv),
                corpus_units(texts_dv) <= usize::MAX,
                tbl_model(tbl@) == build_table(ws.take(wi as int)),
            decreases nw - wi,
        {
            let ghost model = tbl_model(tbl@);
            let ghost wdv = ws[wi as int];
            proof {
                assert(words.deep_view()[wi as int] == words@[wi as int].deep_view());
                assert(ws.take(wi + 1).drop_last() =~= ws.take(wi as int));
                assert(ws.take(wi + 1).last() == wdv);
            }
            let found = find_word(&tbl, &words[wi]);
            match found {
                Some(j) => {
                    proof {
                        lemma_tbl_model_nonneg(tbl@);
                        lemma_build_table_total(ws.take(wi as int));
                        lemma_assoc_entry_le_total(model, j as int);
                        assert(model[j as int].1 == tbl@[j as int].1 as int);
                        lemma_assoc_index_spec(model, wdv);
                    }
                    let c = tbl[j].1;
                    tbl[j].1 = c + 1;
                    proof {
                        assert forall|l: int| 0 <= l < tbl@.len() implies tbl_model(tbl@)[l]
                            == assoc_add(model, wdv, 1)[l] by {
                            if l != j {
                                assert(tbl_model(tbl@)[l] == model[l]);
                            }
                        }
                        assert(tbl_model(tbl@) =~= assoc_add(model, wdv, 1));
                        assert(tbl_model(tbl@) == build_table(ws.take(wi + 1)));
                    }
                }
                None => {
                    let wclone = clone_string_vec(&words[wi]);
                    tbl.push((wclone, 1));
                    proof {
                        assert forall|l: int| 0 <= l < tbl@.len() implies tbl_model(tbl@)[l]
                            == assoc_add(model, wdv, 1)[l] by {
                            if l < model.len() {
                                assert(tbl_model(tbl@)[l] == model[l]);
                            } else {
                                assert(tbl_model(tbl@)[l] == (tbl@[l].0.deep_view(), tbl@[l].1 as int));
                            }
                        }
                        assert(tbl_model(tbl@) =~= assoc_add(model, wdv, 1));
                        assert(tbl_model(tbl@) == build_table(ws.take(wi + 1)));
                    }
                }
            }
            wi = wi + 1;
        }
        proof {
            assert(ws.take(nw as int) =~= ws);
        }
        tbl
    }

    /// The pair-frequency table of a word table: for every entry, every
    /// adjacent pair of symbols tallies the entry's corpus count.
    pub fn compute_pair_frequencies(word_freqs: &Vec<(Vec<String>, usize)>) -> (r: Vec<
        ((String, String), usize),
    >)
        requires
            tbl_weight(tbl_model(word_freqs@)) <= usize::MAX,
        ensures
            pf_model(r@) == build_pairs(tbl_model(word_freqs@)),
    {
        let ghost model = tbl_model(word_freqs@);
        proof {
            lemma_tbl_model_nonneg(word_freqs@);
        }
        let ne = word_freqs.len();
        let mut pf: Vec<((String, String), usize)> = Vec::new();
        let mut ei: usize = 0;
        proof {
            assert(model.take(0) =~= Seq::<(Word, int)>::empty());
            assert(pf_model(pf@) =~= build_pairs(model.take(0)));
        }
        while ei < ne
            invariant
                ei <= ne,
                ne == word_freqs@.len(),
                model == tbl_model(word_freqs@),
                counts_at_least(model, 0),
                tbl_weight(model) <= usize::MAX,
                pf_model(pf@) == build_pairs(model.take(ei as int)),
                assoc_total(pf_model(pf@)) <= tbl_weight(model.take(ei as int)),
            decreases ne - ei,
        {
            let ghost base = build_pairs(model.take(ei as int));
            let ghost wdv = model[ei as int].0;
            let ghost cg = model[ei as int].1;
            let c = word_freqs[ei].1;
            let wlen = word_freqs[ei].0.len();
            proof {
                assert(model[ei as int] == (word_freqs@[ei as int].0.deep_view(),
                word_freqs@[ei as int].1 as int));
                assert(wdv.len() == wlen);
                assert(cg == c as int);
                assert(model.take(ei + 1).drop_last() =~= model.take(ei as int));
                assert(model.take(ei + 1).last() == model[ei as int]);
                lemma_tbl_weight_take_le(model, ei + 1);
            }
            let mut pi: usize = 0;
            while pi + 1 < wlen
                invariant
                    pi + 1 <= wlen || pi == 0,
                    wlen == word_freqs@[ei as int].0@.len(),
                    0 <= ei < ne,
                    ne == word_freqs@.len(),
                    model == tbl_model(word_freqs@),
                    counts_at_least(model, 0),
                    tbl_weight(model) <= usize::MAX,
                    wdv == model[ei as int].0,
                    cg == model[ei as int].1,
                    cg == c as int,
                    wdv.len() == wlen,
                    base == build_pairs(model.take(ei as int)),
                    pairs_from(base, wdv, cg, 0) == pairs_from(pf_model(pf@), wdv, cg, pi as int),
                    assoc_total(pf_model(pf@)) <= tbl_weight(model.take(ei as int)) + cg * pi,
                    tbl_weight(model.take(ei + 1)) == tbl_weight(model.take(ei as int)) + cg
                        * wlen,
                    tbl_weight(model.take(ei + 1)) <= tbl_weight(model),
                decreases wlen - pi,
            {
                let ghost pfm = pf_model(pf@);
                let ghost key = (wdv[pi as int], wdv[pi + 1]);
                proof {
                    lemma_pf_model_nonneg(pf@);
                    assert(word_freqs@[ei as int].0.deep_view()[pi as int] == word_freqs@[
                    ei as int].0@[pi as int]@);
                    assert(word_freqs@[ei as int].0.deep_view()[pi + 1] == word_freqs@[ei as int
                    ].0@[pi + 1]@);
                    assert(cg * (pi + 1) <= cg * wlen) by (nonlinear_arith)
                        requires
                            cg >= 0,
                            pi + 1 <= wlen,
                    ;
                }
                let first = &word_freqs[ei].0[pi];
                let second = &word_freqs[ei].0[pi + 1];
                let found = find_pair(&pf, first, second);
                proof {
                    assert(first@ == key.0);
                    assert(second@ == key.1);
                }
                match found {
                    Some(j) => {
                        proof {
                            lemma_assoc_entry_le_total(pfm, j as int);
                            lemma_assoc_total_nonneg(pfm);
                            assert(pfm[j as int].1 == pf@[j as int].1 as int);
                            lemma_assoc_index_spec(pfm, key);
                        }
                        let val = pf[j].1;
                        proof {
                            assert(cg * (pi + 1) == cg * pi + cg) by (nonlinear_arith);
                            assert(val + c <= tbl_weight(model.take(ei + 1)));
                        }
                        pf[j].1 = val + c;
                        proof {
                            assert forall|l: int| 0 <= l < pf@.len() implies pf_model(pf@)[l]
                                == assoc_add(pfm, key, cg)[l] by {
                                if l != j {
                                    assert(pf_model(pf@)[l] == pfm[l]);
                                }
                            }
                            assert(pf_model(pf@) =~= assoc_add(pfm, key, cg));
                        }
                    },
                    None => {
                        let kf = first.clone();
                        let ks = second.clone();
                        pf.push(((kf, ks), c));
                        proof {
                            assert forall|l: int| 0 <= l < pf@.len() implies pf_model(pf@)[l]
                                == assoc_add(pfm, key, cg)[l] by {
                                if l < pfm.len() {
                                    assert(pf_model(pf@)[l] == pfm[l]);
                                } else {
                                    assert(pf_model(pf@)[l] == ((pf@[l].0.0@, pf@[l].0.1@),
                                    pf@[l].1 as int));
                                }
                            }
                            assert(pf_model(pf@) =~= assoc_add(pfm, key, cg));
                        }
                    },
                }
                proof {
                    lemma_assoc_add_total(pfm, key, cg);
                    assert(cg * (pi + 1) == cg * pi + cg) by (nonlinear_arith);
                    assert(pairs_from(pfm, wdv, cg, pi as int) == pairs_from(
                        assoc_add(pfm, key, cg),
                        wdv,
                        cg,
                        pi + 1,
                    ));
                }
                pi = pi + 1;
            }
            proof {
                assert(pairs_from(pf_model(pf@), wdv, cg, pi as int) == pf_model(pf@));
                assert(build_pairs(model.take(ei + 1)) == pairs_from(base, wdv, cg, 0));
                assert(pi <= wlen);
                assert(cg * pi <= cg * wlen) by (nonlinear_arith)
                    requires
                        cg >= 0,
                        pi <= wlen,
                ;
            }
            ei = ei + 1;
        }
        proof {
            assert(model.take(ne as int) =~= model);
        }
        pf
    }

    /// The winning pair of a tally table: the highest tally, ties going to
    /// the pair with the lexicographically smallest id tuple; `None` exactly
    /// when the table is empty.
    pub fn find_best_pair(
        pair_freqs: &Vec<((String, String), usize)>,
        token_to_id: &Vec<String>,
    ) -> (r: Option<(String, String)>)
        requires
            token_to_id@.len() <= u32::MAX,
        ensures
            match r {
                Some(p) => pf_model(pair_freqs@).len() > 0 && (p.0@, p.1@) == best_entry(
                    pf_model(pair_freqs@),
                    token_to_id.deep_view(),
                ).0,
                None => pf_model(pair_freqs@).len() == 0,
            },
    {
        let ghost pfm = pf_model(pair_freqs@);
        let ghost toks = token_to_id.deep_view();
        let n = pair_freqs.len();
        if n == 0 {
            return None;
        }
        let mut best: usize = 0;
        let mut best_i0 = token_index(token_to_id, &pair_freqs[0].0.0);
        let mut best_i1 = token_index(token_to_id, &pair_freqs[0].0.1);
        proof {
            assert(pfm[0] == ((pair_freqs@[0].0.0@, pair_freqs@[0].0.1@), pair_freqs@[0].1 as int));
            assert(pfm.take(1).len() == 1);
            assert(pfm.take(1)[0] == pfm[0]);
        }
        let mut j: usize = 1;
        while j < n
            invariant
                1 <= j <= n,
                n == pair_freqs@.len(),
                pfm == pf_model(pair_freqs@),
                toks == token_to_id.deep_view(),
                token_to_id@.len() <= u32::MAX,
                best < j,
                best_entry(pfm.take(j as int), toks) == pfm[best as int],
                best_i0 as int == pair_ids(toks, pfm[best as int].0).0,
                best_i1 as int == pair_ids(toks, pfm[best as int].0).1,
            decreases n - j,
        {
            proof {
                assert(pfm[j as int] == ((pair_freqs@[j as int].0.0@, pair_freqs@[j as int].0.1@),
                pair_freqs@[j as int].1 as int));
                assert(pfm.take(j + 1).drop_last() =~= pfm.take(j as int));
                assert(pfm.take(j + 1).last() == pfm[j as int]);
            }
            let ci0 = token_index(token_to_id, &pair_freqs[j].0.0);
            let ci1 = token_index(token_to_id, &pair_freqs[j].0.1);
            let cc = pair_freqs[j].1;
            let bc = pair_freqs[best].1;
            proof {
                assert(pfm[best as int].1 == pair_freqs@[best as int].1 as int);
            }
            if cc > bc || (cc == bc && (ci0 < best_i0 || (ci0 == best_i0 && ci1 <= best_i1))) {
                proof {
                    assert(displaces(pfm[j as int], pfm[best as int], toks));
                }
                best = j;
                best_i0 = ci0;
                best_i1 = ci1;
            } else {
                proof {
                    assert(!displaces(pfm[j as int], pfm[best as int], toks));
                }
            }
            j = j + 1;
        }
        proof {
            assert(pfm.take(n as int) =~= pfm);
        }
        let p0 = pair_freqs[best].0.0.clone();
        let p1 = pair_freqs[best].0.1.clone();
        Some((p0, p1))
    }

    /// Rewrites every entry's word by one pass of the merge pair; entries
    /// whose rewritten words coincide pool their counts.
    pub fn apply_merge(word_freqs: &Vec<(Vec<String>, usize)>, pair: &(String, String)) -> (r: Vec<
        (Vec<String>, usize),
    >)
        requires
            assoc_total(tbl_model(word_freqs@)) <= usize::MAX,
        ensures
            tbl_model(r@) == apply_merge_tbl(tbl_model(word_freqs@), pair.0@, pair.1@),
    {
        let ghost model = tbl_model(word_freqs@);
        let ghost a = pair.0@;
        let ghost b = pair.1@;
        proof {
            lemma_tbl_model_nonneg(word_freqs@);
        }
        let merged = concat_strings(&pair.0, &pair.1);
        let ne = word_freqs.len();
        let mut out: Vec<(Vec<String>, usize)> = Vec::new();
        let mut ei: usize = 0;
        proof {
            assert(model.take(0) =~= Seq::<(Word, int)>::empty());
            assert(tbl_model(out@) =~= apply_merge_tbl(model.take(0), a, b));
            assert(assoc_total(model.take(0)) == 0);
        }
        while ei < ne
            invariant
                ei <= ne,
                ne == word_freqs@.len(),
                model == tbl_model(word_freqs@),
                counts_at_least(model, 0),
                assoc_total(model) <= usize::MAX,
                a == pair.0@,
                b == pair.1@,
                merged@ == a + b,
                tbl_model(out@) == apply_merge_tbl(model.take(ei as int), a, b),
                assoc_total(tbl_model(out@)) == assoc_total(model.take(ei as int)),
            decreases ne - ei,
        {
            let ghost outm = tbl_model(out@);
            let ghost wdv = model[ei as int].0;
            let ghost cg = model[ei as int].1;
            proof {
                assert(model[ei as int] == (word_freqs@[ei as int].0.deep_view(),
                word_freqs@[ei as int].1 as int));
                assert(model.take(ei + 1).drop_last() =~= model.take(ei as int));
                assert(model.take(ei + 1).last() == model[ei as int]);
                lemma_assoc_total_take_le(model, ei + 1);
            }
            let w2 = merge_symbols(&word_freqs[ei].0, &pair.0, &pair.1, &merged);
            let c = word_freqs[ei].1;
            let ghost w2dv = merge_word(wdv, a, b);
            let found = find_word(&out, &w2);
            match found {
                Some(j) => {
                    proof {
                        lemma_tbl_model_nonneg(out@);
                        lemma_assoc_entry_le_total(outm, j as int);
                        lemma_assoc_total_nonneg(outm);
                        assert(outm[j as int].1 == out@[j as int].1 as int);
                        lemma_assoc_index_spec(outm, w2dv);
                    }
                    let val = out[j].1;
                    out[j].1 = val + c;
                    proof {
                        assert forall|l: int| 0 <= l < out@.len() implies tbl_model(out@)[l]
                            == assoc_add(outm, w2dv, cg)[l] by {
                            if l != j {
                                assert(tbl_model(out@)[l] == outm[l]);
                            }
                        }
                        assert(tbl_model(out@) =~= assoc_add(outm, w2dv, cg));
                    }
                },
                None => {
                    out.push((w2, c));
                    proof {
                        assert forall|l: int| 0 <= l < out@.len() implies tbl_model(out@)[l]
                            == assoc_add(outm, w2dv, cg)[l] by {
                            if l < outm.len() {
                                assert(tbl_model(out@)[l] == outm[l]);
                            } else {
                                assert(tbl_model(out@)[l] == (out@[l].0.deep_view(),
                                out@[l].1 as int));
                            }
                        }
                        assert(tbl_model(out@) =~= assoc_add(outm, w2dv, cg));
                    }
                },
            }
            proof {
                lemma_assoc_add_total(outm, w2dv, cg);
            }
            ei = ei + 1;
        }
        proof {
            assert(model.take(ne as int) =~= model);
        }
        out
    }

    /// Learns merge rules from the corpus: repeatedly tallies adjacent
    /// pairs, records the winning pair, rewrites the table, and extends the
    /// token-id assignment, until the budget is spent or no pair is left.
    pub fn train(&self, training_texts: &[&str]) -> (r: Vec<(String, String)>)
        requires
            corpus_units(training_texts.deep_view()) <= usize::MAX,
            self.budget() + 256 <= u32::MAX,
        ensures
            r.deep_view() == train_spec(self.budget(), training_texts.deep_view()),
    {
        let ghost texts_dv = training_texts.deep_view();
        let ghost ws = corpus_words(texts_dv);
        let mut tbl = self.build_word_frequencies(training_texts);
        let mut tokens = self.build_initial_token_to_id();
        let mut merges: Vec<(String, String)> = Vec::new();
        let ghost units = corpus_units(texts_dv);
        proof {
            lemma_corpus_words_nonempty(texts_dv);
            lemma_words_units_ge_len(ws);
            lemma_build_table_total(ws);
            lemma_build_table_weight(ws);
            lemma_tbl_model_nonneg(tbl@);
            assert(merges.deep_view() =~= Seq::<(Seq<char>, Seq<char>)>::empty());
            assert(merges.deep_view() + train_from(
                tbl_model(tbl@),
                tokens.deep_view(),
                self.num_merges as nat,
            ) =~= train_spec(self.num_merges as nat, texts_dv));
        }
        let mut it: usize = 0;
        while it < self.num_merges
            invariant
                it <= self.num_merges,
                self.num_merges + 256 <= u32::MAX,
                texts_dv == training_texts.deep_view(),
                tokens.deep_view().len() == 256 + it,
                counts_at_least(tbl_model(tbl@), 0),
                tbl_weight(tbl_model(tbl@)) <= units,
                assoc_total(tbl_model(tbl@)) <= units,
                units <= usize::MAX,
                merges.deep_view() + train_from(
                    tbl_model(tbl@),
                    tokens.deep_view(),
                    (self.num_merges - it) as nat,
                ) == train_spec(self.num_merges as nat, texts_dv),
            ensures
                merges.deep_view() == train_spec(self.num_merges as nat, texts_dv),
            decreases self.num_merges - it,
        {
            let ghost tblm = tbl_model(tbl@);
            let ghost toks = tokens.deep_view();
            let ghost left = (self.num_merges - it) as nat;
            let pf = Trainer::compute_pair_frequencies(&tbl);
            match Trainer::find_best_pair(&pf, &tokens) {
                None => {
                    proof {
                        assert(build_pairs(tblm).len() == 0);
                        assert(train_from(tblm, toks, left) =~= Seq::<
                            (Seq<char>, Seq<char>),
                        >::empty());
                        assert(merges.deep_view() =~= merges.deep_view() + train_from(
                            tblm,
                            toks,
                            left,
                        ));
                    }
                    break ;
                },
                Some(p) => {
                    proof {
                        assert(build_pairs(tblm).len() > 0);
                        assert(train_step(tblm, toks) matches Some(s) && s.0 == (p.0@, p.1@));
                    }
                    let merged = concat_strings(&p.0, &p.1);
                    let tbl2 = Trainer::apply_merge(&tbl, &p);
                    tbl = tbl2;
                    let ghost prev_toks = tokens.deep_view();
                    tokens.push(merged);
                    let ghost prev_merges = merges.deep_view();
                    merges.push(p);
                    proof {
                        assert forall|l: int| 0 <= l < prev_toks.len() + 1 implies tokens.deep_view()[l]
                            == prev_toks.push((p.0@, p.1@).0 + (p.0@, p.1@).1)[l] by {
                            assert(tokens.deep_view()[l] == tokens@[l]@);
                        }
                        assert(tokens.deep_view() =~= prev_toks.push(p.0@ + p.1@));
                        assert forall|l: int| 0 <= l < prev_merges.len() + 1 implies merges.deep_view()[l]
                            == prev_merges.push((p.0@, p.1@))[l] by {
                            assert(merges.deep_view()[l] == (merges@[l].0@, merges@[l].1@));
                        }
                        assert(merges.deep_view() =~= prev_merges.push((p.0@, p.1@)));
                        assert(tbl_model(tbl@) == apply_merge_tbl(tblm, p.0@, p.1@));
                        lemma_apply_merge_total(tblm, p.0@, p.1@);
                        lemma_apply_merge_weight(tblm, p.0@, p.1@);
                        assert(train_from(tblm, toks, left) == seq![(p.0@, p.1@)] + train_from(
                            tbl_model(tbl@),
                            tokens.deep_view(),
                            (left - 1) as nat,
                        ));
                        assert(merges.deep_view() + train_from(
                            tbl_model(tbl@),
                            tokens.deep_view(),
                            (left - 1) as nat,
                        ) =~= prev_merges + train_from(tblm, toks, left));
                    }
                    it = it + 1;
                },
            }
        }
        merges
    }
}

} // verus!
