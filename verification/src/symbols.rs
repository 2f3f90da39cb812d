//! Symbols and merging.
//!
//! A symbol is a string of codec characters standing for a contiguous run of
//! original bytes.  A chunk starts as one symbol per UTF-8 byte; applying a
//! merge rule fuses each non-overlapping adjacent occurrence of its pair into
//! the pair's concatenation, in one left-to-right pass.

use crate::byte_encoder::byte_char;
use crate::text::char_to_string;
use crate::text::str_to_chars;
use vstd::prelude::*;
use vstd::seq_lib::lemma_flatten_concat;
use vstd::string::StringExecFns;
use vstd::utf8::encode_utf8;

verus! {

/// The one-character symbol standing for byte `b`.
pub open spec fn sym_of_byte(b: u8) -> Seq<char> {
    seq![byte_char(b)]
}

/// The symbol sequence a chunk starts from: one symbol per UTF-8 byte of the
/// chunk, in order.
pub open spec fn chunk_syms(chunk: Seq<char>) -> Seq<Seq<char>> {
    encode_utf8(chunk).map_values(|b: u8| sym_of_byte(b))
}

/// UTF-8 encoding distributes over concatenation.
pub proof fn lemma_encode_utf8_concat(a: Seq<char>, b: Seq<char>)
    ensures
        encode_utf8(a + b) == encode_utf8(a) + encode_utf8(b),
    decreases a.len(),
{
    if a.len() == 0 {
        assert(a + b =~= b);
        assert(encode_utf8(a) =~= Seq::<u8>::empty());
        assert(encode_utf8(a + b) =~= encode_utf8(a) + encode_utf8(b));
    } else {
        assert((a + b).drop_first() =~= a.drop_first() + b);
        assert((a + b)[0] == a[0]);
        lemma_encode_utf8_concat(a.drop_first(), b);
        assert(encode_utf8(a + b) =~= encode_utf8(a) + encode_utf8(b));
    }
}

/// One left-to-right pass over `w` replacing every non-overlapping adjacent
/// occurrence of the pair `(a, b)` by the concatenation `a + b`.
pub open spec fn merge_word(w: Seq<Seq<char>>, a: Seq<char>, b: Seq<char>) -> Seq<Seq<char>>
    decreases w.len(),
{
    if w.len() >= 2 && w[0] == a && w[1] == b {
        seq![a + b] + merge_word(w.skip(2), a, b)
    } else if w.len() >= 1 {
        seq![w[0]] + merge_word(w.skip(1), a, b)
    } else {
        seq![]
    }
}

/// Whether the adjacent pair `(a, b)` occurs somewhere in `w`.
pub open spec fn has_pair(w: Seq<Seq<char>>, a: Seq<char>, b: Seq<char>) -> bool {
    exists|i: int| 0 <= i && i + 1 < w.len() && #[trigger] w[i] == a && w[i + 1] == b
}

/// Merging never changes the concatenation of the symbols: the byte run a
/// word stands for is preserved.
pub proof fn lemma_merge_word_concat(w: Seq<Seq<char>>, a: Seq<char>, b: Seq<char>)
    ensures
        merge_word(w, a, b).flatten() == w.flatten(),
    decreases w.len(),
{
    if w.len() >= 2 && w[0] == a && w[1] == b {
        let rest = w.skip(2);
        lemma_merge_word_concat(rest, a, b);
        lemma_flatten_concat(seq![a + b], merge_word(rest, a, b));
        seq![a + b].lemma_flatten_singleton();
        lemma_flatten_concat(seq![w[0], w[1]], rest);
        assert(seq![w[0], w[1]] + rest =~= w);
        lemma_flatten_concat(seq![w[0]], seq![w[1]]);
        assert(seq![w[0]] + seq![w[1]] =~= seq![w[0], w[1]]);
        seq![w[0]].lemma_flatten_singleton();
        seq![w[1]].lemma_flatten_singleton();
        assert(merge_word(w, a, b).flatten() =~= w.flatten());
    } else if w.len() >= 1 {
        let rest = w.skip(1);
        lemma_merge_word_concat(rest, a, b);
        lemma_flatten_concat(seq![w[0]], merge_word(rest, a, b));
        lemma_flatten_concat(seq![w[0]], rest);
        assert(seq![w[0]] + rest =~= w);
        seq![w[0]].lemma_flatten_singleton();
        assert(merge_word(w, a, b).flatten() =~= w.flatten());
    }
}

/// Merging never lengthens a word, and strictly shortens it when the pair
/// occurs.
pub proof fn lemma_merge_word_len(w: Seq<Seq<char>>, a: Seq<char>, b: Seq<char>)
    ensures
        merge_word(w, a, b).len() <= w.len(),
        has_pair(w, a, b) ==> merge_word(w, a, b).len() < w.len(),
    decreases w.len(),
{
    if w.len() >= 2 && w[0] == a && w[1] == b {
        lemma_merge_word_len(w.skip(2), a, b);
    } else if w.len() >= 1 {
        lemma_merge_word_len(w.skip(1), a, b);
        if has_pair(w, a, b) {
            let i = choose|i: int|
                0 <= i && i + 1 < w.len() && #[trigger] w[i] == a && w[i + 1] == b;
            assert(w.skip(1)[i - 1] == a && w.skip(1)[i - 1 + 1] == b);
            assert(has_pair(w.skip(1), a, b));
        }
    }
}

/// Every symbol of a merged word is either a symbol of the original word or
/// the pair's concatenation.
pub proof fn lemma_merge_word_members(w: Seq<Seq<char>>, a: Seq<char>, b: Seq<char>)
    ensures
        forall|j: int|
            0 <= j < merge_word(w, a, b).len() ==> (exists|i: int|
                0 <= i < w.len() && w[i] == #[trigger] merge_word(w, a, b)[j]) || merge_word(
                w,
                a,
                b,
            )[j] == a + b,
    decreases w.len(),
{
    if w.len() >= 2 && w[0] == a && w[1] == b {
        lemma_merge_word_members(w.skip(2), a, b);
        assert forall|j: int|
            0 <= j < merge_word(w, a, b).len() implies (exists|i: int|
            0 <= i < w.len() && w[i] == #[trigger] merge_word(w, a, b)[j]) || merge_word(w, a, b)[j]
            == a + b by {
            if j >= 1 {
                let m = merge_word(w.skip(2), a, b);
                assert(merge_word(w, a, b)[j] == m[j - 1]);
                if exists|i: int| 0 <= i < w.skip(2).len() && #[trigger] w.skip(2)[i] == m[j - 1] {
                    let i = choose|i: int|
                        0 <= i < w.skip(2).len() && #[trigger] w.skip(2)[i] == m[j - 1];
                    assert(w[i + 2] == m[j - 1]);
                }
            }
        }
    } else if w.len() >= 1 {
        lemma_merge_word_members(w.skip(1), a, b);
        assert forall|j: int|
            0 <= j < merge_word(w, a, b).len() implies (exists|i: int|
            0 <= i < w.len() && w[i] == #[trigger] merge_word(w, a, b)[j]) || merge_word(w, a, b)[j]
            == a + b by {
            if j >= 1 {
                let m = merge_word(w.skip(1), a, b);
                assert(merge_word(w, a, b)[j] == m[j - 1]);
                if exists|i: int| 0 <= i < w.skip(1).len() && #[trigger] w.skip(1)[i] == m[j - 1] {
                    let i = choose|i: int|
                        0 <= i < w.skip(1).len() && #[trigger] w.skip(1)[i] == m[j - 1];
                    assert(w[i + 1] == m[j - 1]);
                }
            }
        }
    }
}

/// The starting symbols of a chunk: one one-character symbol per UTF-8 byte.
pub fn chunk_to_symbols(chunk: &str) -> (r: Vec<String>)
    ensures
        r.deep_view() == chunk_syms(chunk@),
{
    let bytes = chunk.as_bytes();
    let n = bytes.len();
    let mut out: Vec<String> = Vec::new();
    let mut i: usize = 0;
    while i < n
        invariant
            i <= n,
            n == encode_utf8(chunk@).len(),
            bytes@ == encode_utf8(chunk@),
            out.deep_view().len() == i,
            forall|j: int| 0 <= j < i ==> out.deep_view()[j] == chunk_syms(chunk@)[j],
        decreases n - i,
    {
        let ghost prev = out.deep_view();
        let c = crate::byte_encoder::encode_byte(bytes[i]);
        out.push(crate::text::char_to_string(c));
        proof {
            assert forall|j: int| 0 <= j < i + 1 implies out.deep_view()[j] == chunk_syms(
                chunk@,
            )[j] by {
                if j < i {
                    assert(out.deep_view()[j] == prev[j]);
                } else {
                    assert(out.deep_view()[j] == out@[j]@);
                    assert(chunk_syms(chunk@)[j] == sym_of_byte(encode_utf8(chunk@)[j]));
                }
            }
        }
        i = i + 1;
    }
    proof {
        assert(out.deep_view() =~= chunk_syms(chunk@));
    }
    out
}

/// Whether two strings hold the same characters.
pub fn string_eq(x: &String, y: &String) -> (r: bool)
    ensures
        r == (x@ == y@),
{
    x.eq(y)
}

/// One merging pass over a word held as a vector of symbol strings.
pub fn merge_symbols(w: &Vec<String>, first: &String, second: &String, merged: &String) -> (r: Vec<
    String,
>)
    requires
        merged@ == first@ + second@,
    ensures
        r.deep_view() == merge_word(w.deep_view(), first@, second@),
{
    let ghost dv = w.deep_view();
    let ghost a = first@;
    let ghost b = second@;
    let n = w.len();
    let mut out: Vec<String> = Vec::new();
    let mut i: usize = 0;
    proof {
        assert(dv.skip(0) =~= dv);
        assert(out.deep_view() + merge_word(dv, a, b) =~= merge_word(dv, a, b));
    }
    while i < n
        invariant
            i <= n,
            n == w@.len(),
            dv == w.deep_view(),
            a == first@,
            b == second@,
            merged@ == a + b,
            out.deep_view() + merge_word(dv.skip(i as int), a, b) == merge_word(dv, a, b),
        decreases n - i,
    {
        proof {
            assert(dv[i as int] == w@[i as int]@);
        }
        if i + 1 < n && string_eq(&w[i], first) && string_eq(&w[i + 1], second) {
            out.push(merged.clone());
            proof {
                assert(dv.skip(i as int)[0] == a);
                assert(dv.skip(i as int)[1] == b);
                assert(dv.skip(i as int).skip(2) =~= dv.skip(i + 2));
                assert(out.deep_view() + merge_word(dv.skip(i + 2), a, b) =~= merge_word(
                    dv,
                    a,
                    b,
                ));
            }
            i = i + 2;
        } else {
            out.push(w[i].clone());
            proof {
                assert(dv.skip(i as int)[0] == dv[i as int]);
                assert(dv.skip(i as int).skip(1) =~= dv.skip(i + 1));
                assert(out.deep_view() + merge_word(dv.skip(i + 1), a, b) =~= merge_word(
                    dv,
                    a,
                    b,
                ));
            }
            i = i + 1;
        }
    }
    proof {
        assert(dv.skip(n as int) =~= Seq::<Seq<char>>::empty());
        assert(out.deep_view() =~= out.deep_view() + merge_word(dv.skip(n as int), a, b));
    }
    out
}

/// The symbols of a single word in the word-mark style: one symbol per
/// character, closed by the end-of-word mark `</w>`.  Words holding a space
/// are rejected.
pub fn word_to_symbols(word: &str) -> (r: Result<Vec<String>, String>)
    ensures
        r is Err <==> word@.contains(' '),
        r matches Ok(v) ==> {
            &&& v.deep_view().len() == word@.len() + 1
            &&& forall|j: int| 0 <= j < word@.len() ==> v.deep_view()[j] =~= seq![word@[j]]
            &&& v.deep_view()[word@.len() as int] == "</w>"@
        },
{
    let chars = str_to_chars(word);
    let n = chars.len();
    let mut i: usize = 0;
    while i < n
        invariant
            i <= n,
            n == chars@.len(),
            chars@ == word@,
            forall|j: int| 0 <= j < i ==> word@[j] != ' ',
        decreases n - i,
    {
        if chars[i] == ' ' {
            let mut msg = String::from_str("Input contains multiple words: '");
            msg.append(word);
            msg.append("'");
            proof {
                assert(word@.contains(' '));
            }
            return Err(msg);
        }
        i = i + 1;
    }
    let mut out: Vec<String> = Vec::new();
    let mut k: usize = 0;
    while k < n
        invariant
            k <= n,
            n == chars@.len(),
            chars@ == word@,
            out.deep_view().len() == k,
            forall|j: int| 0 <= j < k ==> out.deep_view()[j] =~= seq![word@[j]],
        decreases n - k,
    {
        let ghost prev = out.deep_view();
        out.push(char_to_string(chars[k]));
        proof {
            assert forall|j: int| 0 <= j < k + 1 implies out.deep_view()[j] =~= seq![
                word@[j],
            ] by {
                if j < k {
                    assert(prev[j] =~= seq![word@[j]]);
                    assert(out.deep_view()[j] == prev[j]);
                } else {
                    assert(out.deep_view()[j] == out@[j]@);
                }
            }
        }
        k = k + 1;
    }
    let ghost prev = out.deep_view();
    out.push(String::from_str("</w>"));
    proof {
        assert(!word@.contains(' '));
        assert(out.deep_view().len() == word@.len() + 1);
        assert forall|j: int| 0 <= j < word@.len() implies out.deep_view()[j] =~= seq![
            word@[j],
        ] by {
            assert(prev[j] =~= seq![word@[j]]);
            assert(out.deep_view()[j] == prev[j]);
        }
        assert(out.deep_view()[word@.len() as int] == out@[word@.len() as int]@);
    }
    Ok(out)
}

} // verus!
