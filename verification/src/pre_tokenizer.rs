//! Splits text into boundary-respecting chunks before any merging.
//!
//! The matching policy, applied at each position in priority order, is the
//! GPT-2 one: an English contraction (`'s 't 're 've 'm 'll 'd`), a run of
//! letters with an optional single leading space, a run of digits with an
//! optional single leading space, a run of other characters (neither space,
//! letter nor digit) with an optional single leading space, and finally a
//! bare run of whitespace.  Every character lands in exactly one chunk, so
//! the chunks concatenate back to the input text.

use crate::text::chars_to_string;
use crate::text::str_to_chars;
use vstd::prelude::*;

verus! {

/// Whether `c` is a Unicode letter, as `char::is_alphabetic` decides it.
pub uninterp spec fn letter_char(c: char) -> bool;

/// Whether `c` is a Unicode numeric character, as `char::is_numeric` decides it.
pub uninterp spec fn digit_char(c: char) -> bool;

/// Whether `c` is Unicode whitespace, as `char::is_whitespace` decides it.
pub uninterp spec fn space_char(c: char) -> bool;

/// Characters in the residual class: neither whitespace, letter nor digit.
pub open spec fn other_char(c: char) -> bool {
    !space_char(c) && !letter_char(c) && !digit_char(c)
}

/// Relies on char::is_alphabetic: membership in the Unicode letter
/// categories, a function of the character alone.
#[verifier::external_body]
fn is_letter(c: char) -> (r: bool)
    ensures
        r == letter_char(c),
{
    c.is_alphabetic()
}

/// Relies on char::is_numeric: membership in the Unicode numeric categories,
/// a function of the character alone.
#[verifier::external_body]
fn is_digit(c: char) -> (r: bool)
    ensures
        r == digit_char(c),
{
    c.is_numeric()
}

/// Relies on char::is_whitespace: the Unicode white-space property, a
/// function of the character alone.
#[verifier::external_body]
fn is_space(c: char) -> (r: bool)
    ensures
        r == space_char(c),
{
    c.is_whitespace()
}

/// The four character classes whose maximal runs form chunks.
#[derive(Clone, Copy)]
pub enum RunKind {
    Letter,
    Digit,
    Other,
    Space,
}

/// Whether `c` belongs to class `k`.
pub open spec fn in_class(k: RunKind, c: char) -> bool {
    match k {
        RunKind::Letter => letter_char(c),
        RunKind::Digit => digit_char(c),
        RunKind::Other => other_char(c),
        RunKind::Space => space_char(c),
    }
}

/// Length of the maximal run of class `k` starting at position `i`.
pub open spec fn run_len(s: Seq<char>, i: int, k: RunKind) -> int
    decreases s.len() - i,
{
    if 0 <= i < s.len() && in_class(k, s[i]) {
        1 + run_len(s, i + 1, k)
    } else {
        0
    }
}

/// Length of the contraction starting at position `i`, or 0 when none of
/// `'s 't 're 've 'm 'll 'd` starts there.
pub open spec fn contraction_len(s: Seq<char>, i: int) -> int {
    if 0 <= i < s.len() && s[i] == '\'' {
        if i + 1 < s.len() && (s[i + 1] == 's' || s[i + 1] == 't' || s[i + 1] == 'm' || s[i + 1]
            == 'd') {
            2
        } else if i + 2 < s.len() && ((s[i + 1] == 'r' && s[i + 2] == 'e') || (s[i + 1] == 'v' && s[
            i + 2] == 'e') || (s[i + 1] == 'l' && s[i + 2] == 'l')) {
            3
        } else {
            0
        }
    } else {
        0
    }
}

/// Length of the chunk starting at position `i`: the first alternative of
/// the matching policy that applies there.
pub open spec fn chunk_len(s: Seq<char>, i: int) -> int
    recommends
        0 <= i < s.len(),
{
    let cl = contraction_len(s, i);
    if cl > 0 {
        cl
    } else if letter_char(s[i]) {
        run_len(s, i, RunKind::Letter)
    } else if s[i] == ' ' && i + 1 < s.len() && letter_char(s[i + 1]) {
        1 + run_len(s, i + 1, RunKind::Letter)
    } else if digit_char(s[i]) {
        run_len(s, i, RunKind::Digit)
    } else if s[i] == ' ' && i + 1 < s.len() && digit_char(s[i + 1]) {
        1 + run_len(s, i + 1, RunKind::Digit)
    } else if other_char(s[i]) {
        run_len(s, i, RunKind::Other)
    } else if s[i] == ' ' && i + 1 < s.len() && other_char(s[i + 1]) {
        1 + run_len(s, i + 1, RunKind::Other)
    } else {
        run_len(s, i, RunKind::Space)
    }
}

/// A maximal run neither is empty at a position of its own class nor runs
/// past the end of the text.
pub proof fn lemma_run_len_bounds(s: Seq<char>, i: int, k: RunKind)
    requires
        0 <= i <= s.len(),
    ensures
        0 <= run_len(s, i, k) <= s.len() - i,
        i < s.len() && in_class(k, s[i]) ==> run_len(s, i, k) >= 1,
    decreases s.len() - i,
{
    if i < s.len() && in_class(k, s[i]) {
        lemma_run_len_bounds(s, i + 1, k);
    }
}

/// Every position starts a chunk of at least one character, and no chunk
/// runs past the end of the text.
pub proof fn lemma_chunk_len_bounds(s: Seq<char>, i: int)
    requires
        0 <= i < s.len(),
    ensures
        1 <= chunk_len(s, i) <= s.len() - i,
{
    lemma_run_len_bounds(s, i, RunKind::Letter);
    lemma_run_len_bounds(s, i, RunKind::Digit);
    lemma_run_len_bounds(s, i, RunKind::Other);
    lemma_run_len_bounds(s, i, RunKind::Space);
    if i + 1 < s.len() {
        lemma_run_len_bounds(s, i + 1, RunKind::Letter);
        lemma_run_len_bounds(s, i + 1, RunKind::Digit);
        lemma_run_len_bounds(s, i + 1, RunKind::Other);
    }
}

/// The chunks of `s` from position `i` on.
pub open spec fn segment_from(s: Seq<char>, i: int) -> Seq<Seq<char>>
    decreases s.len() - i,
        when 0 <= i <= s.len() via segment_from_decreases
{
    if i < s.len() {
        seq![s.subrange(i, i + chunk_len(s, i))] + segment_from(s, i + chunk_len(s, i))
    } else {
        seq![]
    }
}

#[via_fn]
proof fn segment_from_decreases(s: Seq<char>, i: int) {
    if 0 <= i < s.len() {
        lemma_chunk_len_bounds(s, i);
    }
}

/// The ordered chunks of `s` under the matching policy.
pub open spec fn segment(s: Seq<char>) -> Seq<Seq<char>> {
    segment_from(s, 0)
}

/// The chunks from position `i` on concatenate to the text from `i` on, each
/// chunk is non-empty, and there are at most as many chunks as characters.
pub proof fn lemma_segment_from_props(s: Seq<char>, i: int)
    requires
        0 <= i <= s.len(),
    ensures
        segment_from(s, i).flatten() == s.subrange(i, s.len() as int),
        segment_from(s, i).len() <= s.len() - i,
        forall|j: int|
            0 <= j < segment_from(s, i).len() ==> #[trigger] segment_from(s, i)[j].len() >= 1,
    decreases s.len() - i,
{
    if i < s.len() {
        lemma_chunk_len_bounds(s, i);
        let l = chunk_len(s, i);
        let chunk = s.subrange(i, i + l);
        let rest = segment_from(s, i + l);
        lemma_segment_from_props(s, i + l);
        assert((seq![chunk] + rest).drop_first() =~= rest);
        assert(segment_from(s, i).flatten() =~= s.subrange(i, s.len() as int));
    } else {
        assert(segment_from(s, i).flatten() =~= s.subrange(i, s.len() as int));
    }
}

/// Partition losslessness: concatenating the chunks of any text reproduces
/// the text exactly, and every chunk is non-empty.
pub proof fn lemma_partition_lossless(s: Seq<char>)
    ensures
        segment(s).flatten() == s,
        forall|j: int| 0 <= j < segment(s).len() ==> #[trigger] segment(s)[j].len() >= 1,
{
    lemma_segment_from_props(s, 0);
    assert(s.subrange(0, s.len() as int) =~= s);
}

/// Whether `c` belongs to class `k`, decided by the character predicates.
fn class_check(c: char, k: RunKind) -> (r: bool)
    ensures
        r == in_class(k, c),
{
    match k {
        RunKind::Letter => is_letter(c),
        RunKind::Digit => is_digit(c),
        RunKind::Other => !is_space(c) && !is_letter(c) && !is_digit(c),
        RunKind::Space => is_space(c),
    }
}

/// Scans the maximal run of class `k` starting at `start`.
fn run_end(chars: &Vec<char>, start: usize, k: RunKind) -> (e: usize)
    requires
        start <= chars@.len(),
    ensures
        e as int == start + run_len(chars@, start as int, k),
        start <= e <= chars@.len(),
{
    proof {
        lemma_run_len_bounds(chars@, start as int, k);
    }
    let mut j = start;
    loop
        invariant
            start <= j <= chars@.len(),
            run_len(chars@, start as int, k) == (j - start) + run_len(chars@, j as int, k),
            run_len(chars@, start as int, k) <= chars@.len() - start,
        ensures
            j == chars@.len() || !in_class(k, chars@[j as int]),
        decreases chars@.len() - j,
    {
        if j == chars.len() {
            break ;
        }
        if !class_check(chars[j], k) {
            break ;
        }
        proof {
            lemma_run_len_bounds(chars@, j + 1, k);
        }
        j = j + 1;
    }
    j
}

/// The contraction length at position `i`, or 0.
fn contraction_check(chars: &Vec<char>, i: usize) -> (l: usize)
    requires
        i < chars@.len(),
    ensures
        l as int == contraction_len(chars@, i as int),
{
    let n = chars.len();
    if chars[i] != '\'' {
        return 0;
    }
    if i + 1 < n {
        let c1 = chars[i + 1];
        if c1 == 's' || c1 == 't' || c1 == 'm' || c1 == 'd' {
            return 2;
        }
        if i + 2 < n {
            let c2 = chars[i + 2];
            if (c1 == 'r' && c2 == 'e') || (c1 == 'v' && c2 == 'e') || (c1 == 'l' && c2 == 'l') {
                return 3;
            }
        }
    }
    0
}

/// The chunk length at position `i`: the first alternative that applies.
fn chunk_scan(chars: &Vec<char>, i: usize) -> (l: usize)
    requires
        i < chars@.len(),
    ensures
        l as int == chunk_len(chars@, i as int),
        1 <= l <= chars@.len() - i,
{
    proof {
        lemma_chunk_len_bounds(chars@, i as int);
    }
    let n = chars.len();
    let cl = contraction_check(chars, i);
    if cl > 0 {
        return cl;
    }
    let c = chars[i];
    if is_letter(c) {
        return run_end(chars, i, RunKind::Letter) - i;
    }
    if c == ' ' && i + 1 < n && is_letter(chars[i + 1]) {
        return 1 + (run_end(chars, i + 1, RunKind::Letter) - (i + 1));
    }
    if is_digit(c) {
        return run_end(chars, i, RunKind::Digit) - i;
    }
    if c == ' ' && i + 1 < n && is_digit(chars[i + 1]) {
        return 1 + (run_end(chars, i + 1, RunKind::Digit) - (i + 1));
    }
    if !is_space(c) && !is_letter(c) && !is_digit(c) {
        return run_end(chars, i, RunKind::Other) - i;
    }
    if c == ' ' && i + 1 < n {
        let c1 = chars[i + 1];
        if !is_space(c1) && !is_letter(c1) && !is_digit(c1) {
            return 1 + (run_end(chars, i + 1, RunKind::Other) - (i + 1));
        }
    }
    run_end(chars, i, RunKind::Space) - i
}

/// Splits text into chunks whose concatenation reproduces the input.
pub struct PreTokenizer {}

impl Default for PreTokenizer {
    fn default() -> (r: Self)
        ensures
            r == (PreTokenizer {  }),
    {
        Self::new()
    }
}

impl PreTokenizer {
    /// A pre-tokenizer for the fixed matching policy above.
    pub fn new() -> (r: Self)
        ensures
            r == (PreTokenizer {  }),
    {
        PreTokenizer {  }
    }

    /// Splits `text` into its ordered chunks; any text partitions, possibly
    /// into zero chunks.
    pub fn pre_tokenize(&self, text: &str) -> (r: Vec<String>)
        ensures
            r.deep_view() == segment(text@),
            r.deep_view().flatten() == text@,
    {
        let chars = str_to_chars(text);
        let mut out: Vec<String> = Vec::new();
        let mut i: usize = 0;
        while i < chars.len()
            invariant
                i <= chars@.len(),
                chars@ == text@,
                out.deep_view() + segment_from(text@, i as int) == segment(text@),
            decreases chars@.len() - i,
        {
            let l = chunk_scan(&chars, i);
            let end = i + l;
            let mut piece: Vec<char> = Vec::new();
            let mut j = i;
            while j < end
                invariant
                    i <= j <= end,
                    end == i + l,
                    end <= chars@.len(),
                    piece@ == chars@.subrange(i as int, j as int),
                decreases end - j,
            {
                piece.push(chars[j]);
                proof {
                    assert(piece@ =~= chars@.subrange(i as int, j + 1));
                }
                j = j + 1;
            }
            let chunk = chars_to_string(&piece);
            out.push(chunk);
            proof {
                assert(out.deep_view() + segment_from(text@, i + l) =~= segment(text@));
            }
            i = i + l;
        }
        proof {
            assert(out.deep_view() =~= out.deep_view() + segment_from(text@, i as int));
            lemma_partition_lossless(text@);
        }
        out
    }
}

} // verus!
