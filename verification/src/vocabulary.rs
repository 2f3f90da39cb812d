//! The bidirectional table between token strings and dense integer ids.
//!
//! Ids are assigned in construction order: the caller's special tokens first,
//! then the 256 base byte symbols in ascending code-point order, then one
//! token per merge rule, bound to the concatenation of the rule's two
//! operands.  The table is immutable once built; lookups are the only
//! operations.

use crate::byte_encoder::byte_char;
use crate::byte_encoder::byte_code;
use crate::byte_encoder::encode_byte;
use crate::symbols::string_eq;
use crate::text::char_to_string;
use crate::text::concat_strings;
use vstd::prelude::*;
use vstd::string::StringExecFns;

verus! {

/// The code point of the `k`-th base token: the `k`-th smallest value among
/// the 256 codec code points.
pub open spec fn base_token_code(k: int) -> u32 {
    if k < 94 {
        (33 + k) as u32
    } else if k < 106 {
        (161 + (k - 94)) as u32
    } else if k < 188 {
        (174 + (k - 106)) as u32
    } else {
        (256 + (k - 188)) as u32
    }
}

/// The byte whose codec code point is `base_token_code(k)`.
pub open spec fn base_byte(k: int) -> u8 {
    if k < 94 {
        (33 + k) as u8
    } else if k < 106 {
        (161 + (k - 94)) as u8
    } else if k < 188 {
        (174 + (k - 106)) as u8
    } else if k < 221 {
        (k - 188) as u8
    } else if k < 255 {
        (94 + (k - 188)) as u8
    } else {
        173u8
    }
}

/// The position of byte `b`'s code point in the ascending order of all 256
/// codec code points.
pub open spec fn byte_rank(b: u8) -> int {
    let u = byte_code(b);
    if u <= 126 {
        u - 33
    } else if u <= 172 {
        94 + (u - 161)
    } else if u <= 255 {
        106 + (u - 174)
    } else {
        188 + (u - 256)
    }
}

/// The `k`-th base token: a one-character string.
pub open spec fn base_token(k: int) -> Seq<char> {
    seq![base_token_code(k) as char]
}

/// Base tokens enumerate exactly the codec characters: position `k` carries
/// the byte `base_byte(k)`, and byte `b` sits at position `byte_rank(b)`.
pub proof fn lemma_base_tokens(k: int, b: u8)
    ensures
        0 <= k < 256 ==> byte_code(base_byte(k)) == base_token_code(k),
        0 <= k < 256 ==> base_token(k) == seq![byte_char(base_byte(k))],
        0 <= byte_rank(b) < 256,
        base_byte(byte_rank(b)) == b,
        base_token_code(byte_rank(b)) == byte_code(b),
{
}

/// The 256 base tokens in id order.
pub open spec fn base_tokens() -> Seq<Seq<char>> {
    Seq::new(256, |k: int| base_token(k))
}

/// The byte whose codec code point is the `k`-th smallest.
pub fn base_byte_exec(k: usize) -> (b: u8)
    requires
        k < 256,
    ensures
        b == base_byte(k as int),
{
    if k < 94 {
        (33 + k) as u8
    } else if k < 106 {
        (161 + (k - 94)) as u8
    } else if k < 188 {
        (174 + (k - 106)) as u8
    } else if k < 221 {
        (k - 188) as u8
    } else if k < 255 {
        (94 + (k - 188)) as u8
    } else {
        173u8
    }
}

/// The full token table built from special tokens and merge rules: specials
/// first, then the 256 base tokens, then one concatenation per merge rule.
pub open spec fn vocab_tokens(
    specials: Seq<Seq<char>>,
    merges: Seq<(Seq<char>, Seq<char>)>,
) -> Seq<Seq<char>> {
    specials + base_tokens() + merges.map_values(|m: (Seq<char>, Seq<char>)| m.0 + m.1)
}

/// The table has one id per special token, base token and merge rule, dense
/// from 0 with no gaps.
pub proof fn lemma_vocab_size(specials: Seq<Seq<char>>, merges: Seq<(Seq<char>, Seq<char>)>)
    ensures
        vocab_tokens(specials, merges).len() == specials.len() + 256 + merges.len(),
{
}

/// The bidirectional, immutable token table.
pub struct Vocabulary {
    id_to_token: Vec<String>,
}

impl Clone for Vocabulary {
    /// An exact copy: the clone holds the same token table.
    fn clone(&self) -> (r: Self)
        ensures
            r@ == self@,
    {
        proof {
            use_type_invariant(self);
        }
        let n = self.id_to_token.len();
        let mut toks: Vec<String> = Vec::new();
        let mut i: usize = 0;
        while i < n
            invariant
                i <= n,
                n == self.id_to_token@.len(),
                toks.deep_view().len() == i,
                forall|j: int|
                    0 <= j < i ==> toks.deep_view()[j] == self.id_to_token.deep_view()[j],
            decreases n - i,
        {
            let ghost prev = toks.deep_view();
            toks.push(self.id_to_token[i].clone());
            proof {
                assert forall|j: int| 0 <= j < i + 1 implies toks.deep_view()[j]
                    == self.id_to_token.deep_view()[j] by {
                    if j < i {
                        assert(toks.deep_view()[j] == prev[j]);
                    } else {
                        assert(toks.deep_view()[j] == toks@[j]@);
                    }
                }
            }
            i = i + 1;
        }
        let r = Vocabulary { id_to_token: toks };
        proof {
            assert(r@ =~= self@);
        }
        r
    }
}

impl View for Vocabulary {
    type V = Seq<Seq<char>>;

    closed spec fn view(&self) -> Seq<Seq<char>> {
        self.id_to_token.deep_view()
    }
}

#[verifier::type_invariant]
spec fn vocab_wf(v: &Vocabulary) -> bool {
    v.id_to_token@.len() <= u32::MAX
}

impl Vocabulary {
    /// Builds the table from special tokens and merge rules, in construction
    /// order.
    pub fn new(special_tokens: Vec<String>, merges: Vec<(String, String)>) -> (r: Self)
        requires
            special_tokens@.len() + 256 + merges@.len() <= u32::MAX,
        ensures
            r@ == vocab_tokens(special_tokens.deep_view(), merges.deep_view()),
    {
        let ghost sv = special_tokens.deep_view();
        let ghost mv = merges.deep_view();
        let ghost table = vocab_tokens(sv, mv);
        let mut toks: Vec<String> = Vec::new();
        let ns = special_tokens.len();
        let mut i: usize = 0;
        while i < ns
            invariant
                i <= ns,
                ns == special_tokens@.len(),
                sv == special_tokens.deep_view(),
                toks.deep_view().len() == i,
                forall|j: int| 0 <= j < i ==> toks.deep_view()[j] == sv[j],
            decreases ns - i,
        {
            let ghost prev = toks.deep_view();
            toks.push(special_tokens[i].clone());
            proof {
                assert forall|j: int| 0 <= j < i + 1 implies toks.deep_view()[j] == sv[j] by {
                    if j < i {
                        assert(toks.deep_view()[j] == prev[j]);
                    } else {
                        assert(toks.deep_view()[j] == toks@[j]@);
                        assert(sv[j] == special_tokens@[j]@);
                    }
                }
            }
            i = i + 1;
        }
        let mut k: usize = 0;
        while k < 256
            invariant
                k <= 256,
                ns == special_tokens@.len(),
                sv == special_tokens.deep_view(),
                toks.deep_view().len() == ns + k,
                forall|j: int| 0 <= j < ns ==> toks.deep_view()[j] == sv[j],
                forall|j: int| ns <= j < ns + k ==> toks.deep_view()[j] == base_token(j - ns),
            decreases 256 - k,
        {
            let b: u8 = base_byte_exec(k);
            proof {
                lemma_base_tokens(k as int, b);
                assert(b == base_byte(k as int));
            }
            let c = encode_byte(b);
            let ghost prev = toks.deep_view();
            toks.push(char_to_string(c));
            proof {
                assert forall|j: int| 0 <= j < ns + k + 1 implies toks.deep_view()[j] == (if j < ns {
                    sv[j]
                } else {
                    base_token(j - ns)
                }) by {
                    if j < ns + k {
                        assert(toks.deep_view()[j] == prev[j]);
                    } else {
                        assert(toks.deep_view()[j] == toks@[j]@);
                    }
                }
            }
            k = k + 1;
        }
        let nm = merges.len();
        let mut j: usize = 0;
        while j < nm
            invariant
                j <= nm,
                nm == merges@.len(),
                ns == special_tokens@.len(),
                sv == special_tokens.deep_view(),
                mv == merges.deep_view(),
                toks.deep_view().len() == ns + 256 + j,
                forall|l: int| 0 <= l < ns ==> toks.deep_view()[l] == sv[l],
                forall|l: int| ns <= l < ns + 256 ==> toks.deep_view()[l] == base_token(l - ns),
                forall|l: int|
                    ns + 256 <= l < ns + 256 + j ==> toks.deep_view()[l] == mv[l - ns - 256].0 + mv[
                        l - ns - 256].1,
            decreases nm - j,
        {
            let pair = &merges[j];
            let t = concat_strings(&pair.0, &pair.1);
            proof {
                assert(mv[j as int] == (merges@[j as int].0@, merges@[j as int].1@));
            }
            let ghost prev = toks.deep_view();
            toks.push(t);
            proof {
                assert forall|l: int| 0 <= l < ns + 256 + j + 1 implies toks.deep_view()[l] == (
                if l < ns {
                    sv[l]
                } else if l < ns + 256 {
                    base_token(l - ns)
                } else {
                    mv[l - ns - 256].0 + mv[l - ns - 256].1
                }) by {
                    if l < ns + 256 + j {
                        assert(toks.deep_view()[l] == prev[l]);
                    } else {
                        assert(toks.deep_view()[l] == toks@[l]@);
                    }
                }
            }
            j = j + 1;
        }
        let r = Vocabulary { id_to_token: toks };
        proof {
            assert(r@ =~= table);
        }
        r
    }

    /// The id bound to `token`: the smallest id whose string equals it, or
    /// `None` when the table holds no such string.
    pub fn token_to_id(&self, token: &str) -> (r: Option<u32>)
        ensures
            match r {
                Some(id) => id < self@.len() && self@[id as int] == token@ && forall|j: int|
                    0 <= j < id ==> self@[j] != token@,
                None => forall|j: int| 0 <= j < self@.len() ==> self@[j] != token@,
            },
    {
        proof {
            use_type_invariant(self);
        }
        let q = String::from_str(token);
        let n = self.id_to_token.len();
        let mut i: usize = 0;
        while i < n
            invariant
                i <= n,
                n == self.id_to_token@.len(),
                n <= u32::MAX,
                q@ == token@,
                self@ == self.id_to_token.deep_view(),
                forall|j: int| 0 <= j < i ==> self@[j] != token@,
            decreases n - i,
        {
            if string_eq(&self.id_to_token[i], &q) {
                return Some(i as u32);
            }
            i = i + 1;
        }
        None
    }

    /// The token string bound to `id`: present exactly when `id` is below the
    /// table's size.
    pub fn id_to_token(&self, id: u32) -> (r: Option<&str>)
        ensures
            r is Some <==> (id as int) < self@.len(),
            r matches Some(t) ==> t@ == self@[id as int],
    {
        if (id as usize) < self.id_to_token.len() {
            Some(self.id_to_token[id as usize].as_str())
        } else {
            None
        }
    }
}

} // verus!
