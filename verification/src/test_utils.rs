//! Small conveniences for building inputs by hand.

use vstd::prelude::*;
use vstd::string::StringExecFns;

verus! {

/// Owned merge rules from borrowed string pairs.
pub fn to_merges(pairs: &[(&str, &str)]) -> (r: Vec<(String, String)>)
    ensures
        r.deep_view() == pairs.deep_view(),
{
    let n = pairs.len();
    let mut out: Vec<(String, String)> = Vec::new();
    let mut i: usize = 0;
    while i < n
        invariant
            i <= n,
            n == pairs@.len(),
            out.deep_view().len() == i,
            forall|j: int| 0 <= j < i ==> out.deep_view()[j] == pairs.deep_view()[j],
        decreases n - i,
    {
        let p = pairs[i];
        let ghost prev = out.deep_view();
        out.push((String::from_str(p.0), String::from_str(p.1)));
        proof {
            assert forall|j: int| 0 <= j < i + 1 implies out.deep_view()[j] == pairs.deep_view(
            )[j] by {
                if j < i {
                    assert(out.deep_view()[j] == prev[j]);
                } else {
                    assert(out.deep_view()[j] == (out@[j].0@, out@[j].1@));
                    assert(pairs.deep_view()[j] == (pairs@[j].0@, pairs@[j].1@));
                }
            }
        }
        i = i + 1;
    }
    proof {
        assert(out.deep_view() =~= pairs.deep_view());
    }
    out
}

} // verus!
