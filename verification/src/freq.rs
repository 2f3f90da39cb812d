//! Association tables with integer counts, the training-time bookkeeping
//! structure.
//!
//! A table is a sequence of key/count entries with pairwise-distinct keys
//! kept in first-insertion order.  Adding to a key bumps the existing entry
//! or appends a new one at the end.

use vstd::prelude::*;

verus! {

/// The index of the entry holding `key`, or -1 when no entry does.
pub open spec fn assoc_index<K>(tbl: Seq<(K, int)>, key: K) -> int
    decreases tbl.len(),
{
    if tbl.len() == 0 {
        -1
    } else if tbl[0].0 == key {
        0
    } else {
        let r = assoc_index(tbl.drop_first(), key);
        if r < 0 {
            -1
        } else {
            r + 1
        }
    }
}

/// The table after adding `c` to `key`'s count, appending a fresh entry when
/// the key is new.
pub open spec fn assoc_add<K>(tbl: Seq<(K, int)>, key: K, c: int) -> Seq<(K, int)> {
    let i = assoc_index(tbl, key);
    if i < 0 {
        tbl.push((key, c))
    } else {
        tbl.update(i, (key, tbl[i].1 + c))
    }
}

/// The sum of all counts in the table.
pub open spec fn assoc_total<K>(tbl: Seq<(K, int)>) -> int
    decreases tbl.len(),
{
    if tbl.len() == 0 {
        0
    } else {
        assoc_total(tbl.drop_last()) + tbl.last().1
    }
}

/// Whether every count in the table is at least `lo`.
pub open spec fn counts_at_least<K>(tbl: Seq<(K, int)>, lo: int) -> bool {
    forall|j: int| 0 <= j < tbl.len() ==> (#[trigger] tbl[j]).1 >= lo
}

/// What `assoc_index` finds: the first entry with the key, or nothing
/// anywhere in the table.
pub proof fn lemma_assoc_index_spec<K>(tbl: Seq<(K, int)>, key: K)
    ensures
        assoc_index(tbl, key) >= 0 ==> {
            &&& assoc_index(tbl, key) < tbl.len()
            &&& tbl[assoc_index(tbl, key)].0 == key
            &&& forall|j: int| 0 <= j < assoc_index(tbl, key) ==> (#[trigger] tbl[j]).0 != key
        },
        assoc_index(tbl, key) < 0 ==> forall|j: int|
            0 <= j < tbl.len() ==> (#[trigger] tbl[j]).0 != key,
    decreases tbl.len(),
{
    if tbl.len() > 0 && tbl[0].0 != key {
        lemma_assoc_index_spec(tbl.drop_first(), key);
        assert forall|j: int| 1 <= j < tbl.len() implies tbl.drop_first()[j - 1] == tbl[j] by {}
    }
}

/// Totals are non-negative over non-negative counts.
pub proof fn lemma_assoc_total_nonneg<K>(tbl: Seq<(K, int)>)
    requires
        counts_at_least(tbl, 0),
    ensures
        assoc_total(tbl) >= 0,
    decreases tbl.len(),
{
    if tbl.len() > 0 {
        assert(counts_at_least(tbl.drop_last(), 0)) by {
            assert forall|j: int| 0 <= j < tbl.len() - 1 implies (#[trigger] tbl.drop_last()[j]).1
                >= 0 by {
                assert(tbl.drop_last()[j] == tbl[j]);
            }
        }
        lemma_assoc_total_nonneg(tbl.drop_last());
    }
}

/// No entry's count exceeds the total, over non-negative counts.
pub proof fn lemma_assoc_entry_le_total<K>(tbl: Seq<(K, int)>, i: int)
    requires
        counts_at_least(tbl, 0),
        0 <= i < tbl.len(),
    ensures
        tbl[i].1 <= assoc_total(tbl),
    decreases tbl.len(),
{
    assert(counts_at_least(tbl.drop_last(), 0)) by {
        assert forall|j: int| 0 <= j < tbl.len() - 1 implies (#[trigger] tbl.drop_last()[j]).1
            >= 0 by {
            assert(tbl.drop_last()[j] == tbl[j]);
        }
    }
    if i == tbl.len() - 1 {
        lemma_assoc_total_nonneg(tbl.drop_last());
    } else {
        lemma_assoc_entry_le_total(tbl.drop_last(), i);
        assert(tbl.drop_last()[i] == tbl[i]);
    }
}

/// Adding `c` to a key raises the total by exactly `c`.
pub proof fn lemma_assoc_add_total<K>(tbl: Seq<(K, int)>, key: K, c: int)
    ensures
        assoc_total(assoc_add(tbl, key, c)) == assoc_total(tbl) + c,
    decreases tbl.len(),
{
    let i = assoc_index(tbl, key);
    lemma_assoc_index_spec(tbl, key);
    if i < 0 {
        assert(tbl.push((key, c)).drop_last() =~= tbl);
    } else {
        let upd = tbl.update(i, (key, tbl[i].1 + c));
        if i == tbl.len() - 1 {
            assert(upd.drop_last() =~= tbl.drop_last());
        } else {
            assert(upd.drop_last() =~= tbl.drop_last().update(i, (key, tbl[i].1 + c)));
            assert(tbl.drop_last()[i] == tbl[i]);
            assert(assoc_index(tbl.drop_last(), key) == i) by {
                lemma_assoc_index_spec(tbl.drop_last(), key);
                lemma_assoc_index_unique(tbl.drop_last(), key, i);
            }
            assert(assoc_add(tbl.drop_last(), key, c) == upd.drop_last());
            lemma_assoc_add_total(tbl.drop_last(), key, c);
            assert(upd.last() == tbl.last());
        }
    }
}

/// A prefix of a table totals no more than the whole table, over
/// non-negative counts.
pub proof fn lemma_assoc_total_take_le<K>(tbl: Seq<(K, int)>, n: int)
    requires
        counts_at_least(tbl, 0),
        0 <= n <= tbl.len(),
    ensures
        assoc_total(tbl.take(n)) <= assoc_total(tbl),
    decreases tbl.len() - n,
{
    if n == tbl.len() {
        assert(tbl.take(n) =~= tbl);
    } else {
        lemma_assoc_total_take_le(tbl, n + 1);
        assert(tbl.take(n + 1).drop_last() =~= tbl.take(n));
        assert(tbl.take(n + 1).last() == tbl[n]);
    }
}

/// A position holding the key, with no earlier one, is what `assoc_index`
/// returns.
pub proof fn lemma_assoc_index_unique<K>(tbl: Seq<(K, int)>, key: K, i: int)
    requires
        0 <= i < tbl.len(),
        tbl[i].0 == key,
        forall|j: int| 0 <= j < i ==> (#[trigger] tbl[j]).0 != key,
    ensures
        assoc_index(tbl, key) == i,
    decreases tbl.len(),
{
    if i > 0 {
        assert(tbl[0].0 != key);
        assert forall|j: int| 0 <= j < i - 1 implies (#[trigger] tbl.drop_first()[j]).0 != key by {
            assert(tbl.drop_first()[j] == tbl[j + 1]);
        }
        assert(tbl.drop_first()[i - 1] == tbl[i]);
        lemma_assoc_index_unique(tbl.drop_first(), key, i - 1);
    }
}

/// Adding a non-negative amount keeps every count at least `lo` at or above
/// `min(lo, c)`.
pub proof fn lemma_assoc_add_counts<K>(tbl: Seq<(K, int)>, key: K, c: int, lo: int)
    requires
        counts_at_least(tbl, lo),
        c >= lo,
        c >= 0,
    ensures
        counts_at_least(assoc_add(tbl, key, c), lo),
    decreases tbl.len(),
{
    let i = assoc_index(tbl, key);
    lemma_assoc_index_spec(tbl, key);
    let r = assoc_add(tbl, key, c);
    if i < 0 {
        assert forall|j: int| 0 <= j < r.len() implies (#[trigger] r[j]).1 >= lo by {
            if j < tbl.len() {
                assert(r[j] == tbl[j]);
            }
        }
    } else {
        assert forall|j: int| 0 <= j < r.len() implies (#[trigger] r[j]).1 >= lo by {
            if j != i {
                assert(r[j] == tbl[j]);
            }
        }
    }
}

} // verus!
