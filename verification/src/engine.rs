//! The mathematical model of a partition's contents.
//!
//! A partition is a sequence of key-value byte entries kept strictly
//! ascending in byte-lexicographic key order. Its map reading
//! (`entries_map`) is what the point-operation contracts speak of; the
//! sorted sequence itself is what range scans speak of. The lemmas here
//! connect the two across every mutation.

use vstd::prelude::*;

use crate::order::lemma_lex_irreflexive;
use crate::order::lemma_lex_transitive;
use crate::order::lex_le;
use crate::order::lex_lt;

verus! {

/// One entry: a key and a value, as byte strings.
pub type EntryV = (Seq<u8>, Seq<u8>);

/// The entry views of a vector of byte pairs.
pub open spec fn kvs(entries: Seq<(Vec<u8>, Vec<u8>)>) -> Seq<EntryV> {
    Seq::new(entries.len(), |i: int| (entries[i].0@, entries[i].1@))
}

/// Keys strictly ascend in byte-lexicographic order.
pub open spec fn sorted(s: Seq<EntryV>) -> bool {
    forall|i: int, j: int| 0 <= i < j < s.len() ==> lex_lt(s[i].0, s[j].0)
}

/// No key occurs twice.
pub open spec fn distinct_keys(s: Seq<EntryV>) -> bool {
    forall|i: int, j: int| 0 <= i < j < s.len() ==> s[i].0 != s[j].0
}

/// Some entry holds key `k`.
pub open spec fn has_key(s: Seq<EntryV>, k: Seq<u8>) -> bool {
    exists|i: int| 0 <= i < s.len() && s[i].0 == k
}

/// The position of the entry holding key `k`.
pub open spec fn index_of(s: Seq<EntryV>, k: Seq<u8>) -> int {
    choose|i: int| 0 <= i < s.len() && s[i].0 == k
}

/// The entries read as a map from key to value.
pub open spec fn entries_map(s: Seq<EntryV>) -> Map<Seq<u8>, Seq<u8>> {
    Map::new(|k: Seq<u8>| has_key(s, k), |k: Seq<u8>| s[index_of(s, k)].1)
}

/// `k` lies within an optional inclusive lower and exclusive upper bound.
pub open spec fn in_range(k: Seq<u8>, lo: Option<Seq<u8>>, hi: Option<Seq<u8>>) -> bool {
    (match lo {
        Some(l) => lex_le(l, k),
        None => true,
    }) && (match hi {
        Some(h) => lex_lt(k, h),
        None => true,
    })
}

/// The subsequence of entries whose key lies inside the bounds (`keep`
/// true) or outside them (`keep` false), in their original order.
pub open spec fn filtered(
    s: Seq<EntryV>,
    lo: Option<Seq<u8>>,
    hi: Option<Seq<u8>>,
    keep: bool,
) -> Seq<EntryV>
    decreases s.len(),
{
    if s.len() == 0 {
        Seq::empty()
    } else {
        let rest = filtered(s.drop_last(), lo, hi, keep);
        if in_range(s.last().0, lo, hi) == keep {
            rest.push(s.last())
        } else {
            rest
        }
    }
}

pub proof fn lemma_sorted_distinct(s: Seq<EntryV>)
    requires
        sorted(s),
    ensures
        distinct_keys(s),
{
    assert forall|i: int, j: int| 0 <= i < j < s.len() implies s[i].0 != s[j].0 by {
        if s[i].0 == s[j].0 {
            lemma_lex_irreflexive(s[i].0);
        }
    }
}

/// In a duplicate-free sequence, the map holds each entry at its key.
pub proof fn lemma_value_at(s: Seq<EntryV>, i: int)
    requires
        distinct_keys(s),
        0 <= i < s.len(),
    ensures
        has_key(s, s[i].0),
        entries_map(s).dom().contains(s[i].0),
        entries_map(s)[s[i].0] == s[i].1,
{
    assert(has_key(s, s[i].0)) by {
        assert(0 <= i < s.len() && s[i].0 == s[i].0);
    }
    let j = index_of(s, s[i].0);
    assert(0 <= j < s.len() && s[j].0 == s[i].0);
    if i != j {
        assert(false);
    }
}

/// After inserting a fresh entry at its sorted position, the sequence is
/// still sorted and its map reading gains exactly that entry.
pub proof fn lemma_content_insert(
    old_m: Seq<EntryV>,
    new_m: Seq<EntryV>,
    r: int,
    k: Seq<u8>,
    v: Seq<u8>,
)
    requires
        sorted(old_m),
        0 <= r <= old_m.len(),
        new_m.len() == old_m.len() + 1,
        forall|i: int| 0 <= i < r ==> new_m[i] == old_m[i],
        new_m[r] == (k, v),
        forall|i: int| r < i < new_m.len() ==> new_m[i] == old_m[i - 1],
        forall|j: int| 0 <= j < r ==> lex_lt(old_m[j].0, k),
        forall|j: int| r <= j < old_m.len() ==> lex_lt(k, old_m[j].0),
    ensures
        sorted(new_m),
        entries_map(new_m) == entries_map(old_m).insert(k, v),
{
    assert forall|i: int, j: int| 0 <= i < j < new_m.len() implies lex_lt(
        new_m[i].0,
        new_m[j].0,
    ) by {
        if i < r && j > r {
            lemma_lex_transitive(old_m[i].0, k, old_m[j - 1].0);
        }
    }
    lemma_sorted_distinct(old_m);
    lemma_sorted_distinct(new_m);
    let lhs = entries_map(new_m);
    let rhs = entries_map(old_m).insert(k, v);
    assert forall|q: Seq<u8>| lhs.dom().contains(q) implies rhs.dom().contains(q) && lhs[q]
        == rhs[q] by {
        let i = index_of(new_m, q);
        assert(0 <= i < new_m.len() && new_m[i].0 == q);
        lemma_value_at(new_m, i);
        if i == r {
            assert(q == k);
            assert(lhs[q] == v);
        } else {
            let j: int = if i < r {
                i
            } else {
                i - 1
            };
            assert(new_m[i] == old_m[j]);
            lemma_value_at(old_m, j);
            assert(q != k) by {
                if old_m[j].0 == k {
                    lemma_lex_irreflexive(k);
                }
            }
        }
    }
    assert forall|q: Seq<u8>| rhs.dom().contains(q) implies lhs.dom().contains(q) by {
        if q == k {
            lemma_value_at(new_m, r);
        } else {
            let j = index_of(old_m, q);
            assert(0 <= j < old_m.len() && old_m[j].0 == q);
            let i: int = if j < r {
                j
            } else {
                j + 1
            };
            assert(new_m[i] == old_m[j]);
            lemma_value_at(new_m, i);
        }
    }
    assert(lhs =~= rhs);
}

/// Overwriting the value at an existing key keeps the order and updates
/// the map at that key alone.
pub proof fn lemma_content_update(
    old_m: Seq<EntryV>,
    new_m: Seq<EntryV>,
    r: int,
    k: Seq<u8>,
    v: Seq<u8>,
)
    requires
        sorted(old_m),
        0 <= r < old_m.len(),
        new_m.len() == old_m.len(),
        forall|i: int| 0 <= i < new_m.len() && i != r ==> new_m[i] == old_m[i],
        new_m[r] == (k, v),
        old_m[r].0 == k,
    ensures
        sorted(new_m),
        entries_map(new_m) == entries_map(old_m).insert(k, v),
{
    assert forall|i: int, j: int| 0 <= i < j < new_m.len() implies lex_lt(
        new_m[i].0,
        new_m[j].0,
    ) by {
        assert(new_m[i].0 == old_m[i].0);
        assert(new_m[j].0 == old_m[j].0);
    }
    lemma_sorted_distinct(old_m);
    lemma_sorted_distinct(new_m);
    let lhs = entries_map(new_m);
    let rhs = entries_map(old_m).insert(k, v);
    assert forall|q: Seq<u8>| lhs.dom().contains(q) implies rhs.dom().contains(q) && lhs[q]
        == rhs[q] by {
        let i = index_of(new_m, q);
        assert(0 <= i < new_m.len() && new_m[i].0 == q);
        lemma_value_at(new_m, i);
        if i == r {
            assert(q == k);
        } else {
            lemma_value_at(old_m, i);
        }
    }
    assert forall|q: Seq<u8>| rhs.dom().contains(q) implies lhs.dom().contains(q) by {
        if q == k {
            lemma_value_at(new_m, r);
        } else {
            let j = index_of(old_m, q);
            assert(0 <= j < old_m.len() && old_m[j].0 == q);
            assert(j != r);
            lemma_value_at(new_m, j);
        }
    }
    assert(lhs =~= rhs);
}

/// Removing the entry at position `r` keeps the order and removes exactly
/// its key from the map.
pub proof fn lemma_content_remove(old_m: Seq<EntryV>, new_m: Seq<EntryV>, r: int)
    requires
        sorted(old_m),
        0 <= r < old_m.len(),
        new_m.len() == old_m.len() - 1,
        forall|i: int| 0 <= i < r ==> new_m[i] == old_m[i],
        forall|i: int| r <= i < new_m.len() ==> new_m[i] == old_m[i + 1],
    ensures
        sorted(new_m),
        entries_map(new_m) == entries_map(old_m).remove(old_m[r].0),
{
    assert forall|i: int, j: int| 0 <= i < j < new_m.len() implies lex_lt(
        new_m[i].0,
        new_m[j].0,
    ) by {
        let ii: int = if i < r {
            i
        } else {
            i + 1
        };
        let jj: int = if j < r {
            j
        } else {
            j + 1
        };
        assert(new_m[i] == old_m[ii]);
        assert(new_m[j] == old_m[jj]);
    }
    lemma_sorted_distinct(old_m);
    lemma_sorted_distinct(new_m);
    let k = old_m[r].0;
    let lhs = entries_map(new_m);
    let rhs = entries_map(old_m).remove(k);
    assert forall|q: Seq<u8>| lhs.dom().contains(q) implies rhs.dom().contains(q) && lhs[q]
        == rhs[q] by {
        let i = index_of(new_m, q);
        assert(0 <= i < new_m.len() && new_m[i].0 == q);
        lemma_value_at(new_m, i);
        let j: int = if i < r {
            i
        } else {
            i + 1
        };
        assert(new_m[i] == old_m[j]);
        lemma_value_at(old_m, j);
        assert(q != k) by {
            if old_m[j].0 == k {
                assert(j != r);
            }
        }
    }
    assert forall|q: Seq<u8>| rhs.dom().contains(q) implies lhs.dom().contains(q) by {
        let j = index_of(old_m, q);
        assert(0 <= j < old_m.len() && old_m[j].0 == q);
        assert(j != r);
        let i: int = if j < r {
            j
        } else {
            j - 1
        };
        assert(new_m[i] == old_m[j]);
        lemma_value_at(new_m, i);
    }
    assert(lhs =~= rhs);
}

/// Every kept entry lies on the chosen side of the bounds and comes from
/// the source; every source entry on that side is kept.
pub proof fn lemma_filtered_membership(
    s: Seq<EntryV>,
    lo: Option<Seq<u8>>,
    hi: Option<Seq<u8>>,
    keep: bool,
)
    ensures
        forall|i: int|
            0 <= i < filtered(s, lo, hi, keep).len() ==> in_range(
                #[trigger] filtered(s, lo, hi, keep)[i].0,
                lo,
                hi,
            ) == keep,
        forall|i: int|
            0 <= i < filtered(s, lo, hi, keep).len() ==> (exists|j: int|
                0 <= j < s.len() && s[j] == #[trigger] filtered(s, lo, hi, keep)[i]),
        forall|j: int|
            0 <= j < s.len() && in_range(#[trigger] s[j].0, lo, hi) == keep ==> (exists|i: int|
                0 <= i < filtered(s, lo, hi, keep).len() && filtered(s, lo, hi, keep)[i] == s[j]),
    decreases s.len(),
{
    if s.len() > 0 {
        lemma_filtered_membership(s.drop_last(), lo, hi, keep);
        let f = filtered(s, lo, hi, keep);
        let fp = filtered(s.drop_last(), lo, hi, keep);
        assert forall|i: int| 0 <= i < f.len() implies in_range(#[trigger] f[i].0, lo, hi) == keep
            && (exists|j: int| 0 <= j < s.len() && s[j] == f[i]) by {
            if i < fp.len() {
                assert(f[i] == fp[i]);
                let j = choose|j: int| 0 <= j < s.drop_last().len() && s.drop_last()[j] == fp[i];
                assert(s[j] == f[i]);
            } else {
                assert(f[i] == s.last());
                assert(s[s.len() - 1] == f[i]);
            }
        }
        assert forall|j: int| 0 <= j < s.len() && in_range(#[trigger] s[j].0, lo, hi)
            == keep implies (exists|i: int| 0 <= i < f.len() && f[i] == s[j]) by {
            if j < s.len() - 1 {
                assert(s.drop_last()[j] == s[j]);
                let i = choose|i: int| 0 <= i < fp.len() && fp[i] == s.drop_last()[j];
                assert(f[i] == s[j]);
            } else {
                assert(f[f.len() - 1] == s[j]);
            }
        }
    }
}

/// Filtering keeps the strict key order.
pub proof fn lemma_filtered_sorted(
    s: Seq<EntryV>,
    lo: Option<Seq<u8>>,
    hi: Option<Seq<u8>>,
    keep: bool,
)
    requires
        sorted(s),
    ensures
        sorted(filtered(s, lo, hi, keep)),
    decreases s.len(),
{
    if s.len() > 0 {
        assert(sorted(s.drop_last()));
        lemma_filtered_sorted(s.drop_last(), lo, hi, keep);
        lemma_filtered_membership(s.drop_last(), lo, hi, keep);
        let f = filtered(s, lo, hi, keep);
        let fp = filtered(s.drop_last(), lo, hi, keep);
        if in_range(s.last().0, lo, hi) == keep {
            assert forall|i: int, j: int| 0 <= i < j < f.len() implies lex_lt(
                f[i].0,
                f[j].0,
            ) by {
                if j < fp.len() {
                    assert(f[i] == fp[i] && f[j] == fp[j]);
                } else {
                    assert(f[j] == s.last());
                    assert(f[i] == fp[i]);
                    let m = choose|m: int|
                        0 <= m < s.drop_last().len() && s.drop_last()[m] == fp[i];
                    assert(lex_lt(s[m].0, s[s.len() - 1].0));
                }
            }
        }
    }
}

/// The map reading of the kept side is the source map restricted to it.
pub proof fn lemma_filtered_map(
    s: Seq<EntryV>,
    lo: Option<Seq<u8>>,
    hi: Option<Seq<u8>>,
    keep: bool,
)
    requires
        sorted(s),
    ensures
        entries_map(filtered(s, lo, hi, keep)) == Map::new(
            (|k: Seq<u8>| has_key(s, k) && in_range(k, lo, hi) == keep),
            (|k: Seq<u8>| entries_map(s)[k]),
        ),
{
    lemma_filtered_sorted(s, lo, hi, keep);
    lemma_filtered_membership(s, lo, hi, keep);
    lemma_sorted_distinct(s);
    let f = filtered(s, lo, hi, keep);
    lemma_sorted_distinct(f);
    let lhs = entries_map(f);
    let rhs = Map::new(
        (|k: Seq<u8>| has_key(s, k) && in_range(k, lo, hi) == keep),
        (|k: Seq<u8>| entries_map(s)[k]),
    );
    assert forall|q: Seq<u8>| lhs.dom().contains(q) implies rhs.dom().contains(q) && lhs[q]
        == rhs[q] by {
        let i = index_of(f, q);
        assert(0 <= i < f.len() && f[i].0 == q);
        lemma_value_at(f, i);
        let j = choose|j: int| 0 <= j < s.len() && s[j] == f[i];
        lemma_value_at(s, j);
        assert(has_key(s, q));
    }
    assert forall|q: Seq<u8>| rhs.dom().contains(q) implies lhs.dom().contains(q) by {
        let j = index_of(s, q);
        assert(0 <= j < s.len() && s[j].0 == q);
        let i = choose|i: int| 0 <= i < f.len() && f[i] == s[j];
        lemma_value_at(f, i);
    }
    assert(lhs =~= rhs);
}

/// With no bounds, keeping the inside keeps everything.
pub proof fn lemma_filtered_all(s: Seq<EntryV>)
    ensures
        filtered(s, None, None, true) == s,
    decreases s.len(),
{
    if s.len() == 0 {
        assert(filtered(s, None, None, true) =~= s);
    } else {
        lemma_filtered_all(s.drop_last());
        assert(filtered(s, None, None, true) =~= s);
    }
}

} // verus!
