//! The store: a physical location owning named logical partitions.
//!
//! Each partition keeps its entries strictly sorted by byte-lexicographic
//! key order. Point mutations, range deletion and range snapshots are
//! proved against the map and sequence model of `engine`.

use vstd::prelude::*;

use crate::codec::lemma_string_encoding_injective;
use crate::engine::entries_map;
use crate::engine::filtered;
use crate::engine::in_range;
use crate::engine::kvs;
use crate::engine::lemma_content_insert;
use crate::engine::lemma_content_remove;
use crate::engine::lemma_content_update;
use crate::engine::lemma_filtered_map;
use crate::engine::lemma_filtered_sorted;
use crate::engine::lemma_sorted_distinct;
use crate::engine::lemma_value_at;
use crate::engine::sorted;
use crate::engine::EntryV;
use crate::order::cmp_bytes;
use crate::order::lemma_lex_connected;
use crate::order::lemma_lex_irreflexive;
use crate::order::lemma_lex_transitive;
use crate::order::lex_lt;
use crate::order::Cmp;

verus! {

/// The byte view of an optional bound.
pub open spec fn bound_view(o: Option<&Vec<u8>>) -> Option<Seq<u8>> {
    match o {
        Some(v) => Some(v@),
        None => None,
    }
}

/// Copies a byte string.
pub fn copy_bytes(v: &Vec<u8>) -> (r: Vec<u8>)
    ensures
        r@ == v@,
{
    let mut r: Vec<u8> = Vec::new();
    let mut i: usize = 0;
    while i < v.len()
        invariant
            i <= v.len(),
            r@ == v@.subrange(0, i as int),
        decreases v.len() - i,
    {
        r.push(v[i]);
        proof {
            assert(r@ =~= v@.subrange(0, i + 1));
        }
        i += 1;
    }
    proof {
        assert(v@.subrange(0, v@.len() as int) =~= v@);
    }
    r
}

/// Whether two byte slices hold the same bytes.
pub fn bytes_eq(a: &[u8], b: &[u8]) -> (r: bool)
    ensures
        r == (a@ == b@),
{
    if a.len() != b.len() {
        return false;
    }
    let mut i: usize = 0;
    while i < a.len()
        invariant
            a@.len() == b@.len(),
            i <= a@.len(),
            forall|j: int| 0 <= j < i ==> a@[j] == b@[j],
        decreases a@.len() - i,
    {
        if a[i] != b[i] {
            return false;
        }
        i += 1;
    }
    proof {
        assert(a@ =~= b@);
    }
    true
}

/// Whether two strings hold the same characters.
pub fn str_eq(a: &str, b: &str) -> (r: bool)
    ensures
        r == (a@ == b@),
{
    let r = bytes_eq(a.as_bytes(), b.as_bytes());
    proof {
        if r {
            lemma_string_encoding_injective(a@, b@);
        }
    }
    r
}

/// Whether `a`'s bytes sort strictly before `b`'s.
fn lt_bytes(a: &Vec<u8>, b: &Vec<u8>) -> (r: bool)
    ensures
        r == lex_lt(a@, b@),
{
    matches!(cmp_bytes(a, b), Cmp::Less)
}

/// The first position whose key does not sort before `key`.
pub(crate) fn lower_bound(entries: &Vec<(Vec<u8>, Vec<u8>)>, key: &Vec<u8>) -> (r: usize)
    requires
        sorted(kvs(entries@)),
    ensures
        r <= entries@.len(),
        forall|j: int| 0 <= j < r ==> lex_lt(#[trigger] kvs(entries@)[j].0, key@),
        forall|j: int| r <= j < entries@.len() ==> !lex_lt(#[trigger] kvs(entries@)[j].0, key@),
{
    let ghost m = kvs(entries@);
    let n = entries.len();
    let mut i: usize = 0;
    while i < n
        invariant
            n == entries@.len(),
            m == kvs(entries@),
            sorted(m),
            i <= n,
            forall|j: int| 0 <= j < i ==> lex_lt(#[trigger] m[j].0, key@),
        decreases n - i,
    {
        if !lt_bytes(&entries[i].0, key) {
            proof {
                assert forall|j: int| i <= j < entries@.len() implies !lex_lt(
                    #[trigger] m[j].0,
                    key@,
                ) by {
                    if j > i && lex_lt(m[j].0, key@) {
                        lemma_lex_transitive(m[i as int].0, m[j].0, key@);
                    }
                }
            }
            return i;
        }
        i += 1;
    }
    i
}

/// A named logical partition: a keyspace of byte entries, kept sorted.
pub struct Partition {
    pub name: String,
    pub entries: Vec<(Vec<u8>, Vec<u8>)>,
}

impl Partition {
    /// The sorted entry sequence.
    pub open spec fn model(self) -> Seq<EntryV> {
        kvs(self.entries@)
    }

    /// The entries read as a map from key bytes to value bytes.
    pub open spec fn content(self) -> Map<Seq<u8>, Seq<u8>> {
        entries_map(self.model())
    }

    /// Entries strictly ascend by key.
    pub open spec fn wf(self) -> bool {
        sorted(self.model())
    }

    /// A fresh, empty partition.
    pub fn new_empty(name: String) -> (p: Partition)
        ensures
            p.wf(),
            p.name == name,
            p.model().len() == 0,
            p.content() == Map::<Seq<u8>, Seq<u8>>::empty(),
    {
        let p = Partition { name, entries: Vec::new() };
        proof {
            assert(p.content() =~= Map::<Seq<u8>, Seq<u8>>::empty());
        }
        p
    }

    /// Looks a key up; absent keys give `None`.
    pub fn get_bytes(&self, key: &Vec<u8>) -> (r: Option<Vec<u8>>)
        requires
            self.wf(),
        ensures
            (match r {
                Some(v) => self.content().dom().contains(key@) && self.content()[key@] == v@,
                None => !self.content().dom().contains(key@),
            }),
    {
        proof {
            lemma_sorted_distinct(self.model());
        }
        let r = lower_bound(&self.entries, key);
        if r < self.entries.len() && matches!(cmp_bytes(&self.entries[r].0, key), Cmp::Equal) {
            proof {
                lemma_value_at(self.model(), r as int);
            }
            Some(copy_bytes(&self.entries[r].1))
        } else {
            proof {
                let m = self.model();
                assert forall|j: int| 0 <= j < m.len() implies m[j].0 != key@ by {
                    if j < r {
                        if m[j].0 == key@ {
                            lemma_lex_irreflexive(key@);
                        }
                    } else if j > r {
                        if m[j].0 == key@ {
                            assert(lex_lt(m[r as int].0, m[j].0));
                        }
                    }
                }
            }
            None
        }
    }

    /// Whether a key is present.
    pub fn contains_bytes(&self, key: &Vec<u8>) -> (r: bool)
        requires
            self.wf(),
        ensures
            r == self.content().dom().contains(key@),
    {
        self.get_bytes(key).is_some()
    }

    /// Inserts or overwrites one entry.
    pub fn put_bytes(&mut self, key: Vec<u8>, value: Vec<u8>)
        requires
            old(self).wf(),
        ensures
            final(self).wf(),
            final(self).name == old(self).name,
            final(self).content() == old(self).content().insert(key@, value@),
    {
        let ghost old_m = self.model();
        let r = lower_bound(&self.entries, &key);
        let mut replace = false;
        if r < self.entries.len() {
            if matches!(cmp_bytes(&self.entries[r].0, &key), Cmp::Equal) {
                replace = true;
            }
        }
        if replace {
            let ghost old_e = self.entries@;
            self.entries[r] = (key, value);
            proof {
                assert(self.entries@ == old_e.update(r as int, self.entries@[r as int]));
                let new_m = self.model();
                assert(new_m[r as int] == (key@, value@));
                assert forall|i: int| 0 <= i < new_m.len() && i != r implies new_m[i]
                    == old_m[i] by {
                    assert(self.entries@[i] == old_e[i]);
                }
                lemma_content_update(old_m, new_m, r as int, key@, value@);
            }
        } else {
            proof {
                assert forall|j: int| r <= j < old_m.len() implies lex_lt(key@, old_m[j].0) by {
                    lemma_lex_connected(key@, old_m[j].0);
                    if old_m[j].0 == key@ {
                        if j > r {
                            assert(lex_lt(old_m[r as int].0, old_m[j].0));
                            assert(false);
                        } else {
                            assert(false);
                        }
                    }
                }
            }
            let ghost old_e = self.entries@;
            self.entries.insert(r, (key, value));
            proof {
                let new_m = self.model();
                assert(self.entries@ == old_e.insert(r as int, self.entries@[r as int]));
                assert(new_m.len() == old_m.len() + 1);
                assert forall|i: int| 0 <= i < r implies new_m[i] == old_m[i] by {
                    assert(self.entries@[i] == old_e[i]);
                }
                assert(new_m[r as int] == (key@, value@));
                assert forall|i: int| r < i < new_m.len() implies new_m[i] == old_m[i - 1] by {
                    assert(self.entries@[i] == old_e[i - 1]);
                }
                lemma_content_insert(old_m, new_m, r as int, key@, value@);
            }
        }
    }

    /// Removes one entry, if present.
    pub fn remove_bytes(&mut self, key: &Vec<u8>)
        requires
            old(self).wf(),
        ensures
            final(self).wf(),
            final(self).name == old(self).name,
            final(self).content() == old(self).content().remove(key@),
    {
        let ghost old_m = self.model();
        let r = lower_bound(&self.entries, key);
        if r < self.entries.len() && matches!(cmp_bytes(&self.entries[r].0, key), Cmp::Equal) {
            let ghost old_e = self.entries@;
            self.entries.remove(r);
            proof {
                let new_m = self.model();
                assert(self.entries@ == old_e.remove(r as int));
                assert forall|i: int| 0 <= i < r implies new_m[i] == old_m[i] by {
                    assert(self.entries@[i] == old_e[i]);
                }
                assert forall|i: int| r <= i < new_m.len() implies new_m[i] == old_m[i + 1] by {
                    assert(self.entries@[i] == old_e[i + 1]);
                }
                lemma_content_remove(old_m, new_m, r as int);
            }
        } else {
            proof {
                let m = self.model();
                assert forall|j: int| 0 <= j < m.len() implies m[j].0 != key@ by {
                    if j < r {
                        if m[j].0 == key@ {
                            lemma_lex_irreflexive(key@);
                        }
                    } else if j > r {
                        if m[j].0 == key@ {
                            assert(lex_lt(m[r as int].0, m[j].0));
                        }
                    }
                }
                assert(self.content() =~= self.content().remove(key@));
            }
        }
    }

    /// Removes every entry. Idempotent: an empty partition stays empty.
    pub fn clear(&mut self)
        requires
            old(self).wf(),
        ensures
            final(self).wf(),
            final(self).name == old(self).name,
            final(self).model().len() == 0,
            final(self).content() == Map::<Seq<u8>, Seq<u8>>::empty(),
    {
        self.entries = Vec::new();
        proof {
            assert(self.content() =~= Map::<Seq<u8>, Seq<u8>>::empty());
        }
    }

    /// Whether the partition holds no entry at all.
    pub fn is_empty(&self) -> (r: bool)
        requires
            self.wf(),
        ensures
            r == (self.model().len() == 0),
            r == (self.content() == Map::<Seq<u8>, Seq<u8>>::empty()),
    {
        let r = self.entries.len() == 0;
        proof {
            if r {
                assert(self.content() =~= Map::<Seq<u8>, Seq<u8>>::empty());
            } else {
                lemma_sorted_distinct(self.model());
                lemma_value_at(self.model(), 0);
                assert(self.content().dom().contains(self.model()[0].0));
                assert(!Map::<Seq<u8>, Seq<u8>>::empty().dom().contains(self.model()[0].0));
            }
        }
        r
    }

    /// The entries whose key lies inside the bounds, in ascending order:
    /// a consistent snapshot for an iterator.
    pub fn snapshot_range(&self, lo: Option<&Vec<u8>>, hi: Option<&Vec<u8>>) -> (r: Vec<
        (Vec<u8>, Vec<u8>),
    >)
        requires
            self.wf(),
        ensures
            kvs(r@) == filtered(self.model(), bound_view(lo), bound_view(hi), true),
            sorted(kvs(r@)),
    {
        let r = filter_entries(&self.entries, lo, hi, true);
        proof {
            lemma_filtered_sorted(self.model(), bound_view(lo), bound_view(hi), true);
        }
        r
    }

    /// Removes every entry with `start <= key < end`, end exclusive.
    pub fn delete_range_bytes(&mut self, start: &Vec<u8>, end: &Vec<u8>)
        requires
            old(self).wf(),
        ensures
            final(self).wf(),
            final(self).name == old(self).name,
            final(self).content() == old(self).content().remove_keys(
                Set::new(|k: Seq<u8>| in_range(k, Some(start@), Some(end@))),
            ),
    {
        let ghost old_m = self.model();
        let new_entries = filter_entries(&self.entries, Some(start), Some(end), false);
        self.entries = new_entries;
        proof {
            lemma_filtered_sorted(old_m, Some(start@), Some(end@), false);
            lemma_filtered_map(old_m, Some(start@), Some(end@), false);
            assert(self.content() =~= entries_map(old_m).remove_keys(
                Set::new(|k: Seq<u8>| in_range(k, Some(start@), Some(end@))),
            ));
        }
    }
}

/// Keeps the entries on one side of the bounds, copying them in order.
fn filter_entries(
    entries: &Vec<(Vec<u8>, Vec<u8>)>,
    lo: Option<&Vec<u8>>,
    hi: Option<&Vec<u8>>,
    keep: bool,
) -> (r: Vec<(Vec<u8>, Vec<u8>)>)
    ensures
        kvs(r@) == filtered(kvs(entries@), bound_view(lo), bound_view(hi), true == keep),
{
    let ghost m = kvs(entries@);
    let ghost lov = bound_view(lo);
    let ghost hiv = bound_view(hi);
    let n = entries.len();
    let mut r: Vec<(Vec<u8>, Vec<u8>)> = Vec::new();
    let mut i: usize = 0;
    proof {
        assert(m.take(0) =~= Seq::<EntryV>::empty());
        assert(kvs(r@) =~= filtered(m.take(0), lov, hiv, true == keep));
    }
    while i < n
        invariant
            n == entries@.len(),
            m == kvs(entries@),
            lov == bound_view(lo),
            hiv == bound_view(hi),
            i <= n,
            kvs(r@) == filtered(m.take(i as int), lov, hiv, true == keep),
        decreases n - i,
    {
        let key = &entries[i].0;
        let mut inside = true;
        if let Some(l) = lo {
            if lt_bytes(key, l) {
                inside = false;
            }
            proof {
                lemma_lex_connected(l@, key@);
                if lex_lt(key@, l@) {
                    crate::order::lemma_lex_asymmetric(key@, l@);
                    lemma_lex_irreflexive(key@);
                }
            }
        }
        if inside {
            if let Some(h) = hi {
                if !lt_bytes(key, h) {
                    inside = false;
                }
            }
        }
        proof {
            assert(inside == in_range(m[i as int].0, lov, hiv));
        }
        let ghost r_old = r@;
        if inside == keep {
            let e = (copy_bytes(&entries[i].0), copy_bytes(&entries[i].1));
            r.push(e);
        }
        proof {
            let t1 = m.take(i + 1);
            assert(t1.drop_last() =~= m.take(i as int));
            assert(t1.last() == m[i as int]);
            assert(t1.len() > 0);
            if inside == keep {
                assert(kvs(r@) =~= kvs(r_old).push(m[i as int]));
            } else {
                assert(kvs(r@) =~= kvs(r_old));
            }
            assert(kvs(r@) == filtered(t1, lov, hiv, true == keep));
        }
        i += 1;
    }
    proof {
        assert(m.take(n as int) =~= m);
    }
    r
}

/// Taking partition `i` out, changing it and putting it back leaves every
/// other position untouched.
proof fn lemma_parts_update(old_parts: Seq<Partition>, new_parts: Seq<Partition>, i: int)
    requires
        0 <= i < old_parts.len(),
        new_parts == old_parts.remove(i).insert(i, new_parts[i]),
    ensures
        new_parts.len() == old_parts.len(),
        forall|j: int| 0 <= j < old_parts.len() && j != i ==> new_parts[j] == old_parts[j],
{
    let mid = old_parts.remove(i);
    assert forall|j: int| 0 <= j < old_parts.len() && j != i implies new_parts[j]
        == old_parts[j] by {
        if j < i {
            assert(mid[j] == old_parts[j]);
            assert(new_parts[j] == mid[j]);
        } else {
            assert(mid[j - 1] == old_parts[j]);
            assert(new_parts[j] == mid[j - 1]);
        }
    }
}

/// One physical store: a storage location owning named partitions,
/// shared by every typed map derived from it.
pub struct Store {
    pub path: String,
    pub partitions: Vec<Partition>,
}

impl Store {
    /// Every partition is well formed.
    pub open spec fn wf(self) -> bool {
        forall|i: int|
            0 <= i < self.partitions@.len() ==> (#[trigger] self.partitions@[i]).wf()
    }

    /// How many partitions the store holds.
    pub open spec fn n_parts(self) -> nat {
        self.partitions@.len()
    }

    /// The name of partition `i`.
    pub open spec fn part_name(self, i: int) -> Seq<char> {
        self.partitions@[i].name@
    }

    /// The map reading of partition `i`.
    pub open spec fn part_content(self, i: int) -> Map<Seq<u8>, Seq<u8>> {
        self.partitions@[i].content()
    }

    /// The sorted entry sequence of partition `i`.
    pub open spec fn part_model(self, i: int) -> Seq<EntryV> {
        self.partitions@[i].model()
    }

    /// Same location, same partitions by name: the shape every mutation
    /// preserves.
    pub open spec fn same_shape(self, other: Store) -> bool {
        &&& self.path@ == other.path@
        &&& self.n_parts() == other.n_parts()
        &&& forall|i: int| 0 <= i < self.n_parts() ==> self.part_name(i) == other.part_name(i)
    }

    /// Opens a store at `path` with one empty partition per name;
    /// partitions that do not exist yet are created.
    pub fn open(path: String, partition_names: Vec<String>) -> (s: Store)
        ensures
            s.wf(),
            s.path == path,
            s.n_parts() == partition_names@.len(),
            forall|i: int|
                0 <= i < s.n_parts() ==> s.part_name(i) == partition_names@[i]@ && s.part_content(
                    i,
                ) == Map::<Seq<u8>, Seq<u8>>::empty() && s.part_model(i).len() == 0,
    {
        let mut partitions: Vec<Partition> = Vec::new();
        let n = partition_names.len();
        let mut i: usize = 0;
        while i < n
            invariant
                i <= n,
                n == partition_names@.len(),
                partitions@.len() == i,
                forall|j: int|
                    0 <= j < i ==> (#[trigger] partitions@[j]).wf() && partitions@[j].name@
                        == partition_names@[j]@ && partitions@[j].model().len() == 0
                        && partitions@[j].content() == Map::<Seq<u8>, Seq<u8>>::empty(),
            decreases n - i,
        {
            let name = partition_names[i].as_str().to_owned();
            let p = Partition::new_empty(name);
            partitions.push(p);
            i += 1;
        }
        Store { path, partitions }
    }

    /// Inserts or overwrites one entry in partition `i`.
    pub fn put_bytes_in(&mut self, i: usize, key: Vec<u8>, value: Vec<u8>)
        requires
            old(self).wf(),
            i < old(self).n_parts(),
        ensures
            final(self).wf(),
            old(self).same_shape(*final(self)),
            final(self).part_content(i as int) == old(self).part_content(i as int).insert(
                key@,
                value@,
            ),
            forall|j: int|
                0 <= j < old(self).n_parts() && j != i ==> final(self).partitions@[j] == old(
                    self,
                ).partitions@[j],
    {
        let ghost old_parts = self.partitions@;
        let mut p = self.partitions.remove(i);
        p.put_bytes(key, value);
        self.partitions.insert(i, p);
        proof {
            lemma_parts_update(old_parts, self.partitions@, i as int);
        }
    }

    /// Removes one entry from partition `i`, if present.
    pub fn remove_bytes_in(&mut self, i: usize, key: &Vec<u8>)
        requires
            old(self).wf(),
            i < old(self).n_parts(),
        ensures
            final(self).wf(),
            old(self).same_shape(*final(self)),
            final(self).part_content(i as int) == old(self).part_content(i as int).remove(key@),
            forall|j: int|
                0 <= j < old(self).n_parts() && j != i ==> final(self).partitions@[j] == old(
                    self,
                ).partitions@[j],
    {
        let ghost old_parts = self.partitions@;
        let mut p = self.partitions.remove(i);
        p.remove_bytes(key);
        self.partitions.insert(i, p);
        proof {
            lemma_parts_update(old_parts, self.partitions@, i as int);
        }
    }

    /// Removes every entry with `start <= key < end` from partition `i`.
    pub fn delete_range_in(&mut self, i: usize, start: &Vec<u8>, end: &Vec<u8>)
        requires
            old(self).wf(),
            i < old(self).n_parts(),
        ensures
            final(self).wf(),
            old(self).same_shape(*final(self)),
            final(self).part_content(i as int) == old(self).part_content(i as int).remove_keys(
                Set::new(|k: Seq<u8>| in_range(k, Some(start@), Some(end@))),
            ),
            forall|j: int|
                0 <= j < old(self).n_parts() && j != i ==> final(self).partitions@[j] == old(
                    self,
                ).partitions@[j],
    {
        let ghost old_parts = self.partitions@;
        let mut p = self.partitions.remove(i);
        p.delete_range_bytes(start, end);
        self.partitions.insert(i, p);
        proof {
            lemma_parts_update(old_parts, self.partitions@, i as int);
        }
    }

    /// Removes every entry of partition `i`.
    pub fn clear_in(&mut self, i: usize)
        requires
            old(self).wf(),
            i < old(self).n_parts(),
        ensures
            final(self).wf(),
            old(self).same_shape(*final(self)),
            final(self).part_model(i as int).len() == 0,
            final(self).part_content(i as int) == Map::<Seq<u8>, Seq<u8>>::empty(),
            forall|j: int|
                0 <= j < old(self).n_parts() && j != i ==> final(self).partitions@[j] == old(
                    self,
                ).partitions@[j],
    {
        let ghost old_parts = self.partitions@;
        let mut p = self.partitions.remove(i);
        p.clear();
        self.partitions.insert(i, p);
        proof {
            lemma_parts_update(old_parts, self.partitions@, i as int);
        }
    }

    /// A point-in-time, independent copy of the whole store at another
    /// location: every partition equal now, sharing nothing afterwards.
    pub fn checkpoint(&self, dest_path: String) -> (s: Store)
        requires
            self.wf(),
        ensures
            s.wf(),
            s.path == dest_path,
            s.n_parts() == self.n_parts(),
            forall|i: int|
                0 <= i < s.n_parts() ==> s.part_name(i) == self.part_name(i) && s.part_model(i)
                    == self.part_model(i) && s.part_content(i) == self.part_content(i),
    {
        let mut partitions: Vec<Partition> = Vec::new();
        let n = self.partitions.len();
        let mut i: usize = 0;
        while i < n
            invariant
                self.wf(),
                i <= n,
                n == self.n_parts(),
                partitions@.len() == i,
                forall|j: int|
                    0 <= j < i ==> (#[trigger] partitions@[j]).name@ == self.part_name(j)
                        && partitions@[j].model() == self.part_model(j),
            decreases n - i,
        {
            let name = self.partitions[i].name.as_str().to_owned();
            let entries = filter_entries(&self.partitions[i].entries, None, None, true);
            proof {
                crate::engine::lemma_filtered_all(self.part_model(i as int));
            }
            partitions.push(Partition { name, entries });
            i += 1;
        }
        let s = Store { path: dest_path, partitions };
        proof {
            assert forall|j: int| 0 <= j < s.n_parts() implies (#[trigger] s.partitions@[j]).wf()
                && s.part_content(j) == self.part_content(j) by {
                assert(s.part_model(j) == self.part_model(j));
            }
        }
        s
    }

    /// The position of the partition called `name`, if it exists.
    pub fn find_partition(&self, name: &str) -> (r: Option<usize>)
        ensures
            (match r {
                Some(i) => i < self.n_parts() && self.part_name(i as int) == name@,
                None => forall|i: int| 0 <= i < self.n_parts() ==> self.part_name(i) != name@,
            }),
    {
        let mut i: usize = 0;
        let n = self.partitions.len();
        while i < n
            invariant
                n == self.n_parts(),
                i <= n,
                forall|j: int| 0 <= j < i ==> self.part_name(j) != name@,
            decreases n - i,
        {
            if str_eq(self.partitions[i].name.as_str(), name) {
                return Some(i);
            }
            i += 1;
        }
        None
    }
}

} // verus!
