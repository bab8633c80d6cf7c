//! Safe iterators: bounded, seekable, error-surfacing cursors.
//!
//! An iterator captures a consistent snapshot of its partition, already
//! restricted to its bounds, at creation. It starts *uninitialized*:
//! positional access then is a reported error, never undefined
//! behaviour. A seek or a first `next` positions it; running past the
//! end leaves it *exhausted*, where access yields an empty result, not
//! an error. Decode failures surface per entry from `next`, so one bad
//! entry need not end a scan.

use std::marker::PhantomData;

use vstd::prelude::*;

use crate::codec::KeyCodec;
use crate::codec::ValueCodec;
use crate::engine::filtered;
use crate::engine::kvs;
use crate::engine::sorted;
use crate::engine::EntryV;
use crate::error::TypedStoreError;
use crate::map::DBMap;
use crate::order::cmp_bytes;
use crate::order::lemma_lex_connected;
use crate::order::lex_le;
use crate::order::lex_lt;
use crate::order::Cmp;
use crate::store::bound_view;
use crate::store::lower_bound;
use crate::store::Store;

verus! {

/// One end of a typed key range.
pub enum KeyBound<K> {
    Unbounded,
    Included(K),
    Excluded(K),
}

/// A typed key range, any combination of inclusive, exclusive and open
/// ends; normalized internally to an inclusive lower and exclusive upper
/// byte bound.
pub struct KeyRange<K> {
    pub start: KeyBound<K>,
    pub end: KeyBound<K>,
}

/// The byte form of an optional plain key bound: an inclusive lower
/// or an exclusive upper, as the constructors read them.
pub open spec fn key_bound_view<K: KeyCodec>(o: Option<&K>) -> Option<Seq<u8>> {
    match o {
        Some(k) => Some(k.kenc()),
        None => None,
    }
}

/// The inclusive lower byte bound a range start normalizes to.
pub open spec fn range_lower_view<K: KeyCodec>(b: KeyBound<K>) -> Option<Seq<u8>> {
    match b {
        KeyBound::Unbounded => None,
        KeyBound::Included(k) => Some(k.kenc()),
        KeyBound::Excluded(k) => Some(k.kenc().push(0)),
    }
}

/// The exclusive upper byte bound a range end normalizes to.
pub open spec fn range_upper_view<K: KeyCodec>(b: KeyBound<K>) -> Option<Seq<u8>> {
    match b {
        KeyBound::Unbounded => None,
        KeyBound::Included(k) => Some(k.kenc().push(0)),
        KeyBound::Excluded(k) => Some(k.kenc()),
    }
}

/// A forward cursor over a bounded snapshot of one partition.
pub struct SafeIter<K, V> {
    pub entries: Vec<(Vec<u8>, Vec<u8>)>,
    pub cursor: usize,
    pub initialized: bool,
    pub key_marker: PhantomData<K>,
    pub value_marker: PhantomData<V>,
}

/// A reverse cursor over a bounded snapshot of one partition: it hands
/// entries out in descending key order.
pub struct SafeRevIter<K, V> {
    pub entries: Vec<(Vec<u8>, Vec<u8>)>,
    pub remaining: usize,
    pub key_marker: PhantomData<K>,
    pub value_marker: PhantomData<V>,
}

impl<K: KeyCodec, V: ValueCodec> SafeIter<K, V> {
    /// The snapshot this cursor walks, ascending by key.
    pub open spec fn model(self) -> Seq<EntryV> {
        kvs(self.entries@)
    }

    /// Sorted snapshot, cursor within it.
    pub open spec fn wf(self) -> bool {
        sorted(self.model()) && self.cursor <= self.model().len()
    }

    /// Where the next `next` call reads: the cursor once positioned, the
    /// first entry before that.
    pub open spec fn start_of(self) -> int {
        if self.initialized {
            self.cursor as int
        } else {
            0
        }
    }

    /// The key under the cursor. Never positioned: a reported error.
    /// Exhausted: `None`, not an error.
    pub fn key(&self) -> (r: Result<Option<K>, TypedStoreError>)
        requires
            self.wf(),
        ensures
            !self.initialized ==> r == Err::<Option<K>, TypedStoreError>(
                TypedStoreError::IteratorNotInitialized,
            ),
            self.initialized && self.cursor >= self.model().len() ==> r == Ok::<
                Option<K>,
                TypedStoreError,
            >(None),
            self.initialized && self.cursor < self.model().len() ==> (match r {
                Ok(Some(k)) => k.kenc() == self.model()[self.cursor as int].0,
                Ok(None) => false,
                Err(e) => e is DecodeError && (forall|k: K|
                    k.kenc() != self.model()[self.cursor as int].0),
            }),
    {
        if !self.initialized {
            return Err(TypedStoreError::IteratorNotInitialized);
        }
        if self.cursor >= self.entries.len() {
            return Ok(None);
        }
        match K::decode_key(self.entries[self.cursor].0.as_slice()) {
            Ok(k) => Ok(Some(k)),
            Err(e) => Err(e),
        }
    }

    /// Returns the entry under the cursor and advances; the first call
    /// positions the cursor at the snapshot's start. A decode failure is
    /// surfaced as this entry's result, never a panic or a silent skip.
    pub fn next(&mut self) -> (r: Option<Result<(K, V), TypedStoreError>>)
        requires
            old(self).wf(),
        ensures
            final(self).wf(),
            final(self).entries == old(self).entries,
            final(self).initialized,
            old(self).start_of() >= old(self).model().len() ==> r is None && final(self).cursor
                == old(self).start_of(),
            old(self).start_of() < old(self).model().len() ==> final(self).cursor == old(
                self,
            ).start_of() + 1 && (match r {
                Some(Ok((k, v))) => k.kenc() == old(self).model()[old(self).start_of()].0
                    && v.venc() == old(self).model()[old(self).start_of()].1,
                Some(Err(e)) => e is DecodeError && ((forall|k: K|
                    k.kenc() != old(self).model()[old(self).start_of()].0) || (forall|v: V|
                    v.venc() != old(self).model()[old(self).start_of()].1)),
                None => false,
            }),
    {
        if !self.initialized {
            self.initialized = true;
            self.cursor = 0;
        }
        if self.cursor >= self.entries.len() {
            return None;
        }
        let k = K::decode_key(self.entries[self.cursor].0.as_slice());
        let v = V::decode_value(self.entries[self.cursor].1.as_slice());
        self.cursor += 1;
        match (k, v) {
            (Ok(k), Ok(v)) => Some(Ok((k, v))),
            (Err(e), _) => Some(Err(e)),
            (_, Err(e)) => Some(Err(e)),
        }
    }

    /// Positions the cursor at the first snapshot entry with key not
    /// below `key`; past the end if there is none.
    pub fn seek(&mut self, key: &K) -> (r: Result<(), TypedStoreError>)
        requires
            old(self).wf(),
        ensures
            r is Ok,
            final(self).wf(),
            final(self).entries == old(self).entries,
            final(self).initialized,
            forall|j: int|
                0 <= j < final(self).cursor ==> lex_lt(
                    (#[trigger] final(self).model()[j]).0,
                    key.kenc(),
                ),
            forall|j: int|
                final(self).cursor <= j < final(self).model().len() ==> !lex_lt(
                    (#[trigger] final(self).model()[j]).0,
                    key.kenc(),
                ),
    {
        let enc = key.encode_key();
        self.cursor = lower_bound(&self.entries, &enc);
        self.initialized = true;
        Ok(())
    }

    /// Positions the cursor at the last snapshot entry with key not
    /// above `key`; exhausted if there is none, which `key` then reports
    /// as `None`, not an error.
    pub fn seek_to_prev(&mut self, key: &K) -> (r: Result<(), TypedStoreError>)
        requires
            old(self).wf(),
        ensures
            r is Ok,
            final(self).wf(),
            final(self).entries == old(self).entries,
            final(self).initialized,
            final(self).cursor == final(self).model().len() ==> (forall|j: int|
                0 <= j < final(self).model().len() ==> lex_lt(
                    key.kenc(),
                    (#[trigger] final(self).model()[j]).0,
                )),
            final(self).cursor < final(self).model().len() ==> lex_le(
                final(self).model()[final(self).cursor as int].0,
                key.kenc(),
            ) && (forall|j: int|
                final(self).cursor < j < final(self).model().len() ==> lex_lt(
                    key.kenc(),
                    (#[trigger] final(self).model()[j]).0,
                )),
    {
        let ghost m = self.model();
        let enc = key.encode_key();
        let r = lower_bound(&self.entries, &enc);
        self.initialized = true;
        let hit = r < self.entries.len() && matches!(
            cmp_bytes(&self.entries[r].0, &enc),
            Cmp::Equal,
        );
        if hit {
            self.cursor = r;
            proof {
                assert forall|j: int| r < j < m.len() implies lex_lt(
                    key.kenc(),
                    (#[trigger] m[j]).0,
                ) by {
                    assert(lex_lt(m[r as int].0, m[j].0));
                }
            }
        } else if r == 0 {
            self.cursor = self.entries.len();
            proof {
                assert forall|j: int| 0 <= j < m.len() implies lex_lt(
                    key.kenc(),
                    (#[trigger] m[j]).0,
                ) by {
                    lemma_lex_connected(key.kenc(), m[j].0);
                    if j == 0 {
                    } else {
                        assert(!lex_lt(m[j].0, key.kenc()));
                        assert(m[j].0 != key.kenc()) by {
                            if m[j].0 == key.kenc() {
                                assert(lex_lt(m[0].0, m[j].0));
                            }
                        }
                    }
                }
            }
        } else {
            self.cursor = r - 1;
            proof {
                assert(lex_lt(m[r - 1].0, key.kenc()));
                assert forall|j: int| r - 1 < j < m.len() implies lex_lt(
                    key.kenc(),
                    (#[trigger] m[j]).0,
                ) by {
                    lemma_lex_connected(key.kenc(), m[j].0);
                    assert(!lex_lt(m[j].0, key.kenc()));
                    assert(m[j].0 != key.kenc()) by {
                        if m[j].0 == key.kenc() {
                            if j > r {
                                assert(lex_lt(m[r as int].0, m[j].0));
                            }
                        }
                    }
                }
            }
        }
        Ok(())
    }

    /// Positions the cursor at the first snapshot entry; exhausted on an
    /// empty snapshot.
    pub fn seek_to_first(&mut self)
        requires
            old(self).wf(),
        ensures
            final(self).wf(),
            final(self).entries == old(self).entries,
            final(self).initialized,
            final(self).cursor == 0,
    {
        self.cursor = 0;
        self.initialized = true;
    }

    /// Positions the cursor at the last snapshot entry; exhausted on an
    /// empty snapshot.
    pub fn seek_to_last(&mut self)
        requires
            old(self).wf(),
        ensures
            final(self).wf(),
            final(self).entries == old(self).entries,
            final(self).initialized,
            final(self).model().len() > 0 ==> final(self).cursor == final(self).model().len() - 1,
            final(self).model().len() == 0 ==> final(self).cursor == 0,
    {
        let n = self.entries.len();
        if n > 0 {
            self.cursor = n - 1;
        } else {
            self.cursor = 0;
        }
        self.initialized = true;
    }
}

impl<K: KeyCodec, V: ValueCodec> SafeRevIter<K, V> {
    /// The snapshot this cursor walks, ascending by key; `next` hands
    /// its entries out back to front.
    pub open spec fn model(self) -> Seq<EntryV> {
        kvs(self.entries@)
    }

    /// Sorted snapshot, position within it.
    pub open spec fn wf(self) -> bool {
        sorted(self.model()) && self.remaining <= self.model().len()
    }

    /// Returns the entry just below the position and moves down;
    /// `None` once everything was handed out.
    pub fn next(&mut self) -> (r: Option<Result<(K, V), TypedStoreError>>)
        requires
            old(self).wf(),
        ensures
            final(self).wf(),
            final(self).entries == old(self).entries,
            old(self).remaining == 0 ==> r is None && final(self).remaining == 0,
            old(self).remaining > 0 ==> final(self).remaining == old(self).remaining - 1 && (match r {
                Some(Ok((k, v))) => k.kenc() == old(self).model()[old(self).remaining - 1].0
                    && v.venc() == old(self).model()[old(self).remaining - 1].1,
                Some(Err(e)) => e is DecodeError && ((forall|k: K|
                    k.kenc() != old(self).model()[old(self).remaining - 1].0) || (forall|v: V|
                    v.venc() != old(self).model()[old(self).remaining - 1].1)),
                None => false,
            }),
    {
        if self.remaining == 0 {
            return None;
        }
        let i = self.remaining - 1;
        self.remaining = i;
        let k = K::decode_key(self.entries[i].0.as_slice());
        let v = V::decode_value(self.entries[i].1.as_slice());
        match (k, v) {
            (Ok(k), Ok(v)) => Some(Ok((k, v))),
            (Err(e), _) => Some(Err(e)),
            (_, Err(e)) => Some(Err(e)),
        }
    }
}

impl<K: KeyCodec, V: ValueCodec> DBMap<K, V> {
    /// An iterator over the whole partition, ascending.
    pub fn safe_iter(&self, store: &Store) -> (r: Result<SafeIter<K, V>, TypedStoreError>)
        requires
            store.wf(),
            self.valid_for(*store),
        ensures
            (match r {
                Ok(it) => it.wf() && !it.initialized && it.model() == store.part_model(self.cf()),
                Err(_) => false,
            }),
    {
        let entries = store.partitions[self.cf_index].snapshot_range(None, None);
        proof {
            crate::engine::lemma_filtered_all(store.part_model(self.cf()));
        }
        Ok(
            SafeIter {
                entries,
                cursor: 0,
                initialized: false,
                key_marker: PhantomData,
                value_marker: PhantomData,
            },
        )
    }

    /// An ascending iterator over `lower <= key < upper`; a missing
    /// bound leaves that side open. Bounds outside the data yield an
    /// empty snapshot, not an error.
    pub fn safe_iter_with_bounds(&self, store: &Store, lower: Option<&K>, upper: Option<&K>) -> (r:
        Result<SafeIter<K, V>, TypedStoreError>)
        requires
            store.wf(),
            self.valid_for(*store),
        ensures
            (match r {
                Ok(it) => it.wf() && !it.initialized && it.model() == filtered(
                    store.part_model(self.cf()),
                    key_bound_view(lower),
                    key_bound_view(upper),
                    true,
                ),
                Err(_) => false,
            }),
    {
        let lo: Option<Vec<u8>> = match lower {
            Some(k) => Some(k.encode_key()),
            None => None,
        };
        let hi: Option<Vec<u8>> = match upper {
            Some(k) => Some(k.encode_key()),
            None => None,
        };
        let lo_ref: Option<&Vec<u8>> = match &lo {
            Some(v) => Some(v),
            None => None,
        };
        let hi_ref: Option<&Vec<u8>> = match &hi {
            Some(v) => Some(v),
            None => None,
        };
        let entries = store.partitions[self.cf_index].snapshot_range(lo_ref, hi_ref);
        proof {
            assert(bound_view(lo_ref) == key_bound_view(lower));
            assert(bound_view(hi_ref) == key_bound_view(upper));
        }
        Ok(
            SafeIter {
                entries,
                cursor: 0,
                initialized: false,
                key_marker: PhantomData,
                value_marker: PhantomData,
            },
        )
    }

    /// An ascending iterator over a typed range with any combination of
    /// inclusive, exclusive and open ends.
    pub fn safe_range_iter(&self, store: &Store, range: &KeyRange<K>) -> (r: Result<
        SafeIter<K, V>,
        TypedStoreError,
    >)
        requires
            store.wf(),
            self.valid_for(*store),
        ensures
            (match r {
                Ok(it) => it.wf() && !it.initialized && it.model() == filtered(
                    store.part_model(self.cf()),
                    range_lower_view(range.start),
                    range_upper_view(range.end),
                    true,
                ),
                Err(_) => false,
            }),
    {
        let lo: Option<Vec<u8>> = match &range.start {
            KeyBound::Unbounded => None,
            KeyBound::Included(k) => Some(k.encode_key()),
            KeyBound::Excluded(k) => {
                let mut v = k.encode_key();
                v.push(0u8);
                Some(v)
            },
        };
        let hi: Option<Vec<u8>> = match &range.end {
            KeyBound::Unbounded => None,
            KeyBound::Included(k) => {
                let mut v = k.encode_key();
                v.push(0u8);
                Some(v)
            },
            KeyBound::Excluded(k) => Some(k.encode_key()),
        };
        let lo_ref: Option<&Vec<u8>> = match &lo {
            Some(v) => Some(v),
            None => None,
        };
        let hi_ref: Option<&Vec<u8>> = match &hi {
            Some(v) => Some(v),
            None => None,
        };
        let entries = store.partitions[self.cf_index].snapshot_range(lo_ref, hi_ref);
        proof {
            assert(bound_view(lo_ref) == range_lower_view(range.start));
            assert(bound_view(hi_ref) == range_upper_view(range.end));
        }
        Ok(
            SafeIter {
                entries,
                cursor: 0,
                initialized: false,
                key_marker: PhantomData,
                value_marker: PhantomData,
            },
        )
    }

    /// A descending iterator over `lower <= key < upper`: the bounds
    /// read as in the forward constructors, the lower inclusive and the
    /// upper exclusive; only the direction differs.
    pub fn reversed_safe_iter_with_bounds(
        &self,
        store: &Store,
        lower: Option<&K>,
        upper: Option<&K>,
    ) -> (r: Result<SafeRevIter<K, V>, TypedStoreError>)
        requires
            store.wf(),
            self.valid_for(*store),
        ensures
            (match r {
                Ok(it) => it.wf() && it.model() == filtered(
                    store.part_model(self.cf()),
                    key_bound_view(lower),
                    key_bound_view(upper),
                    true,
                ) && it.remaining == it.model().len(),
                Err(_) => false,
            }),
    {
        let lo: Option<Vec<u8>> = match lower {
            Some(k) => Some(k.encode_key()),
            None => None,
        };
        let hi: Option<Vec<u8>> = match upper {
            Some(k) => Some(k.encode_key()),
            None => None,
        };
        let lo_ref: Option<&Vec<u8>> = match &lo {
            Some(v) => Some(v),
            None => None,
        };
        let hi_ref: Option<&Vec<u8>> = match &hi {
            Some(v) => Some(v),
            None => None,
        };
        let entries = store.partitions[self.cf_index].snapshot_range(lo_ref, hi_ref);
        proof {
            assert(bound_view(lo_ref) == key_bound_view(lower));
            assert(bound_view(hi_ref) == key_bound_view(upper));
        }
        let remaining = entries.len();
        Ok(
            SafeRevIter {
                entries,
                remaining,
                key_marker: PhantomData,
                value_marker: PhantomData,
            },
        )
    }
}

/// An ascending iterator over the whole of `db`'s partition.
pub fn get_iter<K: KeyCodec, V: ValueCodec>(db: &DBMap<K, V>, store: &Store) -> (it: SafeIter<
    K,
    V,
>)
    requires
        store.wf(),
        db.valid_for(*store),
    ensures
        it.wf(),
        !it.initialized,
        it.model() == store.part_model(db.cf()),
{
    match db.safe_iter(store) {
        Ok(it) => it,
        Err(_) => vstd::pervasive::unreached(),
    }
}

/// A descending iterator between an inclusive lower and an exclusive
/// upper typed bound.
pub fn get_reverse_iter<K: KeyCodec, V: ValueCodec>(
    db: &DBMap<K, V>,
    store: &Store,
    lower_bound_key: Option<&K>,
    upper_bound_key: Option<&K>,
) -> (it: SafeRevIter<K, V>)
    requires
        store.wf(),
        db.valid_for(*store),
    ensures
        it.wf(),
        it.model() == filtered(
            store.part_model(db.cf()),
            key_bound_view(lower_bound_key),
            key_bound_view(upper_bound_key),
            true,
        ),
        it.remaining == it.model().len(),
{
    match db.reversed_safe_iter_with_bounds(store, lower_bound_key, upper_bound_key) {
        Ok(it) => it,
        Err(_) => vstd::pervasive::unreached(),
    }
}

/// An ascending iterator between an inclusive lower and an exclusive
/// upper typed bound.
pub fn get_iter_with_bounds<K: KeyCodec, V: ValueCodec>(
    db: &DBMap<K, V>,
    store: &Store,
    lower_bound_key: Option<&K>,
    upper_bound_key: Option<&K>,
) -> (it: SafeIter<K, V>)
    requires
        store.wf(),
        db.valid_for(*store),
    ensures
        it.wf(),
        !it.initialized,
        it.model() == filtered(
            store.part_model(db.cf()),
            key_bound_view(lower_bound_key),
            key_bound_view(upper_bound_key),
            true,
        ),
{
    match db.safe_iter_with_bounds(store, lower_bound_key, upper_bound_key) {
        Ok(it) => it,
        Err(_) => vstd::pervasive::unreached(),
    }
}

/// An ascending iterator over a typed range.
pub fn get_range_iter<K: KeyCodec, V: ValueCodec>(
    db: &DBMap<K, V>,
    store: &Store,
    range: &KeyRange<K>,
) -> (it: SafeIter<K, V>)
    requires
        store.wf(),
        db.valid_for(*store),
    ensures
        it.wf(),
        !it.initialized,
        it.model() == filtered(
            store.part_model(db.cf()),
            range_lower_view(range.start),
            range_upper_view(range.end),
            true,
        ),
{
    match db.safe_range_iter(store, range) {
        Ok(it) => it,
        Err(_) => vstd::pervasive::unreached(),
    }
}

} // verus!
