//! The typed map: a typed view over one (store, partition) pair.
//!
//! A `DBMap` holds no data of its own; all state lives in the store it
//! was derived from, which every operation takes explicitly. Keys and
//! values cross the partition boundary only through the codec, so every
//! contract below speaks of `kenc` and `venc` images in the partition's
//! byte map.

use std::marker::PhantomData;

use vstd::prelude::*;

use crate::codec::KeyCodec;
use crate::codec::ValueCodec;
use crate::error::TypedStoreError;
use crate::store::Store;

verus! {

/// The partition name an open or reopen call asks for.
pub open spec fn cf_name_spec(opt_cf: Option<&str>) -> Seq<char> {
    match opt_cf {
        Some(n) => n@,
        None => "default"@,
    }
}

/// The byte map left after inserting the encodings of `pairs` in order.
pub open spec fn content_after_puts<K: KeyCodec, V: ValueCodec>(
    c: Map<Seq<u8>, Seq<u8>>,
    pairs: Seq<(K, V)>,
) -> Map<Seq<u8>, Seq<u8>>
    decreases pairs.len(),
{
    if pairs.len() == 0 {
        c
    } else {
        content_after_puts(c, pairs.drop_last()).insert(
            pairs.last().0.kenc(),
            pairs.last().1.venc(),
        )
    }
}

/// The byte map left after removing the encodings of `keys` in order.
pub open spec fn content_after_removes<K: KeyCodec>(
    c: Map<Seq<u8>, Seq<u8>>,
    keys: Seq<K>,
) -> Map<Seq<u8>, Seq<u8>>
    decreases keys.len(),
{
    if keys.len() == 0 {
        c
    } else {
        content_after_removes(c, keys.drop_last()).remove(keys.last().kenc())
    }
}

/// A typed map bound to one partition of one store.
pub struct DBMap<K, V> {
    pub store_path: String,
    pub cf_index: usize,
    pub key_marker: PhantomData<K>,
    pub value_marker: PhantomData<V>,
}

impl<K: KeyCodec, V: ValueCodec> DBMap<K, V> {
    /// The partition this map reads and writes.
    pub open spec fn cf(self) -> int {
        self.cf_index as int
    }

    /// The map was derived from this store and its partition exists.
    pub open spec fn valid_for(self, store: Store) -> bool {
        self.store_path@ == store.path@ && self.cf_index < store.n_parts()
    }

    /// The byte contents of this map's partition in `store`.
    pub open spec fn content(self, store: Store) -> Map<Seq<u8>, Seq<u8>> {
        store.part_content(self.cf())
    }

    /// Opens a fresh store at `path` holding one partition (named
    /// `opt_cf`, or a default name) and binds a typed map to it.
    pub fn open(path: String, opt_cf: Option<&str>) -> (r: (Store, DBMap<K, V>))
        ensures
            r.0.wf(),
            r.1.valid_for(r.0),
            r.0.path@ == path@,
            r.0.n_parts() == 1,
            r.1.cf() == 0,
            r.0.part_name(0) == cf_name_spec(opt_cf),
            r.1.content(r.0) == Map::<Seq<u8>, Seq<u8>>::empty(),
            r.0.part_model(0).len() == 0,
    {
        let name: &str = match opt_cf {
            Some(n) => n,
            None => "default",
        };
        let store_path = path.as_str().to_owned();
        let mut names: Vec<String> = Vec::new();
        names.push(name.to_owned());
        let store = Store::open(path, names);
        let map = DBMap {
            store_path,
            cf_index: 0,
            key_marker: PhantomData,
            value_marker: PhantomData,
        };
        (store, map)
    }

    /// Binds a typed map to an existing partition of `store`; a name the
    /// store does not hold is a hard error, never an auto-creation.
    pub fn reopen(store: &Store, opt_cf: Option<&str>) -> (r: Result<DBMap<K, V>, TypedStoreError>)
        ensures
            (match r {
                Ok(m) => m.valid_for(*store) && store.part_name(m.cf()) == cf_name_spec(opt_cf),
                Err(e) => e is PartitionNotFound && (forall|i: int|
                    0 <= i < store.n_parts() ==> store.part_name(i) != cf_name_spec(opt_cf)),
            }),
    {
        let name: &str = match opt_cf {
            Some(n) => n,
            None => "default",
        };
        match store.find_partition(name) {
            Some(i) => Ok(
                DBMap {
                    store_path: store.path.as_str().to_owned(),
                    cf_index: i,
                    key_marker: PhantomData,
                    value_marker: PhantomData,
                },
            ),
            None => Err(TypedStoreError::PartitionNotFound),
        }
    }

    /// Reads the value stored under `key`; an absent key yields `None`,
    /// not an error.
    pub fn get(&self, store: &Store, key: &K) -> (r: Result<Option<V>, TypedStoreError>)
        requires
            store.wf(),
            self.valid_for(*store),
        ensures
            (match r {
                Ok(opt) => (match opt {
                    Some(v) => self.content(*store).dom().contains(key.kenc()) && v.venc()
                        == self.content(*store)[key.kenc()],
                    None => !self.content(*store).dom().contains(key.kenc()),
                }),
                Err(e) => e is DecodeError && self.content(*store).dom().contains(key.kenc()) && (
                forall|v: V| v.venc() != self.content(*store)[key.kenc()]),
            }),
    {
        let enc = key.encode_key();
        match store.partitions[self.cf_index].get_bytes(&enc) {
            Some(bytes) => match V::decode_value(bytes.as_slice()) {
                Ok(v) => Ok(Some(v)),
                Err(e) => Err(e),
            },
            None => Ok(None),
        }
    }

    /// Whether `key` is present.
    pub fn contains_key(&self, store: &Store, key: &K) -> (r: Result<bool, TypedStoreError>)
        requires
            store.wf(),
            self.valid_for(*store),
        ensures
            r == Ok::<bool, TypedStoreError>(self.content(*store).dom().contains(key.kenc())),
    {
        let enc = key.encode_key();
        Ok(store.partitions[self.cf_index].contains_bytes(&enc))
    }

    /// Looks every key up, in order: the result has one slot per key, at
    /// the key's own position; missing keys yield `None` there, never an
    /// omission.
    pub fn multi_get(&self, store: &Store, keys: &Vec<K>) -> (r: Result<
        Vec<Option<V>>,
        TypedStoreError,
    >)
        requires
            store.wf(),
            self.valid_for(*store),
        ensures
            (match r {
                Ok(vals) => vals@.len() == keys@.len() && (forall|i: int|
                    0 <= i < keys@.len() ==> (match vals@[i] {
                        Some(v) => self.content(*store).dom().contains((#[trigger] keys@[i]).kenc())
                            && v.venc() == self.content(*store)[keys@[i].kenc()],
                        None => !self.content(*store).dom().contains(keys@[i].kenc()),
                    })),
                Err(e) => e is DecodeError && (exists|i: int|
                    0 <= i < keys@.len() && self.content(*store).dom().contains(
                        (#[trigger] keys@[i]).kenc(),
                    ) && (forall|v: V| v.venc() != self.content(*store)[keys@[i].kenc()])),
            }),
    {
        let mut vals: Vec<Option<V>> = Vec::new();
        let mut i: usize = 0;
        let n = keys.len();
        while i < n
            invariant
                store.wf(),
                self.valid_for(*store),
                n == keys@.len(),
                i <= n,
                vals@.len() == i,
                forall|j: int|
                    0 <= j < i ==> (match vals@[j] {
                        Some(v) => self.content(*store).dom().contains((#[trigger] keys@[j]).kenc())
                            && v.venc() == self.content(*store)[keys@[j].kenc()],
                        None => !self.content(*store).dom().contains(keys@[j].kenc()),
                    }),
            decreases n - i,
        {
            match self.get(store, &keys[i]) {
                Ok(opt) => {
                    vals.push(opt);
                },
                Err(e) => {
                    return Err(e);
                },
            }
            i += 1;
        }
        Ok(vals)
    }

    /// Tests every key, in order, with the same positional guarantee as
    /// `multi_get`.
    pub fn multi_contains_keys(&self, store: &Store, keys: &Vec<K>) -> (r: Result<
        Vec<bool>,
        TypedStoreError,
    >)
        requires
            store.wf(),
            self.valid_for(*store),
        ensures
            (match r {
                Ok(flags) => flags@.len() == keys@.len() && (forall|i: int|
                    0 <= i < keys@.len() ==> flags@[i] == self.content(*store).dom().contains(
                        (#[trigger] keys@[i]).kenc(),
                    )),
                Err(_) => false,
            }),
    {
        let mut flags: Vec<bool> = Vec::new();
        let mut i: usize = 0;
        let n = keys.len();
        while i < n
            invariant
                store.wf(),
                self.valid_for(*store),
                n == keys@.len(),
                i <= n,
                flags@.len() == i,
                forall|j: int|
                    0 <= j < i ==> flags@[j] == self.content(*store).dom().contains(
                        (#[trigger] keys@[j]).kenc(),
                    ),
            decreases n - i,
        {
            let enc = keys[i].encode_key();
            flags.push(store.partitions[self.cf_index].contains_bytes(&enc));
            i += 1;
        }
        Ok(flags)
    }

    /// Writes one entry, immediately durable.
    pub fn insert(&self, store: &mut Store, key: &K, value: &V) -> (r: Result<
        (),
        TypedStoreError,
    >)
        requires
            old(store).wf(),
            self.valid_for(*old(store)),
        ensures
            r is Ok,
            final(store).wf(),
            old(store).same_shape(*final(store)),
            self.content(*final(store)) == self.content(*old(store)).insert(
                key.kenc(),
                value.venc(),
            ),
            forall|j: int|
                0 <= j < old(store).n_parts() && j != self.cf() ==> final(store).partitions@[j]
                    == old(store).partitions@[j],
    {
        store.put_bytes_in(self.cf_index, key.encode_key(), value.encode_value());
        Ok(())
    }

    /// Removes one entry, immediately durable; removing an absent key
    /// succeeds with no effect.
    pub fn remove(&self, store: &mut Store, key: &K) -> (r: Result<(), TypedStoreError>)
        requires
            old(store).wf(),
            self.valid_for(*old(store)),
        ensures
            r is Ok,
            final(store).wf(),
            old(store).same_shape(*final(store)),
            self.content(*final(store)) == self.content(*old(store)).remove(key.kenc()),
            forall|j: int|
                0 <= j < old(store).n_parts() && j != self.cf() ==> final(store).partitions@[j]
                    == old(store).partitions@[j],
    {
        let enc = key.encode_key();
        store.remove_bytes_in(self.cf_index, &enc);
        Ok(())
    }

    /// Writes every pair, as one atomic batch: afterwards the partition
    /// holds them all.
    pub fn multi_insert(&self, store: &mut Store, pairs: &Vec<(K, V)>) -> (r: Result<
        (),
        TypedStoreError,
    >)
        requires
            old(store).wf(),
            self.valid_for(*old(store)),
        ensures
            r is Ok,
            final(store).wf(),
            old(store).same_shape(*final(store)),
            self.content(*final(store)) == content_after_puts(self.content(*old(store)), pairs@),
            forall|j: int|
                0 <= j < old(store).n_parts() && j != self.cf() ==> final(store).partitions@[j]
                    == old(store).partitions@[j],
    {
        let mut i: usize = 0;
        let n = pairs.len();
        proof {
            assert(pairs@.take(0) =~= Seq::<(K, V)>::empty());
        }
        while i < n
            invariant
                self.valid_for(*old(store)),
                n == pairs@.len(),
                i <= n,
                store.wf(),
                old(store).same_shape(*store),
                self.content(*store) == content_after_puts(
                    self.content(*old(store)),
                    pairs@.take(i as int),
                ),
                forall|j: int|
                    0 <= j < old(store).n_parts() && j != self.cf() ==> store.partitions@[j] == old(
                        store,
                    ).partitions@[j],
            decreases n - i,
        {
            store.put_bytes_in(
                self.cf_index,
                pairs[i].0.encode_key(),
                pairs[i].1.encode_value(),
            );
            proof {
                let t1 = pairs@.take(i + 1);
                assert(t1.drop_last() =~= pairs@.take(i as int));
                assert(t1.last() == pairs@[i as int]);
            }
            i += 1;
        }
        proof {
            assert(pairs@.take(n as int) =~= pairs@);
        }
        Ok(())
    }

    /// Removes every key, as one atomic batch.
    pub fn multi_remove(&self, store: &mut Store, keys: &Vec<K>) -> (r: Result<
        (),
        TypedStoreError,
    >)
        requires
            old(store).wf(),
            self.valid_for(*old(store)),
        ensures
            r is Ok,
            final(store).wf(),
            old(store).same_shape(*final(store)),
            self.content(*final(store)) == content_after_removes(self.content(*old(store)), keys@),
            forall|j: int|
                0 <= j < old(store).n_parts() && j != self.cf() ==> final(store).partitions@[j]
                    == old(store).partitions@[j],
    {
        let mut i: usize = 0;
        let n = keys.len();
        proof {
            assert(keys@.take(0) =~= Seq::<K>::empty());
        }
        while i < n
            invariant
                self.valid_for(*old(store)),
                n == keys@.len(),
                i <= n,
                store.wf(),
                old(store).same_shape(*store),
                self.content(*store) == content_after_removes(
                    self.content(*old(store)),
                    keys@.take(i as int),
                ),
                forall|j: int|
                    0 <= j < old(store).n_parts() && j != self.cf() ==> store.partitions@[j] == old(
                        store,
                    ).partitions@[j],
            decreases n - i,
        {
            let enc = keys[i].encode_key();
            store.remove_bytes_in(self.cf_index, &enc);
            proof {
                let t1 = keys@.take(i + 1);
                assert(t1.drop_last() =~= keys@.take(i as int));
                assert(t1.last() == keys@[i as int]);
            }
            i += 1;
        }
        proof {
            assert(keys@.take(n as int) =~= keys@);
        }
        Ok(())
    }

    /// True exactly when the partition holds no entry; correct
    /// immediately after `unsafe_clear`.
    pub fn is_empty(&self, store: &Store) -> (r: bool)
        requires
            store.wf(),
            self.valid_for(*store),
        ensures
            r == (store.part_model(self.cf()).len() == 0),
            r == (self.content(*store) == Map::<Seq<u8>, Seq<u8>>::empty()),
    {
        store.partitions[self.cf_index].is_empty()
    }

    /// Removes every entry of the partition. Idempotent, and the
    /// partition stays fully readable and writable afterwards.
    pub fn unsafe_clear(&self, store: &mut Store) -> (r: Result<(), TypedStoreError>)
        requires
            old(store).wf(),
            self.valid_for(*old(store)),
        ensures
            r is Ok,
            final(store).wf(),
            old(store).same_shape(*final(store)),
            final(store).part_model(self.cf()).len() == 0,
            self.content(*final(store)) == Map::<Seq<u8>, Seq<u8>>::empty(),
            forall|j: int|
                0 <= j < old(store).n_parts() && j != self.cf() ==> final(store).partitions@[j]
                    == old(store).partitions@[j],
    {
        store.clear_in(self.cf_index);
        Ok(())
    }
}

/// Opens a store at `path` with one partition and a typed map over it.
pub fn open_map<K: KeyCodec, V: ValueCodec>(path: String, opt_cf: Option<&str>) -> (r: (
    Store,
    DBMap<K, V>,
))
    ensures
        r.0.wf(),
        r.1.valid_for(r.0),
        r.0.n_parts() == 1,
        r.1.cf() == 0,
        r.0.part_name(0) == cf_name_spec(opt_cf),
        r.1.content(r.0) == Map::<Seq<u8>, Seq<u8>>::empty(),
{
    DBMap::<K, V>::open(path, opt_cf)
}

/// Opens a store at `path` holding one empty partition per name.
pub fn open_rocksdb(path: String, cf_names: Vec<String>) -> (s: Store)
    ensures
        s.wf(),
        s.path == path,
        s.n_parts() == cf_names@.len(),
        forall|i: int|
            0 <= i < s.n_parts() ==> s.part_name(i) == cf_names@[i]@ && s.part_content(i) == Map::<
                Seq<u8>,
                Seq<u8>,
            >::empty(),
{
    Store::open(path, cf_names)
}

} // verus!
