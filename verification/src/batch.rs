//! The write batch: staged mutations, committed atomically.
//!
//! A batch captures the identity of the store it was created from. Every
//! staging call re-checks that identity and fails fast with a cross-store
//! error, so a caller can never believe it achieved atomicity across two
//! physical stores. Operations staged for several partitions of the one
//! store commit together.

use vstd::prelude::*;

use crate::codec::KeyCodec;
use crate::codec::ValueCodec;
use crate::engine::in_range;
use crate::error::TypedStoreError;
use crate::map::DBMap;
use crate::store::copy_bytes;
use crate::store::str_eq;
use crate::store::Store;

verus! {

/// One staged operation, at byte level.
pub enum BatchOp {
    Put { cf: usize, key: Vec<u8>, value: Vec<u8> },
    Delete { cf: usize, key: Vec<u8> },
    DeleteRange { cf: usize, start: Vec<u8>, end: Vec<u8> },
}

/// The mathematical reading of one staged operation.
pub enum OpModel {
    Put { cf: int, key: Seq<u8>, value: Seq<u8> },
    Delete { cf: int, key: Seq<u8> },
    DeleteRange { cf: int, start: Seq<u8>, end: Seq<u8> },
}

impl BatchOp {
    /// The operation's reading.
    pub open spec fn op_model(self) -> OpModel {
        match self {
            BatchOp::Put { cf, key, value } => OpModel::Put {
                cf: cf as int,
                key: key@,
                value: value@,
            },
            BatchOp::Delete { cf, key } => OpModel::Delete { cf: cf as int, key: key@ },
            BatchOp::DeleteRange { cf, start, end } => OpModel::DeleteRange {
                cf: cf as int,
                start: start@,
                end: end@,
            },
        }
    }
}

impl OpModel {
    /// The partition the operation touches.
    pub open spec fn cf_of(self) -> int {
        match self {
            OpModel::Put { cf, .. } => cf,
            OpModel::Delete { cf, .. } => cf,
            OpModel::DeleteRange { cf, .. } => cf,
        }
    }
}

/// The per-partition byte maps of a store.
pub open spec fn store_maps(s: Store) -> Seq<Map<Seq<u8>, Seq<u8>>> {
    Seq::new(s.partitions@.len(), |i: int| s.part_content(i))
}

/// What one operation does to the per-partition maps.
pub open spec fn apply_op(maps: Seq<Map<Seq<u8>, Seq<u8>>>, op: OpModel) -> Seq<
    Map<Seq<u8>, Seq<u8>>,
> {
    if 0 <= op.cf_of() < maps.len() {
        match op {
            OpModel::Put { cf, key, value } => maps.update(cf, maps[cf].insert(key, value)),
            OpModel::Delete { cf, key } => maps.update(cf, maps[cf].remove(key)),
            OpModel::DeleteRange { cf, start, end } => maps.update(
                cf,
                maps[cf].remove_keys(Set::new(|k: Seq<u8>| in_range(k, Some(start), Some(end)))),
            ),
        }
    } else {
        maps
    }
}

/// What a sequence of operations does, applied in staging order.
pub open spec fn apply_ops(maps: Seq<Map<Seq<u8>, Seq<u8>>>, ops: Seq<OpModel>) -> Seq<
    Map<Seq<u8>, Seq<u8>>,
>
    decreases ops.len(),
{
    if ops.len() == 0 {
        maps
    } else {
        apply_op(apply_ops(maps, ops.drop_last()), ops.last())
    }
}

/// The staged puts for `pairs` on partition `cf`.
pub open spec fn put_ops_model<K: KeyCodec, V: ValueCodec>(cf: int, pairs: Seq<(K, V)>) -> Seq<
    OpModel,
> {
    Seq::new(pairs.len(), |i: int| OpModel::Put { cf, key: pairs[i].0.kenc(), value: pairs[i].1.venc() })
}

/// The staged deletes for `keys` on partition `cf`.
pub open spec fn delete_ops_model<K: KeyCodec>(cf: int, keys: Seq<K>) -> Seq<OpModel> {
    Seq::new(keys.len(), |i: int| OpModel::Delete { cf, key: keys[i].kenc() })
}

/// An ordered group of staged operations bound to one originating store,
/// consumed by a single atomic commit.
///
/// The originating store's identity is its storage location: here every
/// store is an independent owned value, so two stores share a location
/// only if a caller opens them at the same path deliberately.
pub struct DBBatch {
    pub store_path: String,
    pub ops: Vec<BatchOp>,
}

impl DBBatch {
    /// The identity of the originating store.
    pub open spec fn bound_to(self) -> Seq<char> {
        self.store_path@
    }

    /// The staged operations, in order.
    pub open spec fn ops_model(self) -> Seq<OpModel> {
        Seq::new(self.ops@.len(), |i: int| self.ops@[i].op_model())
    }

    /// Stages a put for every pair, for `db`'s partition; a map bound to
    /// another store is rejected now, before any commit could mix stores.
    pub fn insert_batch<K: KeyCodec, V: ValueCodec>(
        &mut self,
        db: &DBMap<K, V>,
        pairs: &Vec<(K, V)>,
    ) -> (r: Result<(), TypedStoreError>)
        ensures
            (match r {
                Ok(_) => old(self).bound_to() == db.store_path@ && final(self).bound_to() == old(
                    self,
                ).bound_to() && final(self).ops_model() == old(self).ops_model() + put_ops_model(
                    db.cf(),
                    pairs@,
                ),
                Err(e) => e is CrossStoreBatchError && old(self).bound_to() != db.store_path@
                    && *final(self) == *old(self),
            }),
    {
        if !str_eq(self.store_path.as_str(), db.store_path.as_str()) {
            return Err(TypedStoreError::CrossStoreBatchError);
        }
        let ghost base = self.ops_model();
        let mut i: usize = 0;
        let n = pairs.len();
        while i < n
            invariant
                n == pairs@.len(),
                i <= n,
                self.store_path == old(self).store_path,
                self.ops_model().len() == base.len() + i,
                forall|j: int| 0 <= j < base.len() ==> self.ops_model()[j] == base[j],
                forall|j: int|
                    base.len() <= j < base.len() + i ==> self.ops_model()[j] == put_ops_model(
                        db.cf(),
                        pairs@,
                    )[j - base.len()],
            decreases n - i,
        {
            let ghost pre = self.ops@;
            let ghost pre_model = self.ops_model();
            let op = BatchOp::Put {
                cf: db.cf_index,
                key: pairs[i].0.encode_key(),
                value: pairs[i].1.encode_value(),
            };
            self.ops.push(op);
            proof {
                assert forall|j: int| 0 <= j < pre_model.len() implies self.ops_model()[j]
                    == pre_model[j] by {
                    assert(self.ops@[j] == pre[j]);
                }
                assert forall|j: int| base.len() <= j < base.len() + i + 1 implies self.ops_model()[j]
                    == put_ops_model(db.cf(), pairs@)[j - base.len()] by {
                    if j < base.len() + i {
                        assert(self.ops_model()[j] == pre_model[j]);
                        assert(pre_model[j] == put_ops_model(db.cf(), pairs@)[j - base.len()]);
                    } else {
                        assert(self.ops@[j] == op);
                        assert(self.ops_model()[j] == op.op_model());
                        assert(put_ops_model(db.cf(), pairs@)[i as int] == (OpModel::Put {
                            cf: db.cf(),
                            key: pairs@[i as int].0.kenc(),
                            value: pairs@[i as int].1.venc(),
                        }));
                    }
                }
            }
            i += 1;
        }
        proof {
            assert(self.ops_model() =~= base + put_ops_model(db.cf(), pairs@));
        }
        Ok(())
    }

    /// Stages a delete for every key, with the same cross-store check.
    pub fn delete_batch<K: KeyCodec, V: ValueCodec>(&mut self, db: &DBMap<K, V>, keys: &Vec<K>) -> (r:
        Result<(), TypedStoreError>)
        ensures
            (match r {
                Ok(_) => old(self).bound_to() == db.store_path@ && final(self).bound_to() == old(
                    self,
                ).bound_to() && final(self).ops_model() == old(self).ops_model() + delete_ops_model(
                    db.cf(),
                    keys@,
                ),
                Err(e) => e is CrossStoreBatchError && old(self).bound_to() != db.store_path@
                    && *final(self) == *old(self),
            }),
    {
        if !str_eq(self.store_path.as_str(), db.store_path.as_str()) {
            return Err(TypedStoreError::CrossStoreBatchError);
        }
        let ghost base = self.ops_model();
        let mut i: usize = 0;
        let n = keys.len();
        while i < n
            invariant
                n == keys@.len(),
                i <= n,
                self.store_path == old(self).store_path,
                self.ops_model().len() == base.len() + i,
                forall|j: int| 0 <= j < base.len() ==> self.ops_model()[j] == base[j],
                forall|j: int|
                    base.len() <= j < base.len() + i ==> self.ops_model()[j] == delete_ops_model(
                        db.cf(),
                        keys@,
                    )[j - base.len()],
            decreases n - i,
        {
            let ghost pre = self.ops@;
            let ghost pre_model = self.ops_model();
            let op = BatchOp::Delete { cf: db.cf_index, key: keys[i].encode_key() };
            self.ops.push(op);
            proof {
                assert forall|j: int| 0 <= j < pre_model.len() implies self.ops_model()[j]
                    == pre_model[j] by {
                    assert(self.ops@[j] == pre[j]);
                }
                assert forall|j: int| base.len() <= j < base.len() + i + 1 implies self.ops_model()[j]
                    == delete_ops_model(db.cf(), keys@)[j - base.len()] by {
                    if j < base.len() + i {
                        assert(self.ops_model()[j] == pre_model[j]);
                        assert(pre_model[j] == delete_ops_model(db.cf(), keys@)[j - base.len()]);
                    } else {
                        assert(self.ops@[j] == op);
                        assert(self.ops_model()[j] == op.op_model());
                        assert(delete_ops_model(db.cf(), keys@)[i as int] == (OpModel::Delete {
                            cf: db.cf(),
                            key: keys@[i as int].kenc(),
                        }));
                    }
                }
            }
            i += 1;
        }
        proof {
            assert(self.ops_model() =~= base + delete_ops_model(db.cf(), keys@));
        }
        Ok(())
    }

    /// Stages a deletion of the key range `start <= key < end`, end
    /// exclusive, within `db`'s partition.
    pub fn schedule_delete_range<K: KeyCodec, V: ValueCodec>(
        &mut self,
        db: &DBMap<K, V>,
        start: &K,
        end: &K,
    ) -> (r: Result<(), TypedStoreError>)
        ensures
            (match r {
                Ok(_) => old(self).bound_to() == db.store_path@ && final(self).bound_to() == old(
                    self,
                ).bound_to() && final(self).ops_model() == old(self).ops_model().push(
                    OpModel::DeleteRange { cf: db.cf(), start: start.kenc(), end: end.kenc() },
                ),
                Err(e) => e is CrossStoreBatchError && old(self).bound_to() != db.store_path@
                    && *final(self) == *old(self),
            }),
    {
        if !str_eq(self.store_path.as_str(), db.store_path.as_str()) {
            return Err(TypedStoreError::CrossStoreBatchError);
        }
        let op = BatchOp::DeleteRange {
            cf: db.cf_index,
            start: start.encode_key(),
            end: end.encode_key(),
        };
        self.ops.push(op);
        proof {
            assert(self.ops_model() =~= old(self).ops_model().push(
                OpModel::DeleteRange { cf: db.cf(), start: start.kenc(), end: end.kenc() },
            ));
        }
        Ok(())
    }

    /// Commits every staged operation atomically and consumes the batch:
    /// afterwards the store shows them all, applied in staging order.
    pub fn write(self, store: &mut Store) -> (r: Result<(), TypedStoreError>)
        requires
            old(store).wf(),
            self.bound_to() == old(store).path@,
        ensures
            r is Ok,
            final(store).wf(),
            old(store).same_shape(*final(store)),
            store_maps(*final(store)) == apply_ops(store_maps(*old(store)), self.ops_model()),
    {
        let ghost ops = self.ops_model();
        let ghost base = store_maps(*old(store));
        let mut i: usize = 0;
        let n = self.ops.len();
        proof {
            assert(ops.take(0) =~= Seq::<OpModel>::empty());
        }
        while i < n
            invariant
                n == ops.len(),
                n == self.ops@.len(),
                ops == self.ops_model(),
                i <= n,
                store.wf(),
                old(store).same_shape(*store),
                store_maps(*store) == apply_ops(base, ops.take(i as int)),
                base == store_maps(*old(store)),
            decreases n - i,
        {
            let ghost mid = store_maps(*store);
            proof {
                assert(ops[i as int] == self.ops@[i as int].op_model());
                assert(store.n_parts() == old(store).n_parts());
            }
            // an operation naming a partition the store does not hold is
            // skipped, exactly as the model's guard reads it
            match &self.ops[i] {
                BatchOp::Put { cf, key, value } => {
                    if *cf < store.partitions.len() {
                        store.put_bytes_in(*cf, copy_bytes(key), copy_bytes(value));
                    }
                },
                BatchOp::Delete { cf, key } => {
                    if *cf < store.partitions.len() {
                        store.remove_bytes_in(*cf, key);
                    }
                },
                BatchOp::DeleteRange { cf, start, end } => {
                    if *cf < store.partitions.len() {
                        store.delete_range_in(*cf, start, end);
                    }
                },
            }
            proof {
                let t1 = ops.take(i + 1);
                assert(t1.drop_last() =~= ops.take(i as int));
                assert(t1.last() == ops[i as int]);
                assert(store_maps(*store) =~= apply_op(mid, ops[i as int]));
            }
            i += 1;
        }
        proof {
            assert(ops.take(n as int) =~= ops);
        }
        Ok(())
    }
}

impl<K: KeyCodec, V: ValueCodec> DBMap<K, V> {
    /// An empty batch bound to this map's store.
    pub fn batch(&self) -> (b: DBBatch)
        ensures
            b.bound_to() == self.store_path@,
            b.ops_model() == Seq::<OpModel>::empty(),
    {
        let b = DBBatch { store_path: self.store_path.as_str().to_owned(), ops: Vec::new() };
        proof {
            assert(b.ops_model() =~= Seq::<OpModel>::empty());
        }
        b
    }
}

} // verus!
