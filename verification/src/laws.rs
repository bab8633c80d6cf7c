//! The library's laws, stated and proved once, for every key and value
//! type the codec admits.

use vstd::prelude::*;

use crate::codec::lemma_string_encoding_injective;
use crate::codec::KeyCodec;
use crate::codec::ValueCodec;
use crate::engine::in_range;
use crate::error::TypedStoreError;
use crate::iter::SafeIter;
use crate::iter::SafeRevIter;
use crate::map::content_after_puts;
use crate::map::content_after_removes;
use crate::order::lemma_lex_irreflexive;
use crate::order::lex_lt;

verus! {

/// Key encoding preserves order: `a < b` under the key type's natural
/// order exactly when `a`'s encoding sorts before `b`'s
/// byte-lexicographically.
pub proof fn lemma_encode_key_order_preserving<K: KeyCodec>(a: K, b: K)
    ensures
        a.klt(b) <==> lex_lt(a.kenc(), b.kenc()),
{
    K::lemma_enc_monotone(a, b);
}

/// Decoding inverts encoding: any decode result drawn from a key's own
/// encoding is that key, exactly.
pub proof fn lemma_decode_encode_key<K: KeyCodec>(k: K, r: Result<K, TypedStoreError>)
    requires
        (match r {
            Ok(k2) => k2.kenc() == k.kenc(),
            Err(_) => forall|w: K| w.kenc() != k.kenc(),
        }),
    ensures
        r == Ok::<K, TypedStoreError>(k),
{
    match r {
        Ok(k2) => {
            K::lemma_enc_injective(k2, k);
        },
        Err(_) => {
            assert(k.kenc() == k.kenc());
        },
    }
}

/// Decoding inverts encoding for values: any decode result drawn from a
/// value's own encoding succeeds, with the value's exact encoding.
pub proof fn lemma_decode_encode_value<V: ValueCodec>(v: V, r: Result<V, TypedStoreError>)
    requires
        (match r {
            Ok(w) => w.venc() == v.venc(),
            Err(_) => forall|w: V| w.venc() != v.venc(),
        }),
    ensures
        r is Ok,
        (match r {
            Ok(w) => w.venc() == v.venc(),
            Err(_) => false,
        }),
{
    if r is Err {
        assert(v.venc() == v.venc());
    }
}

/// For strings the inversion is exact up to the characters held: a
/// string decoded from `s`'s encoding reads back as `s`.
pub proof fn lemma_decode_encode_string(s: String, r: Result<String, TypedStoreError>)
    requires
        (match r {
            Ok(w) => w.venc() == s.venc(),
            Err(_) => forall|w: String| w.venc() != s.venc(),
        }),
    ensures
        (match r {
            Ok(w) => w@ == s@,
            Err(_) => false,
        }),
{
    lemma_decode_encode_value(s, r);
    match r {
        Ok(w) => {
            lemma_string_encoding_injective(w@, s@);
        },
        Err(_) => {},
    }
}

/// A forward iterator's snapshot yields keys in ascending natural
/// order: whatever two positions decode to is ordered as the positions
/// are.
pub proof fn lemma_iter_keys_ascending<K: KeyCodec, V: ValueCodec>(
    it: SafeIter<K, V>,
    i: int,
    j: int,
    ki: K,
    kj: K,
)
    requires
        it.wf(),
        0 <= i < j < it.model().len(),
        ki.kenc() == it.model()[i].0,
        kj.kenc() == it.model()[j].0,
    ensures
        ki.klt(kj),
{
    assert(lex_lt(it.model()[i].0, it.model()[j].0));
    K::lemma_enc_monotone(ki, kj);
}

/// A reverse iterator hands entries out from the back of the same
/// ascending snapshot, so whatever it yields descends: the key at a
/// later hand-out position is the smaller one.
pub proof fn lemma_rev_iter_keys_descending<K: KeyCodec, V: ValueCodec>(
    it: SafeRevIter<K, V>,
    i: int,
    j: int,
    ki: K,
    kj: K,
)
    requires
        it.wf(),
        0 <= i < j < it.model().len(),
        ki.kenc() == it.model()[i].0,
        kj.kenc() == it.model()[j].0,
    ensures
        ki.klt(kj),
{
    assert(lex_lt(it.model()[i].0, it.model()[j].0));
    K::lemma_enc_monotone(ki, kj);
}

/// A byte bound pair reads back as the typed bounds it encodes: a key
/// lies in `[lo, hi)` at byte level exactly when `lo <= k < hi` under
/// the key type's natural order.
pub proof fn lemma_range_membership<K: KeyCodec>(k: K, lo: K, hi: K)
    ensures
        in_range(k.kenc(), Some(lo.kenc()), Some(hi.kenc())) <==> ((lo.klt(k) || lo == k)
            && k.klt(hi)),
{
    K::lemma_enc_monotone(lo, k);
    K::lemma_enc_monotone(k, hi);
    if lo.kenc() == k.kenc() {
        K::lemma_enc_injective(lo, k);
    }
    if lo == k {
        lemma_lex_irreflexive(k.kenc());
    }
}

/// Writing many pairs lands each key at its pair's value: after the
/// batch, a key whose pair has no later duplicate reads back exactly
/// that pair's value.
pub proof fn lemma_multi_insert_lookup<K: KeyCodec, V: ValueCodec>(
    c: Map<Seq<u8>, Seq<u8>>,
    pairs: Seq<(K, V)>,
    i: int,
)
    requires
        0 <= i < pairs.len(),
        forall|j: int| i < j < pairs.len() ==> (#[trigger] pairs[j]).0.kenc() != pairs[i].0.kenc(),
    ensures
        content_after_puts(c, pairs).dom().contains(pairs[i].0.kenc()),
        content_after_puts(c, pairs)[pairs[i].0.kenc()] == pairs[i].1.venc(),
    decreases pairs.len(),
{
    if i == pairs.len() - 1 {
    } else {
        assert(pairs.drop_last()[i] == pairs[i]);
        assert forall|j: int| i < j < pairs.drop_last().len() implies (#[trigger] pairs.drop_last()[j]).0.kenc()
            != pairs.drop_last()[i].0.kenc() by {
            assert(pairs.drop_last()[j] == pairs[j]);
        }
        lemma_multi_insert_lookup(c, pairs.drop_last(), i);
        assert(pairs.last().0.kenc() != pairs[i].0.kenc());
    }
}

/// Writing many pairs touches no other key: a key none of the pairs
/// encodes to keeps its old binding, present or absent.
pub proof fn lemma_multi_insert_other<K: KeyCodec, V: ValueCodec>(
    c: Map<Seq<u8>, Seq<u8>>,
    pairs: Seq<(K, V)>,
    k: Seq<u8>,
)
    requires
        forall|j: int| 0 <= j < pairs.len() ==> (#[trigger] pairs[j]).0.kenc() != k,
    ensures
        content_after_puts(c, pairs).dom().contains(k) == c.dom().contains(k),
        c.dom().contains(k) ==> content_after_puts(c, pairs)[k] == c[k],
    decreases pairs.len(),
{
    if pairs.len() > 0 {
        assert forall|j: int| 0 <= j < pairs.drop_last().len() implies (#[trigger] pairs.drop_last()[j]).0.kenc()
            != k by {
            assert(pairs.drop_last()[j] == pairs[j]);
        }
        lemma_multi_insert_other(c, pairs.drop_last(), k);
        assert(pairs.last().0.kenc() != k);
    }
}

/// Removing many keys removes each of them.
pub proof fn lemma_multi_remove_gone<K: KeyCodec>(c: Map<Seq<u8>, Seq<u8>>, keys: Seq<K>, i: int)
    requires
        0 <= i < keys.len(),
    ensures
        !content_after_removes(c, keys).dom().contains(keys[i].kenc()),
    decreases keys.len(),
{
    if i < keys.len() - 1 {
        assert(keys.drop_last()[i] == keys[i]);
        lemma_multi_remove_gone(c, keys.drop_last(), i);
    }
}

/// Removing many keys touches no other key.
pub proof fn lemma_multi_remove_other<K: KeyCodec>(
    c: Map<Seq<u8>, Seq<u8>>,
    keys: Seq<K>,
    k: Seq<u8>,
)
    requires
        forall|j: int| 0 <= j < keys.len() ==> (#[trigger] keys[j]).kenc() != k,
    ensures
        content_after_removes(c, keys).dom().contains(k) == c.dom().contains(k),
        c.dom().contains(k) ==> content_after_removes(c, keys)[k] == c[k],
    decreases keys.len(),
{
    if keys.len() > 0 {
        assert forall|j: int| 0 <= j < keys.drop_last().len() implies (#[trigger] keys.drop_last()[j]).kenc()
            != k by {
            assert(keys.drop_last()[j] == keys[j]);
        }
        lemma_multi_remove_other(c, keys.drop_last(), k);
        assert(keys.last().kenc() != k);
    }
}

} // verus!
