//! Typed encode/decode of keys and values.
//!
//! Keys encode order-preservingly: for any two keys `a < b` under the key
//! type's natural order, `a`'s encoding sorts before `b`'s encoding in
//! byte-lexicographic order. Every range scan, seek and bound filter rests
//! on that invariant. Values encode plainly, with no ordering requirement.
//! Decoding never panics: malformed bytes are reported as a decode error.

use vstd::prelude::*;

use crate::error::TypedStoreError;
use crate::order::lex_lt;
use crate::order::lemma_lex_asymmetric;
use crate::order::lemma_lex_connected;
use crate::order::lemma_lex_irreflexive;
use vstd::utf8::decode_utf8;
use vstd::utf8::encode_utf8;
use vstd::utf8::encode_utf8_valid_utf8;
use vstd::utf8::valid_utf8;

verus! {

/// A key type with an order-preserving byte encoding.
///
/// `lemma_enc_monotone` is the load-bearing obligation here: it is what
/// makes iterating the byte-sorted partitions yield keys in their
/// natural order.
pub trait KeyCodec: Sized {
    /// The key type's natural strict order.
    spec fn klt(self, other: Self) -> bool;

    /// The key's byte encoding.
    spec fn kenc(self) -> Seq<u8>;

    /// Encodes the key.
    fn encode_key(&self) -> (r: Vec<u8>)
        ensures
            r@ == self.kenc(),
    ;

    /// Decodes a key; bytes that are no key's encoding give a decode error.
    fn decode_key(b: &[u8]) -> (r: Result<Self, TypedStoreError>)
        ensures
            (match r {
                Ok(k) => k.kenc() == b@,
                Err(e) => e is DecodeError && (forall|k: Self| k.kenc() != b@),
            }),
    ;

    /// Distinct keys have distinct encodings.
    proof fn lemma_enc_injective(a: Self, b: Self)
        ensures
            a.kenc() == b.kenc() ==> a == b,
    ;

    /// The encoding preserves the natural order of keys.
    proof fn lemma_enc_monotone(a: Self, b: Self)
        ensures
            a.klt(b) <==> lex_lt(a.kenc(), b.kenc()),
    ;
}

/// A value type with a plain byte encoding.
pub trait ValueCodec: Sized {
    /// The value's byte encoding.
    spec fn venc(self) -> Seq<u8>;

    /// Encodes the value.
    fn encode_value(&self) -> (r: Vec<u8>)
        ensures
            r@ == self.venc(),
    ;

    /// Decodes a value; bytes that are no value's encoding give a decode
    /// error.
    fn decode_value(b: &[u8]) -> (r: Result<Self, TypedStoreError>)
        ensures
            (match r {
                Ok(v) => v.venc() == b@,
                Err(e) => e is DecodeError && (forall|v: Self| v.venc() != b@),
            }),
    ;
}

/// Fixed-width big-endian bytes of a 32-bit value.
pub open spec fn be32(x: u32) -> Seq<u8> {
    seq![(x >> 24) as u8, (x >> 16) as u8, (x >> 8) as u8, x as u8]
}

/// The signed 32-bit range shifted into unsigned range, keeping the order.
pub open spec fn flip32(x: i32) -> u32 {
    ((x as int) + 0x8000_0000) as u32
}

/// Unfolds `lex_lt` on four-byte strings into byte comparisons.
proof fn lemma_lex4(x: Seq<u8>, y: Seq<u8>)
    requires
        x.len() == 4,
        y.len() == 4,
    ensures
        lex_lt(x, y) <==> (x[0] < y[0] || (x[0] == y[0] && (x[1] < y[1] || (x[1] == y[1] && (x[2]
            < y[2] || (x[2] == y[2] && x[3] < y[3])))))),
{
    reveal_with_fuel(lex_lt, 5);
    let x1 = x.drop_first();
    let y1 = y.drop_first();
    let x2 = x1.drop_first();
    let y2 = y1.drop_first();
    let x3 = x2.drop_first();
    let y3 = y2.drop_first();
    assert(x1.len() == 3 && x1[0] == x[1] && x1[1] == x[2] && x1[2] == x[3]);
    assert(y1.len() == 3 && y1[0] == y[1] && y1[1] == y[2] && y1[2] == y[3]);
    assert(x2.len() == 2 && x2[0] == x[2] && x2[1] == x[3]);
    assert(y2.len() == 2 && y2[0] == y[2] && y2[1] == y[3]);
    assert(x3.len() == 1 && x3[0] == x[3]);
    assert(y3.len() == 1 && y3[0] == y[3]);
}

/// Unfolds `lex_lt` on one-byte strings.
proof fn lemma_lex1(x: Seq<u8>, y: Seq<u8>)
    requires
        x.len() == 1,
        y.len() == 1,
    ensures
        lex_lt(x, y) <==> x[0] < y[0],
{
    reveal_with_fuel(lex_lt, 2);
    assert(x.drop_first().len() == 0);
    assert(y.drop_first().len() == 0);
}

proof fn lemma_be32_injective(a: u32, b: u32)
    ensures
        be32(a) == be32(b) ==> a == b,
{
    if be32(a) == be32(b) {
        assert(be32(a)[0] == be32(b)[0] && be32(a)[1] == be32(b)[1] && be32(a)[2] == be32(b)[2]
            && be32(a)[3] == be32(b)[3]);
        assert(((a >> 24) as u8 == (b >> 24) as u8 && (a >> 16) as u8 == (b >> 16) as u8 && (a
            >> 8) as u8 == (b >> 8) as u8 && a as u8 == b as u8) ==> a == b) by (bit_vector);
    }
}

proof fn lemma_be32_monotone(a: u32, b: u32)
    ensures
        a < b <==> lex_lt(be32(a), be32(b)),
{
    lemma_lex4(be32(a), be32(b));
    lemma_lex4(be32(b), be32(a));
    assert(a < b ==> (((a >> 24) as u8) < ((b >> 24) as u8) || ((a >> 24) as u8 == (b >> 24) as u8
        && (((a >> 16) as u8) < ((b >> 16) as u8) || ((a >> 16) as u8 == (b >> 16) as u8 && (((a
        >> 8) as u8) < ((b >> 8) as u8) || ((a >> 8) as u8 == (b >> 8) as u8 && (a as u8) < (
    b as u8)))))))) by (bit_vector);
    assert(b < a ==> (((b >> 24) as u8) < ((a >> 24) as u8) || ((b >> 24) as u8 == (a >> 24) as u8
        && (((b >> 16) as u8) < ((a >> 16) as u8) || ((b >> 16) as u8 == (a >> 16) as u8 && (((b
        >> 8) as u8) < ((a >> 8) as u8) || ((b >> 8) as u8 == (a >> 8) as u8 && (b as u8) < (
    a as u8)))))))) by (bit_vector);
    if a == b {
        lemma_lex_irreflexive(be32(a));
    }
    if lex_lt(be32(a), be32(b)) {
        lemma_lex_asymmetric(be32(a), be32(b));
    }
}

/// Builds the four big-endian bytes of `x`.
fn encode_be32(x: u32) -> (r: Vec<u8>)
    ensures
        r@ == be32(x),
{
    let mut r: Vec<u8> = Vec::new();
    r.push(#[verifier::truncate] ((x >> 24) as u8));
    r.push(#[verifier::truncate] ((x >> 16) as u8));
    r.push(#[verifier::truncate] ((x >> 8) as u8));
    r.push(#[verifier::truncate] (x as u8));
    proof {
        assert(r@ =~= be32(x));
    }
    r
}

/// Reads back a 32-bit value from its four big-endian bytes.
fn decode_be32(b: &[u8]) -> (r: Result<u32, TypedStoreError>)
    ensures
        (match r {
            Ok(x) => b@.len() == 4 && be32(x) == b@,
            Err(e) => e is DecodeError && b@.len() != 4,
        }),
{
    if b.len() != 4 {
        return Err(TypedStoreError::DecodeError);
    }
    let b0 = b[0];
    let b1 = b[1];
    let b2 = b[2];
    let b3 = b[3];
    let x: u32 = ((b0 as u32) << 24) | ((b1 as u32) << 16) | ((b2 as u32) << 8) | (b3 as u32);
    proof {
        assert((((((b0 as u32) << 24) | ((b1 as u32) << 16) | ((b2 as u32) << 8) | (b3 as u32))
            >> 24) as u8) == b0 && (((((b0 as u32) << 24) | ((b1 as u32) << 16) | ((b2 as u32) << 8)
            | (b3 as u32)) >> 16) as u8) == b1 && (((((b0 as u32) << 24) | ((b1 as u32) << 16) | ((
        b2 as u32) << 8) | (b3 as u32)) >> 8) as u8) == b2 && ((((b0 as u32) << 24) | ((b1 as u32)
            << 16) | ((b2 as u32) << 8) | (b3 as u32)) as u8) == b3) by (bit_vector);
        assert(be32(x) =~= b@);
    }
    Ok(x)
}

impl KeyCodec for u32 {
    open spec fn klt(self, other: Self) -> bool {
        self < other
    }

    open spec fn kenc(self) -> Seq<u8> {
        be32(self)
    }

    fn encode_key(&self) -> (r: Vec<u8>) {
        encode_be32(*self)
    }

    fn decode_key(b: &[u8]) -> (r: Result<Self, TypedStoreError>) {
        proof {
            if b@.len() != 4 {
                assert(forall|k: u32| k.kenc() != b@);
            }
        }
        decode_be32(b)
    }

    proof fn lemma_enc_injective(a: Self, b: Self) {
        lemma_be32_injective(a, b);
    }

    proof fn lemma_enc_monotone(a: Self, b: Self) {
        lemma_be32_monotone(a, b);
    }
}

impl KeyCodec for i32 {
    open spec fn klt(self, other: Self) -> bool {
        self < other
    }

    open spec fn kenc(self) -> Seq<u8> {
        be32(flip32(self))
    }

    fn encode_key(&self) -> (r: Vec<u8>) {
        let wide: i64 = (*self as i64) + 0x8000_0000i64;
        encode_be32(wide as u32)
    }

    fn decode_key(b: &[u8]) -> (r: Result<Self, TypedStoreError>) {
        proof {
            if b@.len() != 4 {
                assert(forall|k: i32| k.kenc() != b@);
            }
        }
        match decode_be32(b) {
            Ok(x) => {
                let wide: i64 = (x as i64) - 0x8000_0000i64;
                let k: i32 = wide as i32;
                proof {
                    assert(flip32(k) == x);
                }
                Ok(k)
            },
            Err(e) => Err(e),
        }
    }

    proof fn lemma_enc_injective(a: Self, b: Self) {
        lemma_be32_injective(flip32(a), flip32(b));
    }

    proof fn lemma_enc_monotone(a: Self, b: Self) {
        lemma_be32_monotone(flip32(a), flip32(b));
    }
}

impl KeyCodec for u8 {
    open spec fn klt(self, other: Self) -> bool {
        self < other
    }

    open spec fn kenc(self) -> Seq<u8> {
        seq![self]
    }

    fn encode_key(&self) -> (r: Vec<u8>) {
        let mut r: Vec<u8> = Vec::new();
        r.push(*self);
        proof {
            assert(r@ =~= self.kenc());
        }
        r
    }

    fn decode_key(b: &[u8]) -> (r: Result<Self, TypedStoreError>) {
        if b.len() == 1 {
            let k = b[0];
            proof {
                assert(k.kenc() =~= b@);
            }
            Ok(k)
        } else {
            proof {
                assert(forall|k: u8| k.kenc().len() == 1);
            }
            Err(TypedStoreError::DecodeError)
        }
    }

    proof fn lemma_enc_injective(a: Self, b: Self) {
        if a.kenc() == b.kenc() {
            assert(a.kenc()[0] == b.kenc()[0]);
        }
    }

    proof fn lemma_enc_monotone(a: Self, b: Self) {
        lemma_lex1(a.kenc(), b.kenc());
    }
}

/// Relies on `String::from_utf8` of std: it returns `Ok` exactly when the
/// input is valid UTF-8, and the returned string's UTF-8 bytes are the
/// input, unchanged.
#[verifier::external_body]
fn string_from_utf8(b: &[u8]) -> (r: Option<String>)
    ensures
        (match r {
            Some(s) => encode_utf8(s@) == b@ && valid_utf8(b@),
            None => !valid_utf8(b@),
        }),
{
    match String::from_utf8(b.to_vec()) {
        Ok(s) => Some(s),
        Err(_) => None,
    }
}

impl ValueCodec for String {
    open spec fn venc(self) -> Seq<u8> {
        encode_utf8(self@)
    }

    fn encode_value(&self) -> (r: Vec<u8>) {
        self.as_str().as_bytes_vec()
    }

    fn decode_value(b: &[u8]) -> (r: Result<Self, TypedStoreError>) {
        match string_from_utf8(b) {
            Some(s) => Ok(s),
            None => {
                proof {
                    assert forall|v: String| v.venc() != b@ by {
                        encode_utf8_valid_utf8(v@);
                    }
                }
                Err(TypedStoreError::DecodeError)
            },
        }
    }
}

impl ValueCodec for u8 {
    open spec fn venc(self) -> Seq<u8> {
        seq![self]
    }

    fn encode_value(&self) -> (r: Vec<u8>) {
        let mut r: Vec<u8> = Vec::new();
        r.push(*self);
        proof {
            assert(r@ =~= self.venc());
        }
        r
    }

    fn decode_value(b: &[u8]) -> (r: Result<Self, TypedStoreError>) {
        if b.len() == 1 {
            let v = b[0];
            proof {
                assert(v.venc() =~= b@);
            }
            Ok(v)
        } else {
            proof {
                assert(forall|v: u8| v.venc().len() == 1);
            }
            Err(TypedStoreError::DecodeError)
        }
    }
}

/// UTF-8 encoding is injective: equal value encodings mean equal strings.
pub proof fn lemma_string_encoding_injective(a: Seq<char>, b: Seq<char>)
    ensures
        encode_utf8(a) == encode_utf8(b) ==> a == b,
{
    if encode_utf8(a) == encode_utf8(b) {
        vstd::utf8::encode_utf8_decode_utf8(a);
        vstd::utf8::encode_utf8_decode_utf8(b);
    }
}

} // verus!
