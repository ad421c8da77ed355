//! The stable hash of values and keys. It depends on the values alone, so
//! that it is the same in every process and on every machine.

use vstd::prelude::*;
use vstd::utf8::encode_utf8;
use crate::value::{DataType, Value};

verus! {

/// The start value of the byte hash.
pub const HASH_OFFSET: u64 = 0xcbf2_9ce4_8422_2325;

/// The factor of the byte hash.
pub const HASH_PRIME: u64 = 0x0000_0100_0000_01b3;

/// The hash of a sequence of bytes: starting from [`HASH_OFFSET`], each byte
/// in turn is combined into the hash by exclusive or, and the hash is then
/// multiplied by [`HASH_PRIME`] modulo 2^64.
pub open spec fn bytes_hash(bytes: Seq<u8>) -> u64
    decreases bytes.len(),
{
    if bytes.len() == 0 {
        HASH_OFFSET
    } else {
        (bytes_hash(bytes.drop_last()) ^ (bytes.last() as u64)).wrapping_mul(HASH_PRIME)
    }
}

/// The hash of a value. It depends on the value alone: null hashes to 0, an
/// integer to itself modulo 2^64, and a text to the hash of its UTF-8
/// bytes.
pub open spec fn value_hash(v: Value) -> u64 {
    match v {
        Value::Null => 0,
        Value::Int(i) => (i % 0x1_0000_0000_0000_0000) as u64,
        Value::Text(s) => bytes_hash(encode_utf8(s)),
    }
}

/// The hash of a key: starting from [`HASH_OFFSET`], the hash of each value
/// in turn is combined into the hash by exclusive or, and the hash is then
/// multiplied by [`HASH_PRIME`] modulo 2^64.
pub open spec fn key_hash(k: Seq<Value>) -> u64
    decreases k.len(),
{
    if k.len() == 0 {
        HASH_OFFSET
    } else {
        (key_hash(k.drop_last()) ^ value_hash(k.last())).wrapping_mul(HASH_PRIME)
    }
}

/// The hash of a sequence of bytes.
pub fn hash_bytes(bytes: &[u8]) -> (h: u64)
    ensures
        h == bytes_hash(bytes@),
{
    let mut h: u64 = HASH_OFFSET;
    let mut i: usize = 0;
    assert(bytes@.take(0) =~= Seq::<u8>::empty());
    while i < bytes.len()
        invariant
            i <= bytes.len(),
            h == bytes_hash(bytes@.take(i as int)),
        decreases bytes.len() - i,
    {
        proof {
            let longer = bytes@.take(i + 1);
            assert(longer.drop_last() =~= bytes@.take(i as int));
            assert(longer.last() == bytes[i as int]);
        }
        h = (h ^ (bytes[i] as u64)).wrapping_mul(HASH_PRIME);
        i += 1;
    }
    assert(bytes@.take(i as int) =~= bytes@);
    h
}

/// The hash of a value.
pub fn hash_value(dt: &DataType) -> (h: u64)
    ensures
        h == value_hash(dt@),
{
    match dt {
        DataType::Null => 0,
        DataType::Int(n) => {
            if *n >= 0 {
                *n as u64
            } else {
                u64::MAX - ((-(*n + 1)) as u64)
            }
        },
        DataType::Text(s) => hash_bytes(s.as_str().as_bytes()),
    }
}

/// The hash of a key.
pub fn hash_key(key: &[DataType]) -> (h: u64)
    ensures
        h == key_hash(key.deep_view()),
{
    let ghost k = key.deep_view();
    let mut h: u64 = HASH_OFFSET;
    let mut i: usize = 0;
    assert(k.take(0) =~= Seq::<Value>::empty());
    while i < key.len()
        invariant
            i <= key.len(),
            k == key.deep_view(),
            h == key_hash(k.take(i as int)),
        decreases key.len() - i,
    {
        proof {
            let longer = k.take(i + 1);
            assert(longer.drop_last() =~= k.take(i as int));
            assert(longer.last() == key[i as int]@);
        }
        h = (h ^ hash_value(&key[i])).wrapping_mul(HASH_PRIME);
        i += 1;
    }
    assert(k.take(i as int) =~= k);
    h
}

} // verus!
