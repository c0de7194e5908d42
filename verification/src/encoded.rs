//! Maps whose keys are written down as fixed-width bytes.

use vstd::prelude::*;

use crate::keys::{lemma_same_bytes, rank};

verus! {

/// What an index over written-down keys says of the keys themselves.
pub open spec fn decoded<K, V, const N: usize>(
    index: Map<[u8; N], V>,
    encode: spec_fn(K) -> Seq<u8>,
) -> Map<K, V> {
    Map::new(
        |key: K|
            exists|bytes: [u8; N]| #[trigger] index.contains_key(bytes) && bytes@ == encode(key),
        |key: K|
            index[choose|bytes: [u8; N]| #[trigger]
                index.contains_key(bytes) && bytes@ == encode(key)],
    )
}

/// Whether no two keys are written down alike.
pub open spec fn unambiguous<K>(encode: spec_fn(K) -> Seq<u8>) -> bool {
    forall|a: K, b: K| #[trigger] encode(a) == #[trigger] encode(b) ==> a == b
}

/// A key is held where the bytes that write it down are.
pub proof fn lemma_decoded<K, V, const N: usize>(
    index: Map<[u8; N], V>,
    encode: spec_fn(K) -> Seq<u8>,
    bytes: [u8; N],
    key: K,
)
    requires
        bytes@ == encode(key),
    ensures
        decoded(index, encode).contains_key(key) == index.contains_key(bytes),
        index.contains_key(bytes) ==> decoded(index, encode)[key] == index[bytes],
{
    assert forall|other: [u8; N]|
        index.contains_key(other) && other@ == encode(key) implies other == bytes by {
        lemma_same_bytes(other, bytes);
    }
}

/// Nothing is held in an empty index.
pub proof fn lemma_decoded_empty<K, V, const N: usize>(encode: spec_fn(K) -> Seq<u8>)
    ensures
        decoded(Map::<[u8; N], V>::empty(), encode) == Map::<K, V>::empty(),
{
    assert(decoded(Map::<[u8; N], V>::empty(), encode) =~= Map::<K, V>::empty());
}

/// Inserting at the bytes of a key inserts at the key.
pub proof fn lemma_decoded_insert<K, V, const N: usize>(
    index: Map<[u8; N], V>,
    encode: spec_fn(K) -> Seq<u8>,
    bytes: [u8; N],
    key: K,
    value: V,
)
    requires
        bytes@ == encode(key),
        unambiguous(encode),
    ensures
        decoded(index.insert(bytes, value), encode) == decoded(index, encode).insert(key, value),
{
    let after = index.insert(bytes, value);
    let left = decoded(after, encode);
    let right = decoded(index, encode).insert(key, value);
    lemma_decoded(after, encode, bytes, key);
    assert forall|other: K| other != key implies #[trigger] left.contains_key(other)
        == right.contains_key(other) && (left.contains_key(other) ==> left[other] == right[other]) by {
        if left.contains_key(other) {
            let b = choose|b: [u8; N]| #[trigger] after.contains_key(b) && b@ == encode(other);
            lemma_decoded(after, encode, b, other);
            lemma_decoded(index, encode, b, other);
            assert(b != bytes);
        }
        if right.contains_key(other) {
            let b = choose|b: [u8; N]| #[trigger] index.contains_key(b) && b@ == encode(other);
            lemma_decoded(after, encode, b, other);
            lemma_decoded(index, encode, b, other);
        }
    }
    assert(left =~= right);
}

/// Whether `keys` lists exactly the wanted keys, in ascending order.
pub open spec fn lists_exactly<const N: usize>(
    keys: Seq<[u8; N]>,
    wanted: Set<[u8; N]>,
) -> bool {
    &&& forall|i: int, j: int|
        0 <= i < j < keys.len() ==> rank(#[trigger] keys[i]) < rank(#[trigger] keys[j])
    &&& forall|key: [u8; N]| #[trigger] keys.contains(key) <==> wanted.contains(key)
}

} // verus!
