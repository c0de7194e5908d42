//! Keys of two segments.

use vstd::prelude::*;

use crate::key_map::{ascending, lemma_contents, KeyMap};
use crate::keys::{
    big_endian, key_space, lemma_big_endian_bound, lemma_big_endian_concat,
    lemma_big_endian_injective, lemma_same_bytes, rank, zero_key,
};

verus! {

/// Whether `key` is made of two segments.
pub open spec fn is_joined(key: [u8; 64], first: [u8; 32], second: [u8; 32]) -> bool {
    key@ == first@ + second@
}

/// Whether a map holds a key of two segments.
pub open spec fn holds_joined<V>(
    map: Map<[u8; 64], V>,
    first: [u8; 32],
    second: [u8; 32],
) -> bool {
    exists|key: [u8; 64]| #[trigger] map.contains_key(key) && is_joined(key, first, second)
}

/// A key of two segments.
pub fn join(first: &[u8; 32], second: &[u8; 32]) -> (key: [u8; 64])
    ensures
        is_joined(key, *first, *second),
{
    let mut key: [u8; 64] = [0; 64];
    let mut i: usize = 0;
    while i < 32
        invariant
            i <= 32,
            forall|j: int| 0 <= j < i ==> #[trigger] key@[j] == first@[j],
            forall|j: int| 0 <= j < i ==> #[trigger] key@[32 + j] == second@[j],
        decreases 32 - i,
    {
        key[i] = first[i];
        key[32 + i] = second[i];
        i = i + 1;
    }
    proof {
        let whole = first@ + second@;
        assert forall|j: int| 0 <= j < 64 implies key@[j] == #[trigger] whole[j] by {
            if j >= 32 {
                assert(key@[32 + (j - 32)] == second@[j - 32]);
            }
        }
        assert(key@ =~= whole);
    }
    key
}

/// The two segments of a key.
pub fn split(key: &[u8; 64]) -> (segments: ([u8; 32], [u8; 32]))
    ensures
        is_joined(*key, segments.0, segments.1),
{
    let mut first: [u8; 32] = [0; 32];
    let mut second: [u8; 32] = [0; 32];
    let mut i: usize = 0;
    while i < 32
        invariant
            i <= 32,
            forall|j: int| 0 <= j < i ==> #[trigger] first@[j] == key@[j],
            forall|j: int| 0 <= j < i ==> #[trigger] second@[j] == key@[32 + j],
        decreases 32 - i,
    {
        first[i] = key[i];
        second[i] = key[32 + i];
        i = i + 1;
    }
    assert(key@ =~= first@ + second@);
    (first, second)
}

/// The number that a key of two segments writes.
pub proof fn lemma_joined_rank(key: [u8; 64], first: [u8; 32], second: [u8; 32])
    requires
        is_joined(key, first, second),
    ensures
        rank(key) == rank(first) * key_space(32) + rank(second),
        rank(second) < key_space(32),
{
    lemma_big_endian_concat(first@, second@);
    lemma_big_endian_bound(second@);
}

/// A key between two keys of the same first segment has that segment too.
proof fn lemma_first_between(space: nat, low: nat, middle: nat, middle_low: nat, high_low: nat)
    requires
        low * space <= middle * space + middle_low <= low * space + high_low,
        middle_low < space,
        high_low < space,
    ensures
        middle == low,
{
    if low < middle {
        assert(middle * space >= low * space + space) by (nonlinear_arith)
            requires
                middle >= low + 1,
        ;
    } else if middle < low {
        assert(low * space >= middle * space + space) by (nonlinear_arith)
            requires
                low >= middle + 1,
        ;
    }
}

proof fn lemma_zeros(bytes: Seq<u8>)
    requires
        forall|i: int| 0 <= i < bytes.len() ==> bytes[i] == 0,
    ensures
        big_endian(bytes) == 0,
    decreases bytes.len(),
{
    if bytes.len() > 0 {
        lemma_zeros(bytes.drop_last());
    }
}

/// The second segments that a map holds behind a first one, in ascending order.
pub fn second_segments<V>(map: &KeyMap<64, V>, first: &[u8; 32]) -> (list: Vec<[u8; 32]>)
    ensures
        forall|i: int, j: int|
            0 <= i < j < list@.len() ==> rank(#[trigger] list@[i]) < rank(#[trigger] list@[j]),
        forall|second: [u8; 32]| #[trigger]
            list@.contains(second) <==> holds_joined(map@, *first, second),
        forall|key: [u8; 64]| #[trigger]
            map@.contains_key(key) && key@.take(32) == first@ ==> exists|i: int|
                0 <= i < list@.len() && #[trigger] list@[i]@ == key@.skip(32),
{
    let zeros: [u8; 32] = zero_key();
    let lowest = join(first, &zeros);
    let start: usize = map.search(&lowest);
    let entries = map.entries();
    let ghost all = entries@;
    let mut list: Vec<[u8; 32]> = Vec::new();
    let mut at: usize = start;
    proof {
        lemma_zeros(zeros@);
        lemma_joined_rank(lowest, *first, zeros);
    }
    while at < entries.len()
        invariant
            all == entries@,
            ascending(all),
            start <= at <= all.len(),
            list@.len() == at - start,
            forall|i: int|
                start <= i < at ==> is_joined(
                    #[trigger] all[i].0,
                    *first,
                    list@[i - start],
                ),
        ensures
            at == all.len() || exists|other: [u8; 32], second: [u8; 32]|
                other != *first && is_joined(all[at as int].0, other, second),
        decreases all.len() - at,
    {
        let (entry_first, entry_second) = split(&entries[at].0);
        if !crate::keys::same(&entry_first, first) {
            assert(is_joined(all[at as int].0, entry_first, entry_second));
            break;
        }
        list.push(entry_second);
        at = at + 1;
    }
    proof {
        lemma_contents(all);
        assert forall|i: int, j: int| 0 <= i < j < list@.len() implies rank(#[trigger] list@[i])
            < rank(#[trigger] list@[j]) by {
            let a = all[start + i].0;
            let b = all[start + j].0;
            assert(is_joined(a, *first, list@[start + i - start]));
            assert(is_joined(b, *first, list@[start + j - start]));
            lemma_joined_rank(a, *first, list@[i]);
            lemma_joined_rank(b, *first, list@[j]);
            assert(rank(all[start + i].0) < rank(all[start + j].0));
        }
        assert forall|key: [u8; 64]| #[trigger]
            map@.contains_key(key) && key@.take(32) == first@ implies exists|i: int|
            0 <= i < list@.len() && #[trigger] list@[i]@ == key@.skip(32) by {
            let tail_bytes = key@.skip(32);
            assert(key@ =~= first@ + tail_bytes);
            lemma_big_endian_concat(first@, tail_bytes);
            lemma_big_endian_bound(tail_bytes);
            let i = choose|i: int| 0 <= i < all.len() && #[trigger] all[i].0 == key;
            assert(map.list() == all);
            if i < start {
                assert(rank(map.list()[i].0) < rank(lowest));
            }
            if i >= at {
                let (other, tail) = choose|other: [u8; 32], tail: [u8; 32]|
                    other != *first && is_joined(all[at as int].0, other, tail);
                lemma_joined_rank(all[at as int].0, other, tail);
                if i > at {
                    assert(rank(all[at as int].0) < rank(all[i].0));
                }
                assert(rank(map.list()[at as int].0) >= rank(lowest));
                lemma_first_between(
                    key_space(32),
                    rank(*first),
                    rank(other),
                    rank(tail),
                    big_endian(tail_bytes),
                );
                lemma_big_endian_injective(other@, first@);
                lemma_same_bytes(other, *first);
            }
            assert(is_joined(all[i].0, *first, list@[i - start]));
            assert(key@.skip(32) =~= list@[i - start]@);
        }
        assert forall|second: [u8; 32]| #[trigger] list@.contains(second) <==> holds_joined(
            map@,
            *first,
            second,
        ) by {
            if list@.contains(second) {
                let i = choose|i: int| 0 <= i < list@.len() && list@[i] == second;
                let key = all[start + i].0;
                assert(is_joined(key, *first, list@[start + i - start]));
                assert(map@.contains_key(key));
            }
            if holds_joined(map@, *first, second) {
                let key = choose|key: [u8; 64]| #[trigger]
                    map@.contains_key(key) && is_joined(key, *first, second);
                assert(key@.take(32) =~= first@);
                assert(key@.skip(32) =~= second@);
                let i = choose|i: int|
                    0 <= i < list@.len() && #[trigger] list@[i]@ == key@.skip(32);
                lemma_same_bytes(list@[i], second);
                assert(list@[i] == second);
            }
        }
    }
    list
}

} // verus!
