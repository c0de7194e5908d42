//! Fixed-width byte keys and their order.
//!
//! A key is read as the number that its bytes write in big-endian notation, so
//! that the byte-wise lexicographic order of keys of one width is the order of
//! those numbers.

use vstd::prelude::*;

verus! {

/// The number that `bytes` writes in big-endian notation.
pub open spec fn big_endian(bytes: Seq<u8>) -> nat
    decreases bytes.len(),
{
    if bytes.len() == 0 {
        0
    } else {
        big_endian(bytes.drop_last()) * 256 + bytes.last() as nat
    }
}

/// How many keys of `width` bytes there are.
pub open spec fn key_space(width: nat) -> nat
    decreases width,
{
    if width == 0 {
        1
    } else {
        key_space((width - 1) as nat) * 256
    }
}

/// A number written in `bytes` is below the size of its key space.
pub proof fn lemma_big_endian_bound(bytes: Seq<u8>)
    ensures
        big_endian(bytes) < key_space(bytes.len()),
    decreases bytes.len(),
{
    if bytes.len() > 0 {
        lemma_big_endian_bound(bytes.drop_last());
    }
}

/// Leading bytes weigh by the key space of the bytes behind them.
pub proof fn lemma_big_endian_concat(high: Seq<u8>, low: Seq<u8>)
    ensures
        big_endian(high + low) == big_endian(high) * key_space(low.len()) + big_endian(low),
    decreases low.len(),
{
    if low.len() == 0 {
        assert(high + low =~= high);
        assert(key_space(low.len()) == 1);
        assert(big_endian(high) * 1 == big_endian(high));
    } else {
        assert((high + low).drop_last() =~= high + low.drop_last());
        assert((high + low).last() == low.last());
        lemma_big_endian_concat(high, low.drop_last());
        let h = big_endian(high);
        let s = key_space((low.len() - 1) as nat);
        let l = big_endian(low.drop_last());
        assert(low.drop_last().len() == low.len() - 1);
        assert(key_space(low.len()) == s * 256);
        assert((h * s + l) * 256 == h * (s * 256) + l * 256) by (nonlinear_arith);
    }
}

/// Two keys of one width that write the same number are the same key.
pub proof fn lemma_big_endian_injective(a: Seq<u8>, b: Seq<u8>)
    requires
        a.len() == b.len(),
        big_endian(a) == big_endian(b),
    ensures
        a == b,
    decreases a.len(),
{
    if a.len() > 0 {
        lemma_big_endian_injective(a.drop_last(), b.drop_last());
        assert(a =~= a.drop_last().push(a.last()));
        assert(b =~= b.drop_last().push(b.last()));
    } else {
        assert(a =~= b);
    }
}

/// The first byte in which two keys differ decides their order.
pub proof fn lemma_first_difference(a: Seq<u8>, b: Seq<u8>, at: int)
    requires
        a.len() == b.len(),
        0 <= at < a.len(),
        forall|i: int| 0 <= i < at ==> a[i] == b[i],
        a[at] < b[at],
    ensures
        big_endian(a) < big_endian(b),
{
    let a_high = a.subrange(0, at + 1);
    let b_high = b.subrange(0, at + 1);
    let a_low = a.subrange(at + 1, a.len() as int);
    let b_low = b.subrange(at + 1, b.len() as int);
    assert(a =~= a_high + a_low);
    assert(b =~= b_high + b_low);
    lemma_big_endian_concat(a_high, a_low);
    lemma_big_endian_concat(b_high, b_low);
    lemma_big_endian_bound(a_low);
    assert(a_high.drop_last() =~= b_high.drop_last());
    assert(big_endian(a_high) + 1 <= big_endian(b_high));
    let x = big_endian(a_high);
    let y = big_endian(b_high);
    let s = key_space(a_low.len());
    assert(x * s + s <= y * s) by (nonlinear_arith)
        requires
            x + 1 <= y,
    ;
}

/// Two fixed-width keys are equal when their bytes are.
pub proof fn lemma_same_bytes<const N: usize>(a: [u8; N], b: [u8; N])
    requires
        a@ == b@,
    ensures
        a == b,
{
    assert forall|i: int| 0 <= i < N implies a[i] == b[i] by {
        assert(a@[i] == b@[i]);
    }
    assert(a =~= b);
}

/// The number that a fixed-width key writes.
pub open spec fn rank<const N: usize>(key: [u8; N]) -> nat {
    big_endian(key@)
}

/// Two fixed-width keys of equal rank are equal.
pub proof fn lemma_rank_injective<const N: usize>(a: [u8; N], b: [u8; N])
    requires
        rank(a) == rank(b),
    ensures
        a == b,
{
    lemma_big_endian_injective(a@, b@);
    lemma_same_bytes(a, b);
}

/// The least key of its width.
pub fn zero_key<const N: usize>() -> (key: [u8; N])
    ensures
        key@ == Seq::new(N as nat, |i: int| 0u8),
{
    let key: [u8; N] = [0; N];
    assert(key@ =~= Seq::new(N as nat, |i: int| 0u8)) by {
        assert(key == vstd::array::spec_array_fill_for_copy_type::<u8, N>(0u8));
        assert forall|i: int| 0 <= i < N implies key@[i] == 0 by {
            assert(vstd::array::spec_array_fill_for_copy_type::<u8, N>(0u8).view()[i] == 0);
        }
    }
    key
}

/// Where one key stands relative to another.
#[derive(Clone, Copy, Debug, PartialEq, Eq, Structural)]
pub enum Position {
    Before,
    Same,
    After,
}

/// Where `a` stands relative to `b` in byte-wise lexicographic order.
pub fn position<const N: usize>(a: &[u8; N], b: &[u8; N]) -> (at: Position)
    ensures
        at == Position::Before <==> rank(*a) < rank(*b),
        at == Position::Same <==> *a == *b,
        at == Position::After <==> rank(*a) > rank(*b),
{
    let mut i: usize = 0;
    while i < N
        invariant
            i <= N,
            forall|j: int| 0 <= j < i ==> a@[j] == b@[j],
        decreases N - i,
    {
        if a[i] < b[i] {
            proof {
                lemma_first_difference(a@, b@, i as int);
            }
            return Position::Before;
        }
        if a[i] > b[i] {
            proof {
                lemma_first_difference(b@, a@, i as int);
            }
            return Position::After;
        }
        i = i + 1;
    }
    proof {
        assert(a@ =~= b@);
        lemma_same_bytes(*a, *b);
    }
    Position::Same
}

/// Whether two keys hold the same bytes.
pub fn same<const N: usize>(a: &[u8; N], b: &[u8; N]) -> (equal: bool)
    ensures
        equal == (*a == *b),
{
    match position(a, b) {
        Position::Same => true,
        _ => false,
    }
}

/// The bytes with every bit flipped.
pub open spec fn complement(bytes: Seq<u8>) -> Seq<u8> {
    Seq::new(bytes.len(), |i: int| !bytes[i])
}

/// The bytes in which the bits are set that differ between `a` and `b`.
pub open spec fn xor(a: Seq<u8>, b: Seq<u8>) -> Seq<u8> {
    Seq::new(a.len(), |i: int| a[i] ^ b[i])
}

/// Flipping every bit reverses the order of keys.
pub proof fn lemma_complement(bytes: Seq<u8>)
    ensures
        big_endian(complement(bytes)) + big_endian(bytes) + 1 == key_space(bytes.len()),
    decreases bytes.len(),
{
    if bytes.len() > 0 {
        let flipped = complement(bytes);
        assert(flipped.drop_last() =~= complement(bytes.drop_last()));
        lemma_complement(bytes.drop_last());
        let last = bytes.last();
        assert(flipped.last() == !last);
        assert(!last == 255 - last) by (bit_vector);
    }
}

/// Flipping every bit twice gives the bytes back.
pub proof fn lemma_complement_twice(bytes: Seq<u8>)
    ensures
        complement(complement(bytes)) == bytes,
{
    assert forall|i: int| 0 <= i < bytes.len() implies !!#[trigger] bytes[i] == bytes[i] by {
        let b = bytes[i];
        assert(!!b == b) by (bit_vector);
    }
    assert(complement(complement(bytes)) =~= bytes);
}

/// A key with every bit flipped.
pub fn flip(key: &[u8; 32]) -> (flipped: [u8; 32])
    ensures
        flipped@ == complement(key@),
{
    let mut flipped: [u8; 32] = [0; 32];
    let mut i: usize = 0;
    while i < 32
        invariant
            i <= 32,
            forall|j: int| 0 <= j < i ==> #[trigger] flipped@[j] == !key@[j],
        decreases 32 - i,
    {
        flipped[i] = !key[i];
        i = i + 1;
    }
    assert(flipped@ =~= complement(key@));
    flipped
}

/// The bits that differ between two keys.
pub fn difference(a: &[u8; 32], b: &[u8; 32]) -> (bits: [u8; 32])
    ensures
        bits@ == xor(a@, b@),
{
    let mut bits: [u8; 32] = [0; 32];
    let mut i: usize = 0;
    while i < 32
        invariant
            i <= 32,
            forall|j: int| 0 <= j < i ==> #[trigger] bits@[j] == a@[j] ^ b@[j],
        decreases 32 - i,
    {
        bits[i] = a[i] ^ b[i];
        i = i + 1;
    }
    assert(bits@ =~= xor(a@, b@));
    bits
}

/// The difference to a point, taken twice, gives the bytes back.
pub proof fn lemma_xor_twice(a: Seq<u8>, b: Seq<u8>)
    requires
        a.len() == b.len(),
    ensures
        xor(xor(a, b), b) == a,
{
    assert forall|i: int| 0 <= i < a.len() implies (#[trigger] a[i] ^ b[i]) ^ b[i] == a[i] by {
        let x = a[i];
        let y = b[i];
        assert((x ^ y) ^ y == x) by (bit_vector);
    }
    assert(xor(xor(a, b), b) =~= a);
}

/// Two keys are equally far from a point only if they are the same.
pub proof fn lemma_xor_injective(a: Seq<u8>, b: Seq<u8>, point: Seq<u8>)
    requires
        a.len() == point.len(),
        b.len() == point.len(),
        xor(a, point) == xor(b, point),
    ensures
        a == b,
{
    lemma_xor_twice(a, point);
    lemma_xor_twice(b, point);
}

/// Eight bytes write every 64-bit number.
pub proof fn lemma_eight_bytes()
    ensures
        key_space(8) == 0x1_0000_0000_0000_0000,
        key_space(4) == 0x1_0000_0000,
{
    reveal_with_fuel(key_space, 9);
}

/// Fewer bytes write fewer numbers.
pub proof fn lemma_key_space_monotone(narrow: nat, wide: nat)
    requires
        narrow <= wide,
    ensures
        0 < key_space(narrow) <= key_space(wide),
    decreases wide,
{
    if narrow < wide {
        lemma_key_space_monotone(narrow, (wide - 1) as nat);
    } else if wide > 0 {
        lemma_key_space_monotone((wide - 1) as nat, (wide - 1) as nat);
    }
}

/// The number that at most eight bytes write.
pub fn read_be(bytes: &[u8]) -> (value: u64)
    requires
        bytes@.len() <= 8,
    ensures
        value == big_endian(bytes@),
{
    let mut value: u64 = 0;
    let mut i: usize = 0;
    assert(bytes@.take(0) =~= Seq::empty());
    while i < bytes.len()
        invariant
            i <= bytes@.len() <= 8,
            value == big_endian(bytes@.take(i as int)),
        decreases bytes@.len() - i,
    {
        proof {
            let next = bytes@.take(i + 1);
            assert(next.drop_last() =~= bytes@.take(i as int));
            lemma_big_endian_bound(next);
            lemma_key_space_monotone((i + 1) as nat, 8);
            lemma_eight_bytes();
        }
        value = value * 256 + bytes[i] as u64;
        i = i + 1;
    }
    assert(bytes@.take(i as int) =~= bytes@);
    value
}

/// The last `N` bytes of a number in big-endian notation; all of it, if it fits.
pub fn write_be<const N: usize>(value: u64) -> (bytes: [u8; N])
    ensures
        value < key_space(N as nat) ==> rank(bytes) == value,
{
    let mut bytes: [u8; N] = [0; N];
    let mut rest: u64 = value;
    let mut i: usize = N;
    assert(bytes@.subrange(N as int, N as int) =~= Seq::empty());
    assert(value as nat * 1 == value);
    while i > 0
        invariant
            i <= N,
            bytes@.len() == N,
            big_endian(bytes@.subrange(i as int, N as int)) + rest as nat * key_space((N - i) as nat)
                == value,
        decreases i,
    {
        let ghost before = bytes@;
        let byte: u8 = (rest % 256) as u8;
        i = i - 1;
        bytes[i] = byte;
        proof {
            let low = before.subrange(i + 1, N as int);
            let high = seq![byte];
            assert(bytes@.subrange(i as int, N as int) =~= high + low);
            lemma_big_endian_concat(high, low);
            assert(high.drop_last() =~= Seq::empty());
            assert(big_endian(high) == byte as nat) by {
                reveal_with_fuel(big_endian, 2);
            }
            let space = key_space((N - i - 1) as nat);
            let quotient = rest as nat / 256;
            assert(rest as nat == quotient * 256 + byte as nat);
            assert((quotient * 256 + byte as nat) * space == quotient * (space * 256) + byte as nat
                * space) by (nonlinear_arith);
        }
        rest = rest / 256;
    }
    proof {
        assert(bytes@.subrange(0, N as int) =~= bytes@);
        let space = key_space(N as nat);
        if value < space && rest > 0 {
            assert(rest as nat * space >= space) by (nonlinear_arith)
                requires
                    rest >= 1,
            ;
        }
    }
    bytes
}

/// A number in big-endian notation, in `width` bytes.
pub open spec fn be_bytes(value: nat, width: nat) -> Seq<u8>
    decreases width,
{
    if width == 0 {
        Seq::empty()
    } else {
        be_bytes(value / 256, (width - 1) as nat).push((value % 256) as u8)
    }
}

/// Big-endian notation reads back as the number, if the number fits.
pub proof fn lemma_be_bytes(value: nat, width: nat)
    ensures
        be_bytes(value, width).len() == width,
        value < key_space(width) ==> big_endian(be_bytes(value, width)) == value,
    decreases width,
{
    if width > 0 {
        lemma_be_bytes(value / 256, (width - 1) as nat);
        let bytes = be_bytes(value, width);
        assert(bytes.drop_last() =~= be_bytes(value / 256, (width - 1) as nat));
    }
}

/// A 64-bit number in big-endian notation.
pub fn u64_bytes(value: u64) -> (bytes: [u8; 8])
    ensures
        bytes@ == be_bytes(value as nat, 8),
        rank(bytes) == value,
{
    let bytes: [u8; 8] = write_be::<8>(value);
    proof {
        lemma_eight_bytes();
        lemma_be_bytes(value as nat, 8);
        lemma_big_endian_injective(bytes@, be_bytes(value as nat, 8));
    }
    bytes
}

/// A 32-bit number in big-endian notation.
pub fn u32_bytes(value: u32) -> (bytes: [u8; 4])
    ensures
        bytes@ == be_bytes(value as nat, 4),
        rank(bytes) == value,
{
    let bytes: [u8; 4] = write_be::<4>(value as u64);
    proof {
        lemma_eight_bytes();
        lemma_be_bytes(value as nat, 4);
        lemma_big_endian_injective(bytes@, be_bytes(value as nat, 4));
    }
    bytes
}

} // verus!
