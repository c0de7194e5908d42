//! Ascending lists of numbers.

use vstd::prelude::*;

verus! {

/// Whether the numbers stand in strictly ascending order.
pub open spec fn ascending_numbers(numbers: Seq<u128>) -> bool {
    forall|i: int, j: int| 0 <= i < j < numbers.len() ==> numbers[i] < numbers[j]
}

/// Whether `numbers` lists exactly the wanted numbers, in ascending order.
pub open spec fn lists_numbers(numbers: Seq<u128>, wanted: Set<u128>) -> bool {
    &&& ascending_numbers(numbers)
    &&& forall|number: u128| #[trigger] numbers.contains(number) <==> wanted.contains(number)
}

/// Add a number to an ascending list, unless it is there.
pub fn insert_number(numbers: &mut Vec<u128>, number: u128)
    requires
        ascending_numbers(old(numbers)@),
    ensures
        ascending_numbers(final(numbers)@),
        forall|other: u128| #[trigger]
            final(numbers)@.contains(other) <==> old(numbers)@.contains(other) || other == number,
{
    let ghost before = numbers@;
    let mut at: usize = 0;
    while at < numbers.len() && numbers[at] < number
        invariant
            numbers@ == before,
            at <= before.len(),
            forall|i: int| 0 <= i < at ==> before[i] < number,
        decreases before.len() - at,
    {
        at = at + 1;
    }
    if at < numbers.len() && numbers[at] == number {
        assert(before[at as int] == number);
        return ;
    }
    numbers.insert(at, number);
    proof {
        let after = numbers@;
        assert forall|i: int, j: int| 0 <= i < j < after.len() implies after[i] < after[j] by {
            let p = if i < at {
                i
            } else {
                i - 1
            };
            let q = if j < at {
                j
            } else {
                j - 1
            };
            if i != at {
                assert(after[i] == before[p]);
            }
            if j != at {
                assert(after[j] == before[q]);
                if q > at {
                    assert(before[at as int] < before[q]);
                }
            }
        }
        assert forall|other: u128| #[trigger] after.contains(other) <==> before.contains(other)
            || other == number by {
            if after.contains(other) {
                let i = choose|i: int| 0 <= i < after.len() && after[i] == other;
                if i < at {
                    assert(before[i] == other);
                } else if i > at {
                    assert(before[i - 1] == other);
                }
            }
            if before.contains(other) {
                let i = choose|i: int| 0 <= i < before.len() && before[i] == other;
                if i < at {
                    assert(after[i] == other);
                } else {
                    assert(after[i + 1] == other);
                }
            }
            assert(after[at as int] == number);
        }
    }
}

} // verus!
