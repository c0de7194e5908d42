//! Bounded samples of the smallest items.

use vstd::prelude::*;

verus! {

/// A type whose values stand in a total order, given by numbering them.
pub trait Ordered: Sized + Copy {
    /// The number by which a value is ordered.
    spec fn order(self) -> nat;

    /// Values of the same number are the same.
    proof fn lemma_order_injective(a: Self, b: Self)
        requires
            a.order() == b.order(),
        ensures
            a == b,
    ;

    /// Whether this value comes before another.
    fn before(&self, other: &Self) -> (before: bool)
        ensures
            before == (self.order() < other.order()),
    ;
}

/// Whether the items stand in strictly ascending order.
pub open spec fn in_order<T: Ordered>(items: Seq<T>) -> bool {
    forall|i: int, j: int|
        0 <= i < j < items.len() ==> (#[trigger] items[i]).order() < (#[trigger] items[j]).order()
}

/// Whether `sample` lists the smallest items of `all` in ascending order, all
/// of them or as many as `limit` allows.
pub open spec fn is_sample<T: Ordered>(sample: Seq<T>, all: Set<T>, limit: nat) -> bool {
    &&& in_order(sample)
    &&& all.finite()
    &&& sample.len() == if limit <= all.len() {
        limit
    } else {
        all.len()
    }
    &&& forall|i: int| 0 <= i < sample.len() ==> all.contains(#[trigger] sample[i])
    &&& forall|i: int, item: T|
        0 <= i < sample.len() && #[trigger] all.contains(item) && !sample.contains(item)
            ==> (#[trigger] sample[i]).order() < item.order()
}

/// Items in strictly ascending order do not repeat.
pub proof fn lemma_in_order<T: Ordered>(items: Seq<T>)
    requires
        in_order(items),
    ensures
        items.no_duplicates(),
        items.to_set().finite(),
        items.to_set().len() == items.len(),
{
    assert forall|i: int, j: int|
        0 <= i < items.len() && 0 <= j < items.len() && i != j implies items[i] != items[j] by {
        if i < j {
            assert(items[i].order() < items[j].order());
        } else {
            assert(items[j].order() < items[i].order());
        }
    }
    items.unique_seq_to_set();
    vstd::seq_lib::seq_to_set_is_finite(items);
}

/// A sample of a sample and one item more is a sample of everything and that
/// item.
pub proof fn lemma_sample_extends<T: Ordered>(
    sample: Seq<T>,
    all: Set<T>,
    value: T,
    next: Seq<T>,
    limit: nat,
)
    requires
        is_sample(sample, all, limit),
        is_sample(next, sample.to_set().insert(value), limit),
    ensures
        is_sample(next, all.insert(value), limit),
{
    let kept = sample.to_set().insert(value);
    lemma_in_order(sample);
    lemma_in_order(next);
    assert forall|i: int| 0 <= i < next.len() implies all.insert(value).contains(
        #[trigger] next[i],
    ) by {
        assert(kept.contains(next[i]));
        if next[i] != value {
            let j = choose|j: int| 0 <= j < sample.len() && sample[j] == next[i];
            assert(all.contains(sample[j]));
        }
    }
    assert(sample.to_set().subset_of(all)) by {
        assert forall|item: T| sample.to_set().contains(item) implies all.contains(item) by {
            let j = choose|j: int| 0 <= j < sample.len() && sample[j] == item;
            assert(all.contains(sample[j]));
        }
    }
    assert(kept.subset_of(all.insert(value)));
    vstd::set_lib::lemma_len_subset(kept, all.insert(value));
    vstd::set_lib::lemma_len_subset(sample.to_set(), all);
    if sample.len() < limit {
        assert(sample.len() == all.len());
        vstd::set_lib::lemma_subset_equality(sample.to_set(), all);
        assert(kept =~= all.insert(value));
    } else {
        assert(kept.len() >= limit);
        assert(next.len() == limit);
        assert(all.insert(value).len() >= limit);
    }
    assert forall|i: int, item: T|
        0 <= i < next.len() && #[trigger] all.insert(value).contains(item) && !next.contains(
            item,
        ) implies (#[trigger] next[i]).order() < item.order() by {
        if kept.contains(item) {
        } else {
            assert(all.contains(item));
            assert(!sample.contains(item));
            assert(kept.contains(next[i]));
            if next[i] == value && !sample.contains(value) {
                // Something of the sample made way for the value.
                assert(limit == sample.len());
                if limit > 0 {
                    lemma_displaced(sample, value, next, limit);
                    let out = choose|out: T|
                        sample.contains(out) && !next.contains(out) && value.order() < out.order();
                    let j = choose|j: int| 0 <= j < sample.len() && sample[j] == out;
                    assert(sample[j].order() < item.order());
                }
            } else {
                assert(sample.contains(next[i]));
                let j = choose|j: int| 0 <= j < sample.len() && sample[j] == next[i];
                assert(sample[j].order() < item.order());
            }
        }
    }
}

/// An item that enters a full sample displaces a greater one.
proof fn lemma_displaced<T: Ordered>(sample: Seq<T>, value: T, next: Seq<T>, limit: nat)
    requires
        in_order(sample),
        sample.len() == limit,
        limit > 0,
        !sample.contains(value),
        next.contains(value),
        is_sample(next, sample.to_set().insert(value), limit),
    ensures
        exists|out: T|
            sample.contains(out) && !next.contains(out) && value.order() < out.order(),
{
    lemma_in_order(sample);
    lemma_in_order(next);
    if forall|item: T| sample.contains(item) ==> next.contains(item) {
        assert(sample.to_set().insert(value).subset_of(next.to_set()));
        vstd::set_lib::lemma_len_subset(sample.to_set().insert(value), next.to_set());
    } else {
        let out = choose|out: T| sample.contains(out) && !next.contains(out);
        let i = choose|i: int| 0 <= i < next.len() && next[i] == value;
        assert(sample.to_set().insert(value).contains(out));
        assert(next[i].order() < out.order());
    }
}

/// Nothing is a sample of nothing, and what a limit of zero allows.
pub proof fn lemma_no_sample<T: Ordered>(all: Set<T>, limit: nat)
    requires
        all.finite(),
        all.len() == 0 || limit == 0,
    ensures
        is_sample(Seq::<T>::empty(), all, limit),
{
}

/// Keep a sample the smallest items, `limit` of them at most, with one item more
/// taken into account.
pub fn retain_smallest<T: Ordered>(sample: &mut Vec<T>, value: T, limit: usize)
    requires
        in_order(old(sample)@),
        old(sample)@.len() <= limit,
    ensures
        is_sample(final(sample)@, old(sample)@.to_set().insert(value), limit as nat),
{
    let ghost old_items = sample@;
    let ghost all = sample@.to_set().insert(value);
    proof {
        lemma_in_order(old_items);
    }
    if limit == 0 {
        return ;
    }
    let mut at: usize = 0;
    while at < sample.len() && sample[at].before(&value)
        invariant
            sample@ == old_items,
            in_order(old_items),
            at <= old_items.len(),
            forall|i: int| 0 <= i < at ==> (#[trigger] old_items[i]).order() < value.order(),
        decreases old_items.len() - at,
    {
        at = at + 1;
    }
    if at < sample.len() && !value.before(&sample[at]) {
        proof {
            T::lemma_order_injective(value, old_items[at as int]);
            assert(old_items.contains(value));
            assert(all =~= old_items.to_set());
            assert forall|i: int| 0 <= i < old_items.len() implies all.contains(
                #[trigger] old_items[i],
            ) by {
                assert(old_items.contains(old_items[i]));
            }
        }
        return ;
    }
    proof {
        if old_items.contains(value) {
            let i = choose|i: int| 0 <= i < old_items.len() && old_items[i] == value;
            if i > at {
                assert(old_items[at as int].order() < old_items[i].order());
            }
        }
    }
    sample.insert(at, value);
    let ghost more = sample@;
    proof {
        assert forall|i: int, j: int| 0 <= i < j < more.len() implies (#[trigger] more[i]).order()
            < (#[trigger] more[j]).order() by {
            let p = if i < at {
                i
            } else {
                i - 1
            };
            let q = if j < at {
                j
            } else {
                j - 1
            };
            if i != at {
                assert(more[i] == old_items[p]);
            }
            if j != at {
                assert(more[j] == old_items[q]);
                if q > at {
                    assert(old_items[at as int].order() < old_items[q].order());
                }
            }
            if i != at && j != at {
                assert(old_items[p].order() < old_items[q].order());
            }
        }
        assert forall|item: T| more.contains(item) <==> all.contains(item) by {
            if more.contains(item) {
                let i = choose|i: int| 0 <= i < more.len() && more[i] == item;
                if i < at {
                    assert(old_items[i] == item);
                } else if i > at {
                    assert(old_items[i - 1] == item);
                }
            }
            if old_items.contains(item) {
                let i = choose|i: int| 0 <= i < old_items.len() && old_items[i] == item;
                if i < at {
                    assert(more[i] == item);
                } else {
                    assert(more[i + 1] == item);
                }
            }
            assert(more[at as int] == value);
        }
        assert forall|i: int| 0 <= i < more.len() implies all.contains(#[trigger] more[i]) by {
            assert(more.contains(more[i]));
        }
        lemma_in_order(more);
    }
    if sample.len() > limit {
        let _ = sample.pop();
        proof {
            assert(sample@ =~= more.drop_last());
            assert forall|i: int, item: T|
                0 <= i < sample@.len() && #[trigger] all.contains(item) && !sample@.contains(
                    item,
                ) implies (#[trigger] sample@[i]).order() < item.order() by {
                assert(more.contains(item));
                let j = choose|j: int| 0 <= j < more.len() && more[j] == item;
                if j < more.len() - 1 {
                    assert(sample@[j] == item);
                }
                assert(more[i].order() < more[j].order());
            }
        }
    }
}

} // verus!
