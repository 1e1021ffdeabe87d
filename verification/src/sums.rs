//! Sums of sequences of integers.
use vstd::prelude::*;

verus! {

/// The sum of the items.
pub open spec fn total(items: Seq<int>) -> int
    decreases items.len(),
{
    if items.len() == 0 {
        0
    } else {
        total(items.drop_last()) + items.last()
    }
}

pub proof fn lemma_total_push(items: Seq<int>, item: int)
    ensures
        total(items.push(item)) == total(items) + item,
{
    assert(items.push(item).drop_last() =~= items);
}

pub proof fn lemma_total_take(items: Seq<int>, i: int)
    requires
        0 <= i < items.len(),
    ensures
        total(items.take(i + 1)) == total(items.take(i)) + items[i],
{
    assert(items.take(i + 1).drop_last() =~= items.take(i));
}

pub proof fn lemma_total_update(items: Seq<int>, i: int, item: int)
    requires
        0 <= i < items.len(),
    ensures
        total(items.update(i, item)) == total(items) - items[i] + item,
    decreases items.len(),
{
    if i == items.len() - 1 {
        assert(items.update(i, item).drop_last() =~= items.drop_last());
    } else {
        assert(items.update(i, item).drop_last() =~= items.drop_last().update(i, item));
        lemma_total_update(items.drop_last(), i, item);
    }
}

pub proof fn lemma_total_first(items: Seq<int>)
    requires
        items.len() > 0,
    ensures
        total(items) == items[0] + total(items.skip(1)),
    decreases items.len(),
{
    if items.len() == 1 {
        assert(items.drop_last() =~= Seq::<int>::empty());
        assert(items.skip(1) =~= Seq::<int>::empty());
    } else {
        assert(items.drop_last().skip(1) =~= items.skip(1).drop_last());
        lemma_total_first(items.drop_last());
    }
}

/// A sum of counts is at least the sum of the first of them.
pub proof fn lemma_total_prefix(items: Seq<int>, i: int)
    requires
        0 <= i <= items.len(),
        forall|k: int| 0 <= k < items.len() ==> 0 <= #[trigger] items[k],
    ensures
        0 <= total(items.take(i)) <= total(items),
    decreases items.len(),
{
    if items.len() == 0 {
        assert(items.take(i) =~= items);
    } else if i == items.len() {
        assert(items.take(i) =~= items);
        lemma_total_prefix(items.drop_last(), i - 1);
    } else {
        assert(items.drop_last().take(i) =~= items.take(i));
        lemma_total_prefix(items.drop_last(), i);
    }
}

/// A sum of smaller items is smaller.
pub proof fn lemma_total_le(left: Seq<int>, right: Seq<int>)
    requires
        left.len() == right.len(),
        forall|k: int| 0 <= k < left.len() ==> #[trigger] left[k] <= right[k],
    ensures
        total(left) <= total(right),
    decreases left.len(),
{
    if left.len() > 0 {
        lemma_total_le(left.drop_last(), right.drop_last());
    }
}

} // verus!
