//! Concatenation of sequences.
use vstd::prelude::*;

verus! {

/// All parts, one after the other.
pub open spec fn joined<A>(parts: Seq<Seq<A>>) -> Seq<A>
    decreases parts.len(),
{
    if parts.len() == 0 {
        Seq::empty()
    } else {
        joined(parts.drop_last()) + parts.last()
    }
}

pub proof fn lemma_joined_push<A>(parts: Seq<Seq<A>>, part: Seq<A>)
    ensures
        joined(parts.push(part)) == joined(parts) + part,
{
    assert(parts.push(part).drop_last() =~= parts);
}

/// The parts of `size` items from part `first` on are those items of the whole.
pub proof fn lemma_joined_cut<A>(whole: Seq<A>, parts: Seq<Seq<A>>, first: int, size: int)
    requires
        0 < size,
        0 <= first,
        (first + parts.len()) * size <= whole.len(),
        forall|k: int|
            0 <= k < parts.len() ==> #[trigger] parts[k] == whole.subrange(
                (first + k) * size,
                (first + k + 1) * size,
            ),
    ensures
        0 <= first * size <= (first + parts.len()) * size,
        joined(parts) == whole.subrange(first * size, (first + parts.len()) * size),
    decreases parts.len(),
{
    assert(0 <= first * size <= (first + parts.len()) * size) by (nonlinear_arith)
        requires
            0 <= first,
            0 < size,
            0 <= parts.len(),
    ;
    if parts.len() == 0 {
        assert(joined(parts) =~= whole.subrange(first * size, (first + parts.len()) * size));
    } else {
        let n = parts.len() - 1;
        assert(first * size <= (first + n) * size <= (first + parts.len()) * size)
            by (nonlinear_arith)
            requires
                0 <= n,
                0 < size,
                parts.len() == n + 1,
        ;
        lemma_joined_cut(whole, parts.drop_last(), first, size);
        assert(parts.last() == whole.subrange((first + n) * size, (first + n + 1) * size));
        assert(joined(parts) =~= whole.subrange(first * size, (first + parts.len()) * size));
    }
}

/// Where all parts have `size` items, part `i` stands at `i * size`.
pub proof fn lemma_joined_part<A>(parts: Seq<Seq<A>>, size: int, i: int)
    requires
        0 < size,
        0 <= i < parts.len(),
        forall|k: int| 0 <= k < parts.len() ==> (#[trigger] parts[k]).len() == size,
    ensures
        joined(parts).len() == parts.len() * size,
        0 <= i * size <= (i + 1) * size <= joined(parts).len(),
        joined(parts).subrange(i * size, (i + 1) * size) == parts[i],
    decreases parts.len(),
{
    let n = parts.len() - 1;
    let head = parts.drop_last();
    assert(parts.len() * size == n * size + size) by (nonlinear_arith)
        requires
            parts.len() == n + 1,
    ;
    assert((i + 1) * size == i * size + size) by (nonlinear_arith);
    assert(0 <= i * size <= n * size) by (nonlinear_arith)
        requires
            0 <= i <= n,
            0 < size,
    ;
    if n > 0 {
        lemma_joined_part(head, size, if i < n { i } else { 0 });
    } else {
        assert(head.len() == 0);
    }
    assert(parts.last() == parts[n]);
    assert(joined(parts).subrange(i * size, (i + 1) * size) =~= parts[i]);
}

/// Part `i` stands behind the parts before it.
pub proof fn lemma_joined_at<A>(parts: Seq<Seq<A>>, i: int)
    requires
        0 <= i < parts.len(),
    ensures
        joined(parts.take(i)).len() + parts[i].len() <= joined(parts).len(),
        i == parts.len() - 1 ==> joined(parts.take(i)).len() + parts[i].len() == joined(
            parts,
        ).len(),
        joined(parts).subrange(
            joined(parts.take(i)).len() as int,
            (joined(parts.take(i)).len() + parts[i].len()) as int,
        ) == parts[i],
    decreases parts.len(),
{
    let head = parts.drop_last();
    let start = joined(parts.take(i)).len() as int;
    if i < parts.len() - 1 {
        lemma_joined_at(head, i);
        assert(head.take(i) =~= parts.take(i));
    } else {
        assert(parts.take(i) =~= head);
    }
    assert(joined(parts).subrange(start, start + parts[i].len()) =~= parts[i]);
}

} // verus!
