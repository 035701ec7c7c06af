//! Selecting the positions of a sequence that carry a given tag, and the
//! facts about such selections that partitioning relies on.

use vstd::prelude::*;
use vstd::multiset::Multiset;

verus! {

/// The positions of `tags` that hold `tag`, in ascending order.
pub open spec fn positions<T>(tags: Seq<T>, tag: T) -> Seq<usize>
    decreases tags.len(),
{
    if tags.len() == 0 {
        Seq::empty()
    } else {
        let rest = positions(tags.drop_last(), tag);
        if tags.last() == tag {
            rest.push((tags.len() - 1) as usize)
        } else {
            rest
        }
    }
}

/// How many positions of `tags` hold `tag`.
pub open spec fn count_of(tags: Seq<usize>, tag: usize) -> nat {
    positions(tags, tag).len()
}

/// The number of positions holding a tag below `bound`.
pub open spec fn count_below(tags: Seq<usize>, bound: usize) -> nat
    decreases bound,
{
    if bound == 0 {
        0
    } else {
        count_below(tags, (bound - 1) as usize) + count_of(tags, (bound - 1) as usize)
    }
}

/// Every selected position is in range, holds the tag, and the selection is
/// strictly ascending; every position holding the tag is selected.
pub proof fn lemma_positions<T>(tags: Seq<T>, tag: T)
    requires
        tags.len() <= usize::MAX,
    ensures
        positions(tags, tag).len() <= tags.len(),
        forall|k: int| 0 <= k < positions(tags, tag).len() ==> {
            &&& (#[trigger] positions(tags, tag)[k]) < tags.len()
            &&& tags[positions(tags, tag)[k] as int] == tag
        },
        forall|k: int, l: int| 0 <= k < l < positions(tags, tag).len() ==> positions(tags, tag)[k] < positions(tags, tag)[l],
        forall|i: int| 0 <= i < tags.len() && tags[i] == tag ==> positions(tags, tag).contains(i as usize),
    decreases tags.len(),
{
    if tags.len() > 0 {
        let front = tags.drop_last();
        lemma_positions(front, tag);
        let rest = positions(front, tag);
        let all = positions(tags, tag);
        assert forall|i: int| 0 <= i < tags.len() && tags[i] == tag implies all.contains(i as usize) by {
            if i < tags.len() - 1 {
                assert(front[i] == tag);
                let k = choose|k: int| 0 <= k < rest.len() && rest[k] == i as usize;
                assert(all[k] == i as usize);
            } else {
                assert(all[all.len() - 1] == i as usize);
            }
        }
    }
}

/// Appending one tag extends exactly the selection of that tag.
pub proof fn lemma_positions_push<T>(tags: Seq<T>, t: T, tag: T)
    ensures
        positions(tags.push(t), tag) == if t == tag {
            positions(tags, tag).push(tags.len() as usize)
        } else {
            positions(tags, tag)
        },
{
    assert(tags.push(t).drop_last() =~= tags);
}

/// Appending a tag below `bound` raises the count below `bound` by one;
/// appending any other tag leaves it.
pub proof fn lemma_count_below_push(tags: Seq<usize>, t: usize, bound: usize)
    ensures
        count_below(tags.push(t), bound) == count_below(tags, bound) + if t < bound {
            1nat
        } else {
            0nat
        },
    decreases bound,
{
    if bound > 0 {
        lemma_count_below_push(tags, t, (bound - 1) as usize);
        lemma_positions_push(tags, t, (bound - 1) as usize);
    }
}

/// When every tag is below `bound`, the selections of the tags below
/// `bound` together hold every position exactly once.
pub proof fn lemma_count_below_total(tags: Seq<usize>, bound: usize)
    requires
        forall|i: int| 0 <= i < tags.len() ==> (#[trigger] tags[i]) < bound,
    ensures
        count_below(tags, bound) == tags.len(),
    decreases tags.len(),
{
    if tags.len() == 0 {
        lemma_count_below_empty(bound);
        assert(tags =~= Seq::<usize>::empty());
    } else {
        let front = tags.drop_last();
        assert(front.push(tags.last()) =~= tags);
        lemma_count_below_total(front, bound);
        lemma_count_below_push(front, tags.last(), bound);
    }
}

/// Nothing is selected from an empty sequence.
pub proof fn lemma_count_below_empty(bound: usize)
    ensures
        count_below(Seq::<usize>::empty(), bound) == 0,
    decreases bound,
{
    if bound > 0 {
        lemma_count_below_empty((bound - 1) as usize);
    }
}

/// Collects the positions of `tags` that hold `tag`.
pub fn collect_positions(tags: &Vec<usize>, tag: usize) -> (sel: Vec<usize>)
    ensures
        sel@ == positions(tags@, tag),
{
    let mut sel: Vec<usize> = Vec::new();
    let mut i: usize = 0;
    while i < tags.len()
        invariant
            i <= tags.len(),
            sel@ == positions(tags@.subrange(0, i as int), tag),
        decreases tags.len() - i,
    {
        proof {
            lemma_positions_push(tags@.subrange(0, i as int), tags@[i as int], tag);
            assert(tags@.subrange(0, i as int).push(tags@[i as int]) =~= tags@.subrange(0, i + 1));
        }
        if tags[i] == tag {
            sel.push(i);
        }
        i += 1;
    }
    assert(tags@.subrange(0, tags.len() as int) =~= tags@);
    sel
}

/// The sum of all of `vals`.
pub open spec fn total(vals: Seq<nat>) -> nat
    decreases vals.len(),
{
    if vals.len() == 0 {
        0
    } else {
        total(vals.drop_last()) + vals.last()
    }
}

/// The sum of `vals` at the selected positions.
pub open spec fn sum_at(vals: Seq<nat>, sel: Seq<usize>) -> nat
    decreases sel.len(),
{
    if sel.len() == 0 {
        0
    } else {
        sum_at(vals, sel.drop_last()) + vals[sel.last() as int]
    }
}

/// The sum of `vals` over the selections of all tags below `bound`.
pub open spec fn sum_below(vals: Seq<nat>, tags: Seq<usize>, bound: usize) -> nat
    decreases bound,
{
    if bound == 0 {
        0
    } else {
        sum_below(vals, tags, (bound - 1) as usize) + sum_at(vals, positions(tags, (bound - 1) as usize))
    }
}

/// A value appended behind every selected position does not change the sum
/// at the selection.
pub proof fn lemma_sum_at_push(vals: Seq<nat>, v: nat, sel: Seq<usize>)
    requires
        forall|k: int| 0 <= k < sel.len() ==> (#[trigger] sel[k]) < vals.len(),
    ensures
        sum_at(vals.push(v), sel) == sum_at(vals, sel),
    decreases sel.len(),
{
    if sel.len() > 0 {
        lemma_sum_at_push(vals, v, sel.drop_last());
    }
}

/// Appending a value with a tag below `bound` adds the value to the sum;
/// with any other tag the sum stays.
pub proof fn lemma_sum_below_push(vals: Seq<nat>, v: nat, tags: Seq<usize>, t: usize, bound: usize)
    requires
        vals.len() == tags.len(),
        tags.len() < usize::MAX,
    ensures
        sum_below(vals.push(v), tags.push(t), bound) == sum_below(vals, tags, bound) + if t < bound {
            v
        } else {
            0nat
        },
    decreases bound,
{
    if bound > 0 {
        let c = (bound - 1) as usize;
        lemma_sum_below_push(vals, v, tags, t, c);
        lemma_positions_push(tags, t, c);
        lemma_positions(tags, c);
        lemma_sum_at_push(vals, v, positions(tags, c));
        if t == c {
            assert(positions(tags.push(t), c).drop_last() =~= positions(tags, c));
        }
    }
}

/// When every tag is below `bound`, summing selection by selection gives
/// the sum of all values: regrouping neither drops nor repeats a value.
pub proof fn lemma_sum_below_total(vals: Seq<nat>, tags: Seq<usize>, bound: usize)
    requires
        vals.len() == tags.len(),
        tags.len() <= usize::MAX,
        forall|i: int| 0 <= i < tags.len() ==> (#[trigger] tags[i]) < bound,
    ensures
        sum_below(vals, tags, bound) == total(vals),
    decreases tags.len(),
{
    if tags.len() == 0 {
        lemma_sum_below_empty(vals, bound);
        assert(tags =~= Seq::<usize>::empty());
    } else {
        let front = tags.drop_last();
        let vfront = vals.drop_last();
        assert(front.push(tags.last()) =~= tags);
        assert(vfront.push(vals.last()) =~= vals);
        lemma_sum_below_total(vfront, front, bound);
        lemma_sum_below_push(vfront, vals.last(), front, tags.last(), bound);
    }
}

/// Nothing is summed over selections from an empty tag sequence.
pub proof fn lemma_sum_below_empty(vals: Seq<nat>, bound: usize)
    ensures
        sum_below(vals, Seq::<usize>::empty(), bound) == 0,
    decreases bound,
{
    if bound > 0 {
        lemma_sum_below_empty(vals, (bound - 1) as usize);
    }
}

/// The per-tag counts of `tags`, for the tags below `bound`.
pub open spec fn counts(tags: Seq<usize>, bound: usize) -> Seq<nat> {
    Seq::new(bound as nat, |p: int| count_of(tags, p as usize))
}

/// The per-tag counts add up to the count of positions with a tag below
/// `bound`.
pub proof fn lemma_total_counts(tags: Seq<usize>, bound: usize)
    ensures
        total(counts(tags, bound)) == count_below(tags, bound),
    decreases bound,
{
    if bound > 0 {
        lemma_total_counts(tags, (bound - 1) as usize);
        assert(counts(tags, bound).drop_last() =~= counts(tags, (bound - 1) as usize));
    }
}

/// The union of all of `vals`.
pub open spec fn msum<A>(vals: Seq<Multiset<A>>) -> Multiset<A>
    decreases vals.len(),
{
    if vals.len() == 0 {
        Multiset::empty()
    } else {
        msum(vals.drop_last()).add(vals.last())
    }
}

/// The union of `vals` at the selected positions.
pub open spec fn msum_at<A>(vals: Seq<Multiset<A>>, sel: Seq<usize>) -> Multiset<A>
    decreases sel.len(),
{
    if sel.len() == 0 {
        Multiset::empty()
    } else {
        msum_at(vals, sel.drop_last()).add(vals[sel.last() as int])
    }
}

/// The union of `vals` over the selections of all tags below `bound`.
pub open spec fn msum_below<A>(vals: Seq<Multiset<A>>, tags: Seq<usize>, bound: usize) -> Multiset<A>
    decreases bound,
{
    if bound == 0 {
        Multiset::empty()
    } else {
        msum_below(vals, tags, (bound - 1) as usize).add(msum_at(vals, positions(tags, (bound - 1) as usize)))
    }
}

/// A value appended behind every selected position does not change the
/// union at the selection.
pub proof fn lemma_msum_at_push<A>(vals: Seq<Multiset<A>>, v: Multiset<A>, sel: Seq<usize>)
    requires
        forall|k: int| 0 <= k < sel.len() ==> (#[trigger] sel[k]) < vals.len(),
    ensures
        msum_at(vals.push(v), sel) == msum_at(vals, sel),
    decreases sel.len(),
{
    if sel.len() > 0 {
        lemma_msum_at_push(vals, v, sel.drop_last());
    }
}

/// Appending a value with a tag below `bound` adds the value to the union;
/// with any other tag the union stays.
pub proof fn lemma_msum_below_push<A>(vals: Seq<Multiset<A>>, v: Multiset<A>, tags: Seq<usize>, t: usize, bound: usize)
    requires
        vals.len() == tags.len(),
        tags.len() < usize::MAX,
    ensures
        msum_below(vals.push(v), tags.push(t), bound) == if t < bound {
            msum_below(vals, tags, bound).add(v)
        } else {
            msum_below(vals, tags, bound)
        },
    decreases bound,
{
    if bound > 0 {
        let c = (bound - 1) as usize;
        lemma_msum_below_push(vals, v, tags, t, c);
        lemma_positions_push(tags, t, c);
        lemma_positions(tags, c);
        lemma_msum_at_push(vals, v, positions(tags, c));
        if t == c {
            assert(positions(tags.push(t), c).drop_last() =~= positions(tags, c));
        }
        if t < bound {
            assert(msum_below(vals.push(v), tags.push(t), bound) =~= msum_below(vals, tags, bound).add(v));
        }
    }
}

/// Nothing is gathered over selections from an empty tag sequence.
pub proof fn lemma_msum_below_empty<A>(vals: Seq<Multiset<A>>, bound: usize)
    ensures
        msum_below(vals, Seq::<usize>::empty(), bound) == Multiset::<A>::empty(),
    decreases bound,
{
    if bound > 0 {
        lemma_msum_below_empty(vals, (bound - 1) as usize);
        assert(msum_below(vals, Seq::<usize>::empty(), bound) =~= Multiset::<A>::empty());
    }
}

/// When every tag is below `bound`, gathering selection by selection gives
/// the union of all values: regrouping neither drops nor repeats an item.
pub proof fn lemma_msum_below_total<A>(vals: Seq<Multiset<A>>, tags: Seq<usize>, bound: usize)
    requires
        vals.len() == tags.len(),
        tags.len() <= usize::MAX,
        forall|i: int| 0 <= i < tags.len() ==> (#[trigger] tags[i]) < bound,
    ensures
        msum_below(vals, tags, bound) == msum(vals),
    decreases tags.len(),
{
    if tags.len() == 0 {
        lemma_msum_below_empty(vals, bound);
        assert(tags =~= Seq::<usize>::empty());
    } else {
        let front = tags.drop_last();
        let vfront = vals.drop_last();
        assert(front.push(tags.last()) =~= tags);
        assert(vfront.push(vals.last()) =~= vals);
        lemma_msum_below_total(vfront, front, bound);
        lemma_msum_below_push(vfront, vals.last(), front, tags.last(), bound);
    }
}

/// The items at the selected positions, in the order of the selection.
pub open spec fn picked<T>(items: Seq<T>, sel: Seq<usize>) -> Seq<T> {
    Seq::new(sel.len(), |i: int| items[sel[i] as int])
}

/// Selecting from two tagged sequences laid end to end gives what
/// selecting from each gives, laid end to end.
pub proof fn lemma_picked_concat<T>(first: Seq<T>, first_tags: Seq<usize>, second: Seq<T>, second_tags: Seq<usize>, tag: usize)
    requires
        first.len() == first_tags.len(),
        second.len() == second_tags.len(),
        first.len() + second.len() <= usize::MAX,
    ensures
        picked(first + second, positions(first_tags + second_tags, tag)) == picked(first, positions(first_tags, tag)) + picked(
            second,
            positions(second_tags, tag),
        ),
    decreases second.len(),
{
    lemma_positions(first_tags, tag);
    if second.len() == 0 {
        assert(first + second =~= first);
        assert(first_tags + second_tags =~= first_tags);
        assert(second_tags =~= Seq::<usize>::empty());
        assert(picked(first + second, positions(first_tags + second_tags, tag)) =~= picked(first, positions(first_tags, tag)) + picked(
            second,
            positions(second_tags, tag),
        ));
    } else {
        let items = second.drop_last();
        let tags = second_tags.drop_last();
        let t = second_tags.last();
        lemma_picked_concat(first, first_tags, items, tags, tag);
        assert(second_tags =~= tags.push(t));
        assert(first_tags + second_tags =~= (first_tags + tags).push(t));
        lemma_positions_push(tags, t, tag);
        lemma_positions_push(first_tags + tags, t, tag);
        lemma_positions(tags, tag);
        lemma_positions(first_tags + tags, tag);
        let all = first + second;
        let sel = positions(first_tags + tags, tag);
        assert forall|i: int| 0 <= i < sel.len() implies all[sel[i] as int] == (first + items)[sel[i] as int] by {}
        let inner = positions(tags, tag);
        assert forall|i: int| 0 <= i < inner.len() implies second[inner[i] as int] == items[inner[i] as int] by {}
        assert(picked(all, sel) =~= picked(first + items, sel));
        assert(picked(second, inner) =~= picked(items, inner));
        let left = picked(first, positions(first_tags, tag));
        assert(picked(first + items, sel) == left + picked(items, inner));
        if t == tag {
            let x = (first.len() + items.len()) as usize;
            let m = items.len() as usize;
            assert(all[x as int] == second[m as int]);
            assert(positions(first_tags + second_tags, tag) == sel.push(x));
            assert(positions(second_tags, tag) == inner.push(m));
            assert(picked(all, sel.push(x)) =~= picked(all, sel).push(all[x as int]));
            assert(picked(second, inner.push(m)) =~= picked(second, inner).push(second[m as int]));
            assert((left + picked(items, inner)).push(second[m as int]) =~= left + picked(items, inner).push(second[m as int]));
        } else {
            assert(positions(first_tags + second_tags, tag) == sel);
            assert(positions(second_tags, tag) == inner);
        }
    }
}

} // verus!
