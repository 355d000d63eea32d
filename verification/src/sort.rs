//! Sorting digram entries by their counts.

use crate::token::{TknDiagram, TknMaxAmount};
use vstd::prelude::*;

verus! {

/// A digram with its count.
pub type Entry = (TknDiagram, TknMaxAmount);

/// The counts do not fall from one entry to the next.
pub open spec fn ascending(entries: Seq<Entry>) -> bool {
    forall|i: int, j: int| 0 <= i <= j < entries.len() ==> entries[i].1 <= entries[j].1
}

/// The entries with the count `count`, in their order.
pub open spec fn with_count(entries: Seq<Entry>, count: TknMaxAmount) -> Seq<Entry>
    decreases entries.len(),
{
    if entries.len() == 0 {
        Seq::empty()
    } else {
        let rest = with_count(entries.drop_last(), count);
        if entries.last().1 == count {
            rest.push(entries.last())
        } else {
            rest
        }
    }
}

/// `sorted` holds the entries of `entries` by ascending count, those with
/// the same count in the order that they have in `entries`.
pub open spec fn sorts(sorted: Seq<Entry>, entries: Seq<Entry>) -> bool {
    &&& ascending(sorted)
    &&& sorted.len() == entries.len()
    &&& forall|count: TknMaxAmount| #[trigger]
        with_count(sorted, count) == with_count(entries, count)
}

/// The entries with one count, of two sequences one after the other.
pub proof fn lemma_with_count_concat(front: Seq<Entry>, back: Seq<Entry>, count: TknMaxAmount)
    ensures
        with_count(front + back, count) == with_count(front, count) + with_count(back, count),
    decreases back.len(),
{
    if back.len() == 0 {
        assert(front + back =~= front);
        assert(with_count(front, count) + with_count(back, count) =~= with_count(front, count));
    } else {
        assert((front + back).drop_last() =~= front + back.drop_last());
        lemma_with_count_concat(front, back.drop_last(), count);
        if back.last().1 == count {
            assert(with_count(front, count) + with_count(back.drop_last(), count).push(back.last())
                =~= (with_count(front, count) + with_count(back.drop_last(), count)).push(
                back.last(),
            ));
        }
    }
}

/// A sequence without an entry of the count has no entries with it.
pub proof fn lemma_with_count_none(entries: Seq<Entry>, count: TknMaxAmount)
    requires
        forall|i: int| 0 <= i < entries.len() ==> entries[i].1 != count,
    ensures
        with_count(entries, count) == Seq::<Entry>::empty(),
    decreases entries.len(),
{
    if entries.len() > 0 {
        assert forall|i: int| 0 <= i < entries.drop_last().len() implies entries.drop_last()[i].1
            != count by {
            assert(entries.drop_last()[i] == entries[i]);
        }
        lemma_with_count_none(entries.drop_last(), count);
        assert(entries[entries.len() - 1].1 != count);
    }
}

/// The entries with one count are entries of the sequence, and an entry
/// of the sequence is among those with its count.
pub proof fn lemma_with_count_holds(entries: Seq<Entry>, count: TknMaxAmount)
    ensures
        forall|i: int|
            0 <= i < with_count(entries, count).len() ==> (#[trigger] with_count(
                entries,
                count,
            )[i]).1 == count && entries.contains(with_count(entries, count)[i]),
        forall|i: int|
            0 <= i < entries.len() && (#[trigger] entries[i]).1 == count ==> with_count(
                entries,
                count,
            ).contains(entries[i]),
        with_count(entries, count).len() <= entries.len(),
    decreases entries.len(),
{
    let same = with_count(entries, count);
    if entries.len() > 0 {
        let front = entries.drop_last();
        let rest = with_count(front, count);
        lemma_with_count_holds(front, count);
        assert forall|i: int| 0 <= i < same.len() implies (#[trigger] same[i]).1 == count
            && entries.contains(same[i]) by {
            if i < rest.len() {
                assert(same[i] == rest[i]);
                assert(front.contains(rest[i]));
                let p = choose|p: int| 0 <= p < front.len() && front[p] == rest[i];
                assert(entries[p] == rest[i]);
            } else {
                assert(entries[entries.len() - 1] == same[i]);
            }
        }
        assert forall|i: int| 0 <= i < entries.len() && (#[trigger] entries[i]).1
            == count implies same.contains(entries[i]) by {
            if i < front.len() {
                assert(front[i] == entries[i]);
                assert(rest.contains(entries[i]));
                let k = choose|k: int| 0 <= k < rest.len() && rest[k] == entries[i];
                assert(same[k] == entries[i]);
            } else {
                assert(same[same.len() - 1] == entries[i]);
            }
        }
    }
}

/// The entries with one count, of a sequence read backwards.
pub proof fn lemma_with_count_reverse(entries: Seq<Entry>, count: TknMaxAmount)
    ensures
        with_count(entries.reverse(), count) == with_count(entries, count).reverse(),
    decreases entries.len(),
{
    if entries.len() == 0 {
        assert(entries.reverse() =~= Seq::<Entry>::empty());
        assert(with_count(entries, count).reverse() =~= Seq::<Entry>::empty());
    } else {
        let front = entries.drop_last();
        let last = entries.last();
        lemma_with_count_reverse(front, count);
        assert(entries.reverse() =~= seq![last] + front.reverse());
        lemma_with_count_concat(seq![last], front.reverse(), count);
        assert(seq![last].drop_last() =~= Seq::<Entry>::empty());
        assert(with_count(Seq::<Entry>::empty(), count) =~= Seq::<Entry>::empty());
        let same = with_count(front, count);
        if last.1 == count {
            assert(with_count(seq![last], count) =~= seq![last]);
            assert(same.push(last).reverse() =~= seq![last] + same.reverse());
        } else {
            assert(with_count(seq![last], count) =~= Seq::<Entry>::empty());
            assert(Seq::<Entry>::empty() + same.reverse() =~= same.reverse());
        }
    }
}

/// Sorting has one result: two sequences that both hold the entries by
/// ascending count, equal counts in their order, are equal.
pub proof fn lemma_sorts_unique(first: Seq<Entry>, second: Seq<Entry>, entries: Seq<Entry>)
    requires
        sorts(first, entries),
        sorts(second, entries),
    ensures
        first == second,
    decreases entries.len(),
{
    if entries.len() == 0 {
        assert(first =~= second);
    } else {
        let a = first.last();
        let b = second.last();
        lemma_last_of_count(first);
        lemma_last_of_count(second);
        lemma_with_count_holds(first, a.1);
        lemma_with_count_holds(second, a.1);
        lemma_with_count_holds(first, b.1);
        lemma_with_count_holds(second, b.1);
        assert(with_count(first, a.1) == with_count(entries, a.1));
        assert(with_count(second, a.1) == with_count(entries, a.1));
        assert(with_count(first, b.1) == with_count(entries, b.1));
        assert(with_count(second, b.1) == with_count(entries, b.1));
        // each last entry has the greatest count of its sequence, and the
        // count of the other occurs in it
        assert(first[first.len() - 1] == a && second[second.len() - 1] == b);
        assert(with_count(second, a.1).contains(a));
        assert(with_count(first, b.1).contains(b));
        assert(second.contains(a));
        assert(first.contains(b));
        let p = choose|p: int| 0 <= p < second.len() && second[p] == a;
        let q = choose|q: int| 0 <= q < first.len() && first[q] == b;
        assert(second[p].1 <= second[second.len() - 1].1);
        assert(first[q].1 <= first[first.len() - 1].1);
        assert(a.1 == b.1);
        assert(a == b);
        // what is left sorts what is left
        let left = removed_last(entries, a.1);
        assert forall|count: TknMaxAmount| #[trigger]
            with_count(first.drop_last(), count) == with_count(left, count) by {
            lemma_removed_last(entries, a.1, count);
            assert(with_count(first, count) == with_count(entries, count));
        }
        assert forall|count: TknMaxAmount| #[trigger]
            with_count(second.drop_last(), count) == with_count(left, count) by {
            lemma_removed_last(entries, a.1, count);
            assert(with_count(second, count) == with_count(entries, count));
        }
        assert(ascending(first.drop_last())) by {
            assert forall|i: int, j: int| 0 <= i <= j < first.drop_last().len() implies first.drop_last()[i].1
                <= first.drop_last()[j].1 by {
                assert(first[i].1 <= first[j].1);
            }
        }
        assert(ascending(second.drop_last())) by {
            assert forall|i: int, j: int| 0 <= i <= j < second.drop_last().len() implies second.drop_last()[i].1
                <= second.drop_last()[j].1 by {
                assert(second[i].1 <= second[j].1);
            }
        }
        lemma_removed_last_len(entries, a.1);
        lemma_sorts_unique(first.drop_last(), second.drop_last(), left);
        assert(first =~= first.drop_last().push(a));
        assert(second =~= second.drop_last().push(b));
    }
}

/// The sequence without the last of its entries with the count `count`.
spec fn removed_last(entries: Seq<Entry>, count: TknMaxAmount) -> Seq<Entry>
    decreases entries.len(),
{
    if entries.len() == 0 {
        entries
    } else if entries.last().1 == count {
        entries.drop_last()
    } else {
        removed_last(entries.drop_last(), count).push(entries.last())
    }
}

/// Taking out the last entry with a count takes it from the entries with
/// that count and leaves those with another count as they are.
proof fn lemma_removed_last(entries: Seq<Entry>, count: TknMaxAmount, other: TknMaxAmount)
    ensures
        with_count(removed_last(entries, count), other) == if other == count && with_count(
            entries,
            count,
        ).len() > 0 {
            with_count(entries, count).drop_last()
        } else {
            with_count(entries, other)
        },
    decreases entries.len(),
{
    if entries.len() == 0 {
    } else if entries.last().1 == count {
        if other == count {
            assert(with_count(entries, count).drop_last() =~= with_count(
                entries.drop_last(),
                count,
            ));
        }
    } else {
        lemma_removed_last(entries.drop_last(), count, other);
        let rest = removed_last(entries.drop_last(), count);
        assert(rest.push(entries.last()).drop_last() =~= rest);
        if other == entries.last().1 {
            assert(with_count(entries, other) =~= with_count(entries.drop_last(), other).push(
                entries.last(),
            ));
        }
        if other == count && with_count(entries, count).len() > 0 {
            assert(with_count(entries, count) == with_count(entries.drop_last(), count));
        }
    }
}

/// Taking out the last entry with a count that occurs makes the
/// sequence shorter by one.
proof fn lemma_removed_last_len(entries: Seq<Entry>, count: TknMaxAmount)
    requires
        with_count(entries, count).len() > 0,
    ensures
        removed_last(entries, count).len() == entries.len() - 1,
    decreases entries.len(),
{
    if entries.len() > 0 && entries.last().1 != count {
        lemma_removed_last_len(entries.drop_last(), count);
    }
}

/// In a sorted sequence the last entry is the last of those with its
/// count, and what stands before it has the same entries with every
/// other count.
proof fn lemma_last_of_count(sorted: Seq<Entry>)
    requires
        sorted.len() > 0,
    ensures
        with_count(sorted, sorted.last().1).len() > 0,
        with_count(sorted, sorted.last().1).last() == sorted.last(),
        forall|count: TknMaxAmount| #[trigger]
            with_count(sorted.drop_last(), count) == if count == sorted.last().1 {
                with_count(sorted, count).drop_last()
            } else {
                with_count(sorted, count)
            },
{
    let last = sorted.last();
    assert forall|count: TknMaxAmount| #[trigger]
        with_count(sorted.drop_last(), count) == if count == last.1 {
            with_count(sorted, count).drop_last()
        } else {
            with_count(sorted, count)
        } by {
        if count == last.1 {
            assert(with_count(sorted, count).drop_last() =~= with_count(
                sorted.drop_last(),
                count,
            ));
        }
    }
}

/// Merges two sorted sequences into one. Of two entries with the same
/// count the one from `left` comes first.
fn merge(left: &Vec<Entry>, right: &Vec<Entry>) -> (merged: Vec<Entry>)
    requires
        ascending(left@),
        ascending(right@),
        left@.len() + right@.len() <= usize::MAX,
    ensures
        sorts(merged@, left@ + right@),
{
    let mut merged: Vec<Entry> = Vec::new();
    let mut i: usize = 0;
    let mut j: usize = 0;
    proof {
        assert(left@.take(0) =~= Seq::<Entry>::empty());
        assert(right@.take(0) =~= Seq::<Entry>::empty());
    }
    while i < left.len() || j < right.len()
        invariant
            i <= left@.len(),
            j <= right@.len(),
            ascending(left@),
            ascending(right@),
            ascending(merged@),
            merged@.len() == i + j,
            forall|k: int| 0 <= k < merged@.len() && i < left@.len() ==> merged@[k].1 <= left@[i as int].1,
            forall|k: int|
                0 <= k < merged@.len() && j < right@.len() ==> merged@[k].1 <= right@[j as int].1,
            forall|k: int| 0 <= k < j && i < left@.len() ==> right@[k].1 < left@[i as int].1,
            forall|count: TknMaxAmount| #[trigger]
                with_count(merged@, count) == with_count(left@.take(i as int), count) + with_count(
                    right@.take(j as int),
                    count,
                ),
        decreases left@.len() - i + right@.len() - j,
    {
        let ghost before = merged@;
        if i < left.len() && (j >= right.len() || left[i].1 <= right[j].1) {
            let entry = left[i];
            merged.push(entry);
            proof {
                assert(left@.take(i + 1).drop_last() =~= left@.take(i as int));
                assert(merged@.drop_last() =~= before);
                assert forall|k: int| 0 <= k < j implies right@.take(j as int)[k].1
                    != entry.1 by {
                    assert(right@[k].1 < left@[i as int].1);
                }
                lemma_with_count_none(right@.take(j as int), entry.1);
                assert forall|count: TknMaxAmount| #[trigger]
                    with_count(merged@, count) == with_count(left@.take(i + 1), count)
                        + with_count(right@.take(j as int), count) by {
                    assert(with_count(before, count) == with_count(left@.take(i as int), count)
                        + with_count(right@.take(j as int), count));
                    if entry.1 == count {
                        assert(with_count(merged@, count) =~= with_count(left@.take(i + 1), count)
                            + with_count(right@.take(j as int), count));
                    }
                }
                assert forall|a: int, b: int| 0 <= a <= b < merged@.len() implies merged@[a].1
                    <= merged@[b].1 by {
                    if b < before.len() {
                        assert(before[a].1 <= before[b].1);
                    }
                }
            }
            i += 1;
        } else {
            let entry = right[j];
            merged.push(entry);
            proof {
                assert(right@.take(j + 1).drop_last() =~= right@.take(j as int));
                assert(merged@.drop_last() =~= before);
                assert forall|count: TknMaxAmount| #[trigger]
                    with_count(merged@, count) == with_count(left@.take(i as int), count)
                        + with_count(right@.take(j + 1), count) by {
                    assert(with_count(before, count) == with_count(left@.take(i as int), count)
                        + with_count(right@.take(j as int), count));
                    if entry.1 == count {
                        assert(with_count(merged@, count) =~= with_count(left@.take(i as int), count)
                            + with_count(right@.take(j + 1), count));
                    }
                }
                assert forall|a: int, b: int| 0 <= a <= b < merged@.len() implies merged@[a].1
                    <= merged@[b].1 by {
                    if b < before.len() {
                        assert(before[a].1 <= before[b].1);
                    }
                }
            }
            j += 1;
        }
    }
    proof {
        assert(left@.take(left@.len() as int) =~= left@);
        assert(right@.take(right@.len() as int) =~= right@);
        assert forall|count: TknMaxAmount| #[trigger]
            with_count(merged@, count) == with_count(left@ + right@, count) by {
            lemma_with_count_concat(left@, right@, count);
            assert(with_count(merged@, count) == with_count(left@.take(i as int), count)
                + with_count(right@.take(j as int), count));
        }
    }
    merged
}

/// Sorts the entries by ascending count. Entries with the same count
/// stay in their order.
pub fn sort_by_count(entries: Vec<Entry>) -> (sorted: Vec<Entry>)
    ensures
        sorts(sorted@, entries@),
    decreases entries@.len(),
{
    if entries.len() < 2 {
        proof {
            assert forall|i: int, j: int| 0 <= i <= j < entries@.len() implies entries@[i].1
                <= entries@[j].1 by {}
        }
        return entries;
    }
    let half = entries.len() / 2;
    let mut left: Vec<Entry> = Vec::new();
    let mut right: Vec<Entry> = Vec::new();
    let mut i: usize = 0;
    while i < half
        invariant
            i <= half < entries@.len(),
            left@ == entries@.take(i as int),
        decreases half - i,
    {
        left.push(entries[i]);
        assert(entries@.take(i + 1) =~= entries@.take(i as int).push(entries@[i as int]));
        i += 1;
    }
    while i < entries.len()
        invariant
            half <= i <= entries@.len(),
            right@ == entries@.subrange(half as int, i as int),
        decreases entries@.len() - i,
    {
        right.push(entries[i]);
        assert(entries@.subrange(half as int, i + 1) =~= entries@.subrange(
            half as int,
            i as int,
        ).push(entries@[i as int]));
        i += 1;
    }
    assert(left@ + right@ =~= entries@);
    let ghost first = left@;
    let ghost second = right@;
    let left = sort_by_count(left);
    let right = sort_by_count(right);
    let sorted = merge(&left, &right);
    proof {
        assert forall|count: TknMaxAmount| #[trigger]
            with_count(sorted@, count) == with_count(entries@, count) by {
            lemma_with_count_concat(left@, right@, count);
            lemma_with_count_concat(first, second, count);
            assert(with_count(left@, count) == with_count(first, count));
            assert(with_count(right@, count) == with_count(second, count));
            assert(with_count(sorted@, count) == with_count(left@ + right@, count));
        }
    }
    sorted
}

} // verus!
