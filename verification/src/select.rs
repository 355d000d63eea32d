//! Ranking digrams by their counts and selecting the most frequent ones.

use crate::sort::{
    lemma_sorts_unique, lemma_with_count_concat, lemma_with_count_none,
    lemma_with_count_reverse, sort_by_count, sorts, with_count, Entry,
};
use crate::token::{
    digram_key_spec, key_digram, key_digram_spec, lemma_key_digram_inverse, TknMaxAmount,
};
use std::collections::HashMap;
use vstd::prelude::*;
use vstd::std_specs::iter::IteratorSpec;

verus! {

broadcast use vstd::std_specs::hash::group_hash_axioms;

/// The entries with a count above `min`, in their order.
pub open spec fn above(entries: Seq<Entry>, min: TknMaxAmount) -> Seq<Entry>
    decreases entries.len(),
{
    if entries.len() == 0 {
        Seq::empty()
    } else {
        let rest = above(entries.drop_last(), min);
        if entries.last().1 > min {
            rest.push(entries.last())
        } else {
            rest
        }
    }
}

/// Where an entry with the given count goes into a ranking: behind the
/// entries with a greater count and before all others.
pub open spec fn slot(ranking: Seq<Entry>, count: TknMaxAmount) -> int
    decreases ranking.len(),
{
    if ranking.len() == 0 || ranking[0].1 <= count {
        0
    } else {
        1 + slot(ranking.skip(1), count)
    }
}

/// The entries with a count above `min`, by descending count. Of two
/// entries with the same count the one that comes later in `entries`
/// comes first. Each entry in turn goes to its slot in the ranking of
/// those before it.
pub open spec fn ranked(entries: Seq<Entry>, min: TknMaxAmount) -> Seq<Entry>
    decreases entries.len(),
{
    if entries.len() == 0 {
        Seq::empty()
    } else {
        let rest = ranked(entries.drop_last(), min);
        let entry = entries.last();
        if entry.1 > min {
            rest.insert(slot(rest, entry.1), entry)
        } else {
            rest
        }
    }
}

/// The first `n` entries of a sequence, or all of them if there are
/// fewer.
pub open spec fn first_n(ranking: Seq<Entry>, n: nat) -> Seq<Entry> {
    if n < ranking.len() {
        ranking.take(n as int)
    } else {
        ranking
    }
}

/// The `n` most frequent of the entries with a count above `min`, in
/// descending order.
pub open spec fn top_n(entries: Seq<Entry>, n: nat, min: TknMaxAmount) -> Seq<Entry> {
    first_n(ranked(entries, min), n)
}

/// The counts of a ranking do not grow from one entry to the next.
pub open spec fn descending(ranking: Seq<Entry>) -> bool {
    forall|i: int, j: int| 0 <= i <= j < ranking.len() ==> ranking[i].1 >= ranking[j].1
}

/// The slot lies within the ranking; in a descending ranking the entries
/// before it have a greater count and those from it on have not.
pub proof fn lemma_slot(ranking: Seq<Entry>, count: TknMaxAmount)
    ensures
        0 <= slot(ranking, count) <= ranking.len(),
        forall|i: int| 0 <= i < slot(ranking, count) ==> ranking[i].1 > count,
        descending(ranking) ==> forall|i: int|
            slot(ranking, count) <= i < ranking.len() ==> ranking[i].1 <= count,
    decreases ranking.len(),
{
    if ranking.len() == 0 || ranking[0].1 <= count {
    } else {
        lemma_slot(ranking.skip(1), count);
        assert forall|i: int| 0 <= i < slot(ranking, count) implies ranking[i].1 > count by {
            if i > 0 {
                assert(ranking.skip(1)[i - 1] == ranking[i]);
            }
        }
        if descending(ranking) {
            assert forall|i: int, j: int| 0 <= i <= j < ranking.skip(1).len() implies ranking.skip(
                1,
            )[i].1 >= ranking.skip(1)[j].1 by {
                assert(ranking[i + 1].1 >= ranking[j + 1].1);
            }
            assert forall|i: int| slot(ranking, count) <= i < ranking.len() implies ranking[i].1
                <= count by {
                assert(ranking.skip(1)[i - 1] == ranking[i]);
            }
        }
    }
}

/// What the ranking holds: its counts are above `min` and descend, each
/// of its entries is one of `entries`, and each of `entries` with a count
/// above `min` is in it.
pub proof fn lemma_ranked(entries: Seq<Entry>, min: TknMaxAmount)
    ensures
        descending(ranked(entries, min)),
        ranked(entries, min).len() <= entries.len(),
        forall|i: int|
            0 <= i < ranked(entries, min).len() ==> (#[trigger] ranked(entries, min)[i]).1 > min
                && entries.contains(ranked(entries, min)[i]),
        forall|i: int|
            0 <= i < entries.len() && (#[trigger] entries[i]).1 > min ==> ranked(
                entries,
                min,
            ).contains(entries[i]),
    decreases entries.len(),
{
    let all = ranked(entries, min);
    if entries.len() > 0 {
        let front = entries.drop_last();
        let rest = ranked(front, min);
        let entry = entries.last();
        lemma_ranked(front, min);
        lemma_slot(rest, entry.1);
        let at = slot(rest, entry.1);
        assert forall|i: int| 0 <= i < all.len() implies (#[trigger] all[i]).1 > min
            && entries.contains(all[i]) by {
            if entry.1 > min && i == at {
                assert(entries[entries.len() - 1] == entry);
            } else {
                let k = if entry.1 > min && i > at {
                    i - 1
                } else {
                    i
                };
                assert(all[i] == rest[k]);
                assert(front.contains(rest[k]));
                let p = choose|p: int| 0 <= p < front.len() && front[p] == rest[k];
                assert(entries[p] == rest[k]);
            }
        }
        assert forall|i: int| 0 <= i < entries.len() && (#[trigger] entries[i]).1 > min implies all.contains(
            entries[i],
        ) by {
            if i == entries.len() - 1 {
                assert(all[at] == entry);
            } else {
                assert(front[i] == entries[i]);
                assert(rest.contains(entries[i]));
                let k = choose|k: int| 0 <= k < rest.len() && rest[k] == entries[i];
                if entry.1 > min && k >= at {
                    assert(all[k + 1] == rest[k]);
                } else {
                    assert(all[k] == rest[k]);
                }
            }
        }
        if entry.1 > min {
            assert forall|i: int, j: int| 0 <= i <= j < all.len() implies all[i].1 >= all[j].1 by {
                let a = if i > at {
                    i - 1
                } else {
                    i
                };
                let b = if j > at {
                    j - 1
                } else {
                    j
                };
                if i != at && j != at {
                    assert(rest[a].1 >= rest[b].1);
                }
            }
        }
    }
}

/// The counts of the ranking descend, and its entries with one count
/// are those of `entries`, in reverse order.
proof fn lemma_ranked_counts(entries: Seq<Entry>, min: TknMaxAmount, count: TknMaxAmount)
    ensures
        descending(ranked(entries, min)),
        with_count(ranked(entries, min), count) == if count > min {
            with_count(entries, count).reverse()
        } else {
            Seq::empty()
        },
    decreases entries.len(),
{
    lemma_ranked(entries, min);
    if entries.len() > 0 {
        let front = entries.drop_last();
        let rest = ranked(front, min);
        let entry = entries.last();
        lemma_ranked_counts(front, min, count);
        if entry.1 > min {
            let at = slot(rest, entry.1);
            lemma_slot(rest, entry.1);
            let before = rest.take(at);
            let behind = rest.skip(at);
            assert(rest =~= before + behind);
            assert(rest.insert(at, entry) =~= before + (seq![entry] + behind));
            lemma_with_count_concat(before, behind, count);
            lemma_with_count_concat(before, seq![entry] + behind, count);
            lemma_with_count_concat(seq![entry], behind, count);
            assert(seq![entry].drop_last() =~= Seq::<Entry>::empty());
            assert(with_count(Seq::<Entry>::empty(), count) =~= Seq::<Entry>::empty());
            if entry.1 == count {
                assert(with_count(seq![entry], count) =~= seq![entry]);
                assert forall|i: int| 0 <= i < before.len() implies before[i].1 != count by {
                    assert(before[i] == rest[i]);
                }
                lemma_with_count_none(before, count);
                let same = with_count(front, count);
                assert(same.push(entry).reverse() =~= seq![entry] + same.reverse());
                assert(with_count(ranked(entries, min), count) =~= seq![entry] + with_count(
                    rest,
                    count,
                ));
            } else {
                assert(with_count(seq![entry], count) =~= Seq::<Entry>::empty());
                assert(with_count(ranked(entries, min), count) =~= with_count(rest, count));
            }
        }
    } else {
        assert(Seq::<Entry>::empty().reverse() =~= Seq::<Entry>::empty());
    }
}

/// The entries above `min` with one count are the entries with that
/// count, if it is above `min`.
proof fn lemma_with_count_above(entries: Seq<Entry>, min: TknMaxAmount, count: TknMaxAmount)
    ensures
        with_count(above(entries, min), count) == if count > min {
            with_count(entries, count)
        } else {
            Seq::empty()
        },
        above(entries, min).len() == ranked(entries, min).len(),
    decreases entries.len(),
{
    if entries.len() > 0 {
        lemma_with_count_above(entries.drop_last(), min, count);
        let rest = ranked(entries.drop_last(), min);
        lemma_slot(rest, entries.last().1);
        if entries.last().1 > min {
            assert(above(entries, min).drop_last() =~= above(entries.drop_last(), min));
        }
    }
}

/// The ranking is what sorting gives: take the entries with a count
/// above `min`, sort them by ascending count so that entries with the
/// same count stay in their order, and read the result backwards.
pub proof fn lemma_ranked_sorts(entries: Seq<Entry>, min: TknMaxAmount)
    ensures
        sorts(ranked(entries, min).reverse(), above(entries, min)),
{
    let all = ranked(entries, min);
    let back = all.reverse();
    lemma_ranked(entries, min);
    lemma_with_count_above(entries, min, 0);
    assert forall|i: int, j: int| 0 <= i <= j < back.len() implies back[i].1 <= back[j].1 by {
        assert(all[all.len() - 1 - j].1 >= all[all.len() - 1 - i].1);
    }
    assert forall|count: TknMaxAmount| #[trigger]
        with_count(back, count) == with_count(above(entries, min), count) by {
        lemma_with_count_reverse(all, count);
        lemma_ranked_counts(entries, min, count);
        lemma_with_count_above(entries, min, count);
        if count > min {
            assert(with_count(entries, count).reverse().reverse() =~= with_count(entries, count));
        } else {
            assert(Seq::<Entry>::empty().reverse() =~= Seq::<Entry>::empty());
        }
    }
}

/// What sorting gives, read backwards, is the ranking.
pub proof fn lemma_sorted_ranks(sorted: Seq<Entry>, entries: Seq<Entry>, min: TknMaxAmount)
    requires
        sorts(sorted, above(entries, min)),
    ensures
        sorted.reverse() == ranked(entries, min),
{
    lemma_ranked_sorts(entries, min);
    lemma_sorts_unique(sorted, ranked(entries, min).reverse(), above(entries, min));
    assert(ranked(entries, min).reverse().reverse() =~= ranked(entries, min));
}

/// Bounded selection: no more than `n` entries, every count above `min`,
/// the counts in descending order, and each entry one of `entries`.
pub proof fn lemma_top_n(entries: Seq<Entry>, n: nat, min: TknMaxAmount)
    ensures
        top_n(entries, n, min).len() <= n,
        top_n(entries, n, min).len() <= entries.len(),
        descending(top_n(entries, n, min)),
        forall|i: int|
            0 <= i < top_n(entries, n, min).len() ==> (#[trigger] top_n(entries, n, min)[i]).1
                > min && entries.contains(top_n(entries, n, min)[i]),
{
    lemma_ranked(entries, min);
    let all = ranked(entries, min);
    let top = top_n(entries, n, min);
    assert forall|i: int| 0 <= i < top.len() implies (#[trigger] top[i]).1 > min
        && entries.contains(top[i]) by {
        assert(top[i] == all[i]);
    }
    assert forall|i: int, j: int| 0 <= i <= j < top.len() implies top[i].1 >= top[j].1 by {
        assert(all[i].1 >= all[j].1);
    }
}

/// Nothing that is left out outranks what is selected: an entry with a
/// count above `min` is selected, or `n` entries are and none of them has
/// a smaller count.
pub proof fn lemma_top_n_best(entries: Seq<Entry>, n: nat, min: TknMaxAmount, i: int)
    requires
        0 <= i < entries.len(),
        entries[i].1 > min,
    ensures
        top_n(entries, n, min).contains(entries[i]) || (top_n(entries, n, min).len() == n
            && forall|j: int|
            0 <= j < n ==> (#[trigger] top_n(entries, n, min)[j]).1 >= entries[i].1),
{
    lemma_ranked(entries, min);
    let all = ranked(entries, min);
    let top = top_n(entries, n, min);
    assert(all.contains(entries[i]));
    let k = choose|k: int| 0 <= k < all.len() && all[k] == entries[i];
    if k < top.len() {
        assert(top[k] == entries[i]);
    } else {
        assert forall|j: int| 0 <= j < n implies (#[trigger] top[j]).1 >= entries[i].1 by {
            assert(top[j] == all[j]);
            assert(all[j].1 >= all[k].1);
        }
    }
}

/// Returns the `n` most frequent of the entries with a count above `min`
/// in descending order: the entries above `min` are sorted by ascending
/// count, equal counts left in their order, and the first `n` of them
/// are read from the back. So of two entries with the same count the
/// later one comes first.
pub fn select(entries: &[Entry], n: usize, min: TknMaxAmount) -> (top: Vec<Entry>)
    ensures
        top@ == top_n(entries@, n as nat, min),
        top@.len() <= n,
        descending(top@),
        forall|i: int|
            0 <= i < top@.len() ==> (#[trigger] top@[i]).1 > min && entries@.contains(top@[i]),
{
    let mut eligible: Vec<Entry> = Vec::new();
    let mut i: usize = 0;
    while i < entries.len()
        invariant
            i <= entries.len(),
            eligible@ == above(entries@.take(i as int), min),
        decreases entries.len() - i,
    {
        assert(entries@.take(i + 1).drop_last() =~= entries@.take(i as int));
        if entries[i].1 > min {
            eligible.push(entries[i]);
        }
        i += 1;
    }
    assert(entries@.take(entries.len() as int) =~= entries@);
    let sorted = sort_by_count(eligible);
    proof {
        lemma_sorted_ranks(sorted@, entries@, min);
    }
    let mut top: Vec<Entry> = Vec::new();
    let mut k: usize = sorted.len();
    while k > 0 && top.len() < n
        invariant
            k <= sorted@.len(),
            top@.len() == sorted@.len() - k,
            top@.len() <= n,
            top@ == sorted@.reverse().take(top@.len() as int),
        decreases k,
    {
        k -= 1;
        top.push(sorted[k]);
        assert(top@ =~= sorted@.reverse().take(top@.len() as int));
    }
    proof {
        assert(sorted@.reverse().take(sorted@.len() as int) =~= sorted@.reverse());
        lemma_top_n(entries@, n as nat, min);
    }
    top
}

/// No digram stands in two entries.
pub open spec fn distinct(entries: Seq<Entry>) -> bool {
    forall|i: int, j: int| 0 <= i < j < entries.len() ==> entries[i].0 != entries[j].0
}

/// `order` lists what the table holds: each of its digrams once, with
/// its count.
pub open spec fn lists(order: Seq<Entry>, counts: Map<u64, TknMaxAmount>) -> bool {
    &&& forall|i: int|
        0 <= i < order.len() ==> counts.contains_key(digram_key_spec((#[trigger] order[i]).0))
            && counts[digram_key_spec(order[i].0)] == order[i].1
    &&& distinct(order)
    &&& forall|key: u64| #[trigger]
        counts.contains_key(key) ==> order.contains((key_digram_spec(key), counts[key]))
}

/// Returns the digrams of the table with their counts, in the order in
/// which the table hands them out.
pub fn digram_entries(diagram_to_count: &HashMap<u64, TknMaxAmount>) -> (entries: Vec<Entry>)
    ensures
        lists(entries@, diagram_to_count@),
{
    let mut entries: Vec<Entry> = Vec::new();
    let ghost walk = diagram_to_count.iter().remaining();
    for pair in it: diagram_to_count.iter()
        invariant
            it.seq() == walk,
            walk.no_duplicates(),
            forall|key: u64| #[trigger]
                diagram_to_count@.contains_key(key) ==> walk.contains(
                    (&key, &diagram_to_count@[key]),
                ),
            forall|k: int|
                0 <= k < walk.len() ==> diagram_to_count@.contains_key(*(#[trigger] walk[k]).0)
                    && diagram_to_count@[*walk[k].0] == *walk[k].1,
            entries@.len() == it.index(),
            forall|k: int|
                0 <= k < it.index() ==> #[trigger] entries@[k] == (
                    key_digram_spec(*walk[k].0),
                    *walk[k].1,
                ),
    {
        let (key, count) = pair;
        entries.push((key_digram(*key), *count));
    }
    proof {
        assert forall|i: int| 0 <= i < entries@.len() implies diagram_to_count@.contains_key(
            digram_key_spec((#[trigger] entries@[i]).0),
        ) && diagram_to_count@[digram_key_spec(entries@[i].0)] == entries@[i].1 by {
            lemma_key_digram_inverse(*walk[i].0);
        }
        assert forall|i: int, j: int| 0 <= i < j < entries@.len() implies entries@[i].0
            != entries@[j].0 by {
            lemma_key_digram_inverse(*walk[i].0);
            lemma_key_digram_inverse(*walk[j].0);
            if entries@[i].0 == entries@[j].0 {
                assert(*walk[i].0 == *walk[j].0);
                assert(*walk[i].1 == *walk[j].1);
                assert(walk[i] == walk[j]);
            }
        }
        assert forall|key: u64| #[trigger] diagram_to_count@.contains_key(key) implies entries@.contains(
            (key_digram_spec(key), diagram_to_count@[key]),
        ) by {
            assert(walk.contains((&key, &diagram_to_count@[key])));
            let k = choose|k: int| 0 <= k < walk.len() && walk[k] == (&key, &diagram_to_count@[key]);
            assert(entries@[k] == (key_digram_spec(key), diagram_to_count@[key]));
        }
    }
    entries
}

/// What the selector may hand out for a table: the `n` most frequent of
/// its entries with a count above `min`, ranked from some order in which
/// the table can be walked.
pub open spec fn selects(
    top: Seq<Entry>,
    counts: Map<u64, TknMaxAmount>,
    n: nat,
    min: TknMaxAmount,
) -> bool {
    exists|order: Seq<Entry>| lists(order, counts) && top == top_n(order, n, min)
}

/// The ranking of entries with distinct digrams has distinct digrams.
pub proof fn lemma_ranked_distinct(entries: Seq<Entry>, min: TknMaxAmount)
    requires
        distinct(entries),
    ensures
        distinct(ranked(entries, min)),
    decreases entries.len(),
{
    let all = ranked(entries, min);
    if entries.len() > 0 {
        let front = entries.drop_last();
        let rest = ranked(front, min);
        let entry = entries.last();
        assert forall|i: int, j: int| 0 <= i < j < front.len() implies front[i].0 != front[j].0 by {
            assert(entries[i].0 != entries[j].0);
        }
        lemma_ranked_distinct(front, min);
        lemma_ranked(front, min);
        lemma_slot(rest, entry.1);
        if entry.1 > min {
            let at = slot(rest, entry.1);
            assert forall|i: int, j: int| 0 <= i < j < all.len() implies all[i].0 != all[j].0 by {
                let a = if i > at {
                    i - 1
                } else {
                    i
                };
                let b = if j > at {
                    j - 1
                } else {
                    j
                };
                if i != at && j != at {
                    assert(rest[a].0 != rest[b].0);
                } else {
                    let other = if i == at {
                        rest[b]
                    } else {
                        rest[a]
                    };
                    assert(front.contains(other));
                    let p = choose|p: int| 0 <= p < front.len() && front[p] == other;
                    assert(entries[p].0 != entries[entries.len() - 1].0);
                }
            }
        }
    }
}

/// What holds of a selection whatever the order of the walk: it has no
/// more than `n` entries, its counts are above `min` and descend, each
/// entry is a digram of the table with its count, no digram comes twice,
/// and a digram of the table with a count above `min` is left out only
/// if `n` entries with counts that are no smaller are selected.
pub proof fn lemma_selects(
    top: Seq<Entry>,
    counts: Map<u64, TknMaxAmount>,
    n: nat,
    min: TknMaxAmount,
)
    requires
        selects(top, counts, n, min),
    ensures
        top.len() <= n,
        descending(top),
        distinct(top),
        forall|i: int|
            0 <= i < top.len() ==> (#[trigger] top[i]).1 > min && counts.contains_key(
                digram_key_spec(top[i].0),
            ) && counts[digram_key_spec(top[i].0)] == top[i].1,
        forall|key: u64| #[trigger]
            counts.contains_key(key) && counts[key] > min ==> top.contains(
                (key_digram_spec(key), counts[key]),
            ) || (top.len() == n && forall|j: int| 0 <= j < n ==> (#[trigger] top[j]).1 >= counts[key]),
        n > 0 && (exists|key: u64| #[trigger] counts.contains_key(key) && counts[key] > min)
            ==> top.len() > 0,
{
    let order = choose|order: Seq<Entry>| lists(order, counts) && top == top_n(order, n, min);
    lemma_top_n(order, n, min);
    lemma_ranked_distinct(order, min);
    let all = ranked(order, min);
    assert forall|i: int, j: int| 0 <= i < j < top.len() implies top[i].0 != top[j].0 by {
        assert(all[i].0 != all[j].0);
    }
    assert forall|i: int| 0 <= i < top.len() implies (#[trigger] top[i]).1 > min
        && counts.contains_key(digram_key_spec(top[i].0)) && counts[digram_key_spec(top[i].0)]
        == top[i].1 by {
        assert(order.contains(top[i]));
        let p = choose|p: int| 0 <= p < order.len() && order[p] == top[i];
        assert(counts.contains_key(digram_key_spec(order[p].0)));
    }
    assert forall|key: u64| #[trigger] counts.contains_key(key) && counts[key] > min implies top.contains(
        (key_digram_spec(key), counts[key]),
    ) || (top.len() == n && forall|j: int| 0 <= j < n ==> (#[trigger] top[j]).1 >= counts[key]) by {
        let entry = (key_digram_spec(key), counts[key]);
        assert(order.contains(entry));
        let p = choose|p: int| 0 <= p < order.len() && order[p] == entry;
        lemma_top_n_best(order, n, min, p);
    }
    if n > 0 && (exists|key: u64| #[trigger] counts.contains_key(key) && counts[key] > min) {
        let key = choose|key: u64| #[trigger] counts.contains_key(key) && counts[key] > min;
        assert(top.contains((key_digram_spec(key), counts[key])) || top.len() == n);
    }
}

/// Return the `n` most common token id pairs in descending order that have a count greater than `min`.
///
/// Which of several digrams with the same count comes first, and which
/// of them is left out, depends on the order in which the table hands
/// out its entries.
pub fn top_n_digrams(
    diagram_to_count: &HashMap<u64, TknMaxAmount>,
    n: usize,
    min: TknMaxAmount,
) -> (top_n: Vec<Entry>)
    ensures
        selects(top_n@, diagram_to_count@, n as nat, min),
        top_n@.len() <= n,
        descending(top_n@),
        distinct(top_n@),
        forall|i: int|
            0 <= i < top_n@.len() ==> (#[trigger] top_n@[i]).1 > min
                && diagram_to_count@.contains_key(digram_key_spec(top_n@[i].0))
                && diagram_to_count@[digram_key_spec(top_n@[i].0)] == top_n@[i].1,
{
    let entries = digram_entries(diagram_to_count);
    let top_n = select(entries.as_slice(), n, min);
    proof {
        lemma_selects(top_n@, diagram_to_count@, n as nat, min);
    }
    top_n
}

} // verus!
