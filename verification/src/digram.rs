//! Counting the adjacent pairs of a sequence of identifiers.

use crate::token::{
    digram_key, digram_key_spec, key_digram_spec, lemma_digram_key_inverse,
    lemma_key_digram_inverse, TknDiagram, TknId, TknMaxAmount,
};
use std::collections::HashMap;
use vstd::prelude::*;

verus! {

broadcast use vstd::std_specs::hash::group_hash_axioms;

/// The digram at position `i` of `text`: the identifier there and the
/// next one.
pub open spec fn pair_at(text: Seq<TknId>, i: int) -> TknDiagram {
    (text[i], text[i + 1])
}

/// At how many positions of `text` the digram stands.
pub open spec fn occurrences(text: Seq<TknId>, digram: TknDiagram) -> nat
    decreases text.len(),
{
    if text.len() < 2 {
        0
    } else {
        occurrences(text.drop_last(), digram) + if pair_at(text, text.len() - 2) == digram {
            1nat
        } else {
            0nat
        }
    }
}

/// The count that a table holds for a digram: none is zero.
pub open spec fn count_of(counts: Map<u64, TknMaxAmount>, digram: TknDiagram) -> nat {
    if counts.contains_key(digram_key_spec(digram)) {
        counts[digram_key_spec(digram)] as nat
    } else {
        0
    }
}

/// The table of a sequence: each digram that occurs in it, under its
/// key, with the number of positions at which it stands.
pub open spec fn tally(text: Seq<TknId>) -> Map<u64, TknMaxAmount> {
    Map::new(
        |key: u64| occurrences(text, key_digram_spec(key)) > 0,
        |key: u64| occurrences(text, key_digram_spec(key)) as TknMaxAmount,
    )
}

/// A digram stands at fewer positions than the sequence is long, and at
/// no more positions of a beginning of the sequence than of the whole.
pub proof fn lemma_occurrences_bound(text: Seq<TknId>, digram: TknDiagram, n: int)
    requires
        0 <= n <= text.len(),
    ensures
        occurrences(text.take(n), digram) <= occurrences(text, digram),
        text.len() == 0 ==> occurrences(text, digram) == 0,
        text.len() > 0 ==> occurrences(text, digram) < text.len(),
    decreases text.len(),
{
    if text.len() >= 2 {
        lemma_occurrences_bound(text.drop_last(), digram, 0);
    }
    if n < text.len() {
        assert(text.drop_last().take(n) =~= text.take(n));
        lemma_occurrences_bound(text.drop_last(), digram, n);
    } else {
        assert(text.take(n) =~= text);
    }
}

/// A digram occurs in a sequence exactly if it stands at one of its
/// positions.
pub proof fn lemma_occurrences_positive(text: Seq<TknId>, digram: TknDiagram)
    ensures
        occurrences(text, digram) > 0 <==> exists|i: int|
            0 <= i < text.len() - 1 && #[trigger] pair_at(text, i) == digram,
    decreases text.len(),
{
    if text.len() >= 2 {
        let front = text.drop_last();
        lemma_occurrences_positive(front, digram);
        if occurrences(front, digram) > 0 {
            let i = choose|i: int| 0 <= i < front.len() - 1 && #[trigger] pair_at(front, i) == digram;
            assert(pair_at(text, i) == digram);
        }
        if exists|i: int| 0 <= i < text.len() - 1 && #[trigger] pair_at(text, i) == digram {
            let i = choose|i: int| 0 <= i < text.len() - 1 && #[trigger] pair_at(text, i) == digram;
            if i < text.len() - 2 {
                assert(pair_at(front, i) == digram);
            }
        }
    }
}

/// Counts all the token id pairs if given a hash map and a slice of tokens.
///
/// The count of every digram grows by the number of positions of `text`
/// at which it stands. The table is keyed by `digram_key`.
pub fn digram_count(text: &[TknId], id_to_count: &mut HashMap<u64, TknMaxAmount>)
    requires
        forall|digram: TknDiagram|
            count_of(old(id_to_count)@, digram) + occurrences(text@, digram) <= u32::MAX,
    ensures
        forall|digram: TknDiagram| #[trigger]
            count_of(final(id_to_count)@, digram) == count_of(old(id_to_count)@, digram)
                + occurrences(text@, digram),
        forall|key: u64| #[trigger]
            final(id_to_count)@.contains_key(key) <==> old(id_to_count)@.contains_key(key)
                || occurrences(text@, key_digram_spec(key)) > 0,
        old(id_to_count)@ == Map::<u64, TknMaxAmount>::empty() ==> final(id_to_count)@ == tally(
            text@,
        ),
{
    if text.len() < 2 {
        proof {
            if id_to_count@ == Map::<u64, TknMaxAmount>::empty() {
                assert(id_to_count@ =~= tally(text@));
            }
        }
        return ;
    }
    let mut i: usize = 1;
    assert forall|digram: TknDiagram| occurrences(text@.take(1), digram) == 0 by {
        assert(text@.take(1).len() == 1);
    }
    while i < text.len()
        invariant
            1 <= i <= text.len(),
            forall|digram: TknDiagram|
                count_of(old(id_to_count)@, digram) + occurrences(text@, digram) <= u32::MAX,
            forall|digram: TknDiagram| #[trigger]
                count_of(id_to_count@, digram) == count_of(old(id_to_count)@, digram)
                    + occurrences(text@.take(i as int), digram),
            forall|key: u64| #[trigger]
                id_to_count@.contains_key(key) <==> old(id_to_count)@.contains_key(key)
                    || occurrences(text@.take(i as int), key_digram_spec(key)) > 0,
        decreases text.len() - i,
    {
        let digram = (text[i - 1], text[i]);
        let key = digram_key(digram);
        let ghost before = id_to_count@;
        proof {
            lemma_digram_key_inverse(digram);
            lemma_occurrences_bound(text@, digram, i + 1);
            assert(text@.take(i + 1).drop_last() =~= text@.take(i as int));
            assert(pair_at(text@.take(i + 1), i - 1) == digram);
            assert(count_of(before, digram) == count_of(old(id_to_count)@, digram) + occurrences(
                text@.take(i as int),
                digram,
            ));
        }
        let count: TknMaxAmount = match id_to_count.get(&key) {
            Some(count) => *count + 1,
            None => 1,
        };
        id_to_count.insert(key, count);
        proof {
            assert forall|other: TknDiagram| #[trigger]
                count_of(id_to_count@, other) == count_of(old(id_to_count)@, other) + occurrences(
                    text@.take(i + 1),
                    other,
                ) by {
                lemma_digram_key_inverse(other);
                assert(count_of(before, other) == count_of(old(id_to_count)@, other) + occurrences(
                    text@.take(i as int),
                    other,
                ));
            }
            assert forall|other: u64| #[trigger]
                id_to_count@.contains_key(other) <==> old(id_to_count)@.contains_key(other)
                    || occurrences(text@.take(i + 1), key_digram_spec(other)) > 0 by {
                lemma_key_digram_inverse(other);
                assert(before.contains_key(other) <==> old(id_to_count)@.contains_key(other)
                    || occurrences(text@.take(i as int), key_digram_spec(other)) > 0);
            }
        }
        i += 1;
    }
    proof {
        assert(text@.take(text.len() as int) =~= text@);
        if old(id_to_count)@ == Map::<u64, TknMaxAmount>::empty() {
            assert forall|key: u64| #[trigger] id_to_count@.contains_key(key) implies id_to_count@[key]
                == tally(text@)[key] by {
                lemma_key_digram_inverse(key);
                assert(count_of(id_to_count@, key_digram_spec(key)) == count_of(
                    old(id_to_count)@,
                    key_digram_spec(key),
                ) + occurrences(text@, key_digram_spec(key)));
            }
            assert(id_to_count@ =~= tally(text@));
        }
    }
}

} // verus!
