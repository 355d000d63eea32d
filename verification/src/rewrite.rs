//! Replacing the occurrences of a digram by one identifier.

use crate::digram::{lemma_occurrences_positive, occurrences, pair_at};
use crate::model::{decoded, expansion, lemma_decoded_concat, lemma_decoded_one};
use crate::token::{TknDiagram, TknId, Token};
use vstd::prelude::*;

verus! {

/// The sequence after one pass from left to right: where the next two
/// identifiers are the digram, `id` stands for both and the pass goes on
/// behind them; elsewhere the identifier stays. Occurrences that overlap
/// are taken from the left.
pub open spec fn rewritten(text: Seq<TknId>, digram: TknDiagram, id: TknId) -> Seq<TknId>
    decreases text.len(),
{
    if text.len() == 0 {
        Seq::empty()
    } else if text.len() >= 2 && pair_at(text, 0) == digram {
        seq![id] + rewritten(text.skip(2), digram, id)
    } else {
        seq![text[0]] + rewritten(text.skip(1), digram, id)
    }
}

/// Every identifier of `text` is below `bound`.
pub open spec fn all_below(text: Seq<TknId>, bound: nat) -> bool {
    forall|i: int| 0 <= i < text.len() ==> (#[trigger] text[i]) < bound
}

/// The pass does not make the sequence longer, and makes it shorter if
/// the digram occurs. It brings in no identifier but `id`.
pub proof fn lemma_rewritten_len(text: Seq<TknId>, digram: TknDiagram, id: TknId)
    ensures
        rewritten(text, digram, id).len() <= text.len(),
        occurrences(text, digram) > 0 ==> rewritten(text, digram, id).len() < text.len(),
        occurrences(text, digram) == 0 ==> rewritten(text, digram, id) == text,
        forall|i: int|
            0 <= i < rewritten(text, digram, id).len() ==> (#[trigger] rewritten(
                text,
                digram,
                id,
            )[i]) == id || text.contains(rewritten(text, digram, id)[i]),
    decreases text.len(),
{
    let out = rewritten(text, digram, id);
    lemma_occurrences_positive(text, digram);
    if text.len() == 0 {
    } else if text.len() >= 2 && pair_at(text, 0) == digram {
        let rest = text.skip(2);
        lemma_rewritten_len(rest, digram, id);
        assert forall|i: int| 0 <= i < out.len() implies (#[trigger] out[i]) == id || text.contains(
            out[i],
        ) by {
            if i > 0 {
                let v = rewritten(rest, digram, id)[i - 1];
                if v != id {
                    let k = choose|k: int| 0 <= k < rest.len() && rest[k] == v;
                    assert(text[k + 2] == v);
                }
            }
        }
    } else {
        let rest = text.skip(1);
        lemma_rewritten_len(rest, digram, id);
        lemma_occurrences_positive(rest, digram);
        if occurrences(text, digram) > 0 {
            let k = choose|k: int| 0 <= k < text.len() - 1 && #[trigger] pair_at(text, k) == digram;
            assert(pair_at(rest, k - 1) == digram);
        }
        if occurrences(rest, digram) > 0 {
            let k = choose|k: int| 0 <= k < rest.len() - 1 && #[trigger] pair_at(rest, k) == digram;
            assert(pair_at(text, k + 1) == digram);
        }
        if occurrences(text, digram) == 0 {
            assert(out =~= text);
        }
        assert forall|i: int| 0 <= i < out.len() implies (#[trigger] out[i]) == id || text.contains(
            out[i],
        ) by {
            if i > 0 {
                let v = rewritten(rest, digram, id)[i - 1];
                if v != id {
                    let k = choose|k: int| 0 <= k < rest.len() && rest[k] == v;
                    assert(text[k + 1] == v);
                }
            } else {
                assert(text[0] == out[0]);
            }
        }
    }
}

/// The pass keeps the identifiers below a bound that `id` is below.
pub proof fn lemma_rewritten_below(text: Seq<TknId>, digram: TknDiagram, id: TknId, bound: nat)
    requires
        all_below(text, bound),
        id < bound,
    ensures
        all_below(rewritten(text, digram, id), bound),
{
    lemma_rewritten_len(text, digram, id);
    let out = rewritten(text, digram, id);
    assert forall|i: int| 0 <= i < out.len() implies (#[trigger] out[i]) < bound by {
        if out[i] != id {
            let k = choose|k: int| 0 <= k < text.len() && text[k] == out[i];
            assert(text[k] < bound);
        }
    }
}

/// The pass keeps the text that the sequence stands for, if `id` stands
/// for the text of the digram's first identifier followed by that of its
/// second.
pub proof fn lemma_rewritten_decoded(
    tokens: Seq<Token>,
    known: nat,
    text: Seq<TknId>,
    digram: TknDiagram,
    id: TknId,
)
    requires
        all_below(text, known),
        id < known,
        expansion(tokens, id as int) == expansion(tokens, digram.0 as int) + expansion(
            tokens,
            digram.1 as int,
        ),
    ensures
        decoded(tokens, known, rewritten(text, digram, id)) == decoded(tokens, known, text),
    decreases text.len(),
{
    if text.len() == 0 {
    } else if text.len() >= 2 && pair_at(text, 0) == digram {
        let rest = text.skip(2);
        lemma_rewritten_decoded(tokens, known, rest, digram, id);
        lemma_decoded_concat(tokens, known, seq![id], rewritten(rest, digram, id));
        lemma_decoded_concat(tokens, known, seq![text[0], text[1]], rest);
        assert(seq![text[0], text[1]] + rest =~= text);
        lemma_decoded_one(tokens, known, id);
        lemma_decoded_one(tokens, known, text[0]);
        assert(seq![text[0], text[1]].drop_last() =~= seq![text[0]]);
    } else {
        let rest = text.skip(1);
        lemma_rewritten_decoded(tokens, known, rest, digram, id);
        lemma_decoded_concat(tokens, known, seq![text[0]], rewritten(rest, digram, id));
        lemma_decoded_concat(tokens, known, seq![text[0]], rest);
        assert(seq![text[0]] + rest =~= text);
    }
}

/// Appends to `new_text` what one pass over `text` gives: `new_id` for
/// each occurrence of the digram, taken from the left and without
/// overlap, and the identifiers of `text` elsewhere.
pub fn replace_digram(
    text: &[TknId],
    digram: TknDiagram,
    new_id: TknId,
    new_text: &mut Vec<TknId>,
)
    ensures
        final(new_text)@ == old(new_text)@ + rewritten(text@, digram, new_id),
{
    let mut i: usize = 0;
    assert(text@.skip(0) =~= text@);
    while i < text.len()
        invariant
            i <= text.len(),
            new_text@ + rewritten(text@.skip(i as int), digram, new_id) == old(new_text)@
                + rewritten(text@, digram, new_id),
        decreases text.len() - i,
    {
        let ghost rest = text@.skip(i as int);
        if i + 1 < text.len() && text[i] == digram.0 && text[i + 1] == digram.1 {
            assert(pair_at(rest, 0) == digram);
            assert(rest.skip(2) =~= text@.skip(i + 2));
            assert(new_text@.push(new_id) + rewritten(text@.skip(i + 2), digram, new_id)
                =~= new_text@ + rewritten(rest, digram, new_id));
            new_text.push(new_id);
            i += 2;
        } else {
            assert(!(rest.len() >= 2 && pair_at(rest, 0) == digram));
            assert(rest.skip(1) =~= text@.skip(i + 1));
            assert(new_text@.push(text@[i as int]) + rewritten(text@.skip(i + 1), digram, new_id)
                =~= new_text@ + rewritten(rest, digram, new_id));
            new_text.push(text[i]);
            i += 1;
        }
    }
    assert(new_text@ + rewritten(text@.skip(i as int), digram, new_id) =~= new_text@);
}

} // verus!
