//! Learning a vocabulary from a text.

use crate::digram::{
    count_of, digram_count, lemma_occurrences_bound, lemma_occurrences_positive, occurrences,
    pair_at, tally,
};
use crate::model::{
    decoded, extends, grounded, grounded_at, lemma_decoded_extends, lemma_decoded_known,
    lemma_registered, lemma_registered_all_grows, lemma_seeded, registered, registered_all, units,
};
use crate::rewrite::{
    all_below, lemma_rewritten_below, lemma_rewritten_decoded, lemma_rewritten_len,
    replace_digram, rewritten,
};
use crate::select::{lemma_selects, selects, top_n_digrams};
use crate::sort::Entry;
use crate::token::{
    digram_key_spec, lemma_digram_key_inverse, TknDiagram, TknId, TknMaxAmount, Token,
};
use crate::vocabulary::Vocabulary;
use std::collections::HashMap;
use vstd::prelude::*;

verus! {

broadcast use vstd::string::group_string_axioms;

/// One promotion: the composition of the digram is registered, and one
/// pass over the sequence puts its identifier in place of the digram.
pub open spec fn promoted(tokens: Seq<Token>, text: Seq<TknId>, digram: TknDiagram) -> (
    Seq<Token>,
    Seq<TknId>,
) {
    let (after, id) = registered(tokens, Token::Composition(digram.0, digram.1));
    (after, rewritten(text, digram, id as TknId))
}

/// One round: the digrams of the selection are promoted from its last
/// entry to its first, as long as promotions are left of the budget.
/// Gives the vocabulary, the sequence and what is left of the budget.
pub open spec fn round(
    tokens: Seq<Token>,
    text: Seq<TknId>,
    selection: Seq<Entry>,
    budget: nat,
) -> (Seq<Token>, Seq<TknId>, nat)
    decreases selection.len(),
{
    if selection.len() == 0 || budget == 0 {
        (tokens, text, budget)
    } else {
        let (after, out) = promoted(tokens, text, selection.last().0);
        round(after, out, selection.drop_last(), (budget - 1) as nat)
    }
}

/// The rounds of `selections` one after the other.
pub open spec fn after_rounds(
    tokens: Seq<Token>,
    text: Seq<TknId>,
    budget: nat,
    selections: Seq<Seq<Entry>>,
) -> (Seq<Token>, Seq<TknId>, nat)
    decreases selections.len(),
{
    if selections.len() == 0 {
        (tokens, text, budget)
    } else {
        let (before, sequence, left) = after_rounds(tokens, text, budget, selections.drop_last());
        round(before, sequence, selections.last(), left)
    }
}

/// Each round begins with promotions left of the budget, and its
/// selection is not empty and is one that the selector may hand out for
/// the digram counts of the sequence at that time.
pub open spec fn is_run(
    tokens: Seq<Token>,
    text: Seq<TknId>,
    budget: nat,
    selections: Seq<Seq<Entry>>,
    n: nat,
    cutoff: TknMaxAmount,
) -> bool
    decreases selections.len(),
{
    if selections.len() == 0 {
        true
    } else {
        let earlier = selections.drop_last();
        let (_before, sequence, left) = after_rounds(tokens, text, budget, earlier);
        &&& is_run(tokens, text, budget, earlier, n, cutoff)
        &&& left > 0
        &&& selections.last().len() > 0
        &&& selects(selections.last(), tally(sequence), n, cutoff)
    }
}

/// No digram of the sequence stands at more than `cutoff` positions.
pub open spec fn settled(text: Seq<TknId>, cutoff: TknMaxAmount) -> bool {
    forall|digram: TknDiagram| occurrences(text, digram) <= cutoff
}

/// Learning from the vocabulary `tokens` and the sequence `text` can end
/// with the vocabulary `after` and the sequence `out`: some run of rounds
/// leads there, and it ends because the budget is used up or because no
/// digram can be selected.
#[verifier::opaque]
pub open spec fn learns(
    tokens: Seq<Token>,
    text: Seq<TknId>,
    merges: nat,
    n: nat,
    cutoff: TknMaxAmount,
    after: Seq<Token>,
    out: Seq<TknId>,
) -> bool {
    exists|selections: Seq<Seq<Entry>>|
        {
            let end = #[trigger] after_rounds(tokens, text, merges, selections);
            &&& is_run(tokens, text, merges, selections, n, cutoff)
            &&& end.0 == after
            &&& end.1 == out
            &&& (end.2 == 0 || n == 0 || settled(out, cutoff))
        }
}

/// The operands of every digram of the selection are below `bound`.
pub open spec fn operands_below(selection: Seq<Entry>, bound: nat) -> bool {
    forall|i: int|
        0 <= i < selection.len() ==> (#[trigger] selection[i]).0.0 < bound && selection[i].0.1
            < bound
}

/// What a promotion keeps: the vocabulary stays free of repeats and grows
/// by one symbol at most, the sequence gets no longer and stays within
/// the vocabulary, and a grounded vocabulary stays grounded with the
/// sequence standing for the same text.
pub proof fn lemma_promoted(tokens: Seq<Token>, text: Seq<TknId>, digram: TknDiagram)
    requires
        tokens.no_duplicates(),
        tokens.len() < u32::MAX,
        digram.0 < tokens.len(),
        digram.1 < tokens.len(),
        all_below(text, tokens.len()),
    ensures
        ({
            let (after, out) = promoted(tokens, text, digram);
            &&& after.no_duplicates()
            &&& extends(after, tokens)
            &&& after.len() <= tokens.len() + 1
            &&& all_below(out, after.len())
            &&& out.len() <= text.len()
            &&& occurrences(text, digram) > 0 ==> out.len() < text.len()
            &&& grounded(tokens) ==> grounded(after) && decoded(after, after.len(), out)
                == decoded(tokens, tokens.len(), text)
        }),
{
    let tkn = Token::Composition(digram.0, digram.1);
    let (after, id) = registered(tokens, tkn);
    let (_, out) = promoted(tokens, text, digram);
    lemma_registered(tokens, tkn);
    lemma_rewritten_len(text, digram, id as TknId);
    assert(all_below(text, after.len()));
    lemma_rewritten_below(text, digram, id as TknId, after.len());
    if grounded(tokens) {
        assert forall|i: int| 0 <= i < after.len() implies #[trigger] grounded_at(after, i) by {
            if i < tokens.len() {
                assert(after.take(tokens.len() as int)[i] == after[i]);
                assert(grounded_at(tokens, i));
            }
        }
        assert(grounded_at(after, id));
        lemma_rewritten_decoded(after, after.len(), text, digram, id as TknId);
        lemma_decoded_known(after, after.len(), tokens.len(), text);
        lemma_decoded_extends(after, tokens, tokens.len(), text);
    }
}

/// What a round keeps, and how much of the budget it uses: one promotion
/// for each entry of the selection, as far as the budget goes.
pub proof fn lemma_round(
    tokens: Seq<Token>,
    text: Seq<TknId>,
    selection: Seq<Entry>,
    budget: nat,
)
    requires
        tokens.no_duplicates(),
        operands_below(selection, tokens.len()),
        all_below(text, tokens.len()),
        tokens.len() + budget <= u32::MAX,
    ensures
        ({
            let (after, out, left) = round(tokens, text, selection, budget);
            &&& after.no_duplicates()
            &&& extends(after, tokens)
            &&& left == if selection.len() < budget {
                budget - selection.len()
            } else {
                0
            }
            &&& after.len() + left <= tokens.len() + budget
            &&& all_below(out, after.len())
            &&& out.len() <= text.len()
            &&& selection.len() > 0 && budget > 0 && occurrences(text, selection.last().0) > 0
                ==> out.len() < text.len()
            &&& grounded(tokens) ==> grounded(after) && decoded(after, after.len(), out)
                == decoded(tokens, tokens.len(), text)
        }),
    decreases selection.len(),
{
    if selection.len() == 0 || budget == 0 {
        assert(tokens.take(tokens.len() as int) =~= tokens);
    } else {
        let digram = selection.last().0;
        let (mid, sequence) = promoted(tokens, text, digram);
        lemma_promoted(tokens, text, digram);
        let rest = selection.drop_last();
        assert forall|i: int| 0 <= i < rest.len() implies (#[trigger] rest[i]).0.0 < mid.len()
            && rest[i].0.1 < mid.len() by {
            assert(rest[i] == selection[i]);
        }
        lemma_round(mid, sequence, rest, (budget - 1) as nat);
        let (after, out, left) = round(tokens, text, selection, budget);
        assert(after.take(tokens.len() as int) =~= mid.take(tokens.len() as int)) by {
            assert(after.take(mid.len() as int) == mid);
        }
    }
}

/// What a selection from the digram counts of a sequence is like: its
/// digrams occur in the sequence more than `cutoff` times, so their
/// operands are identifiers of the sequence; and it is empty only if
/// nothing is asked for or no digram occurs that often.
pub proof fn lemma_selection(
    selection: Seq<Entry>,
    text: Seq<TknId>,
    n: nat,
    cutoff: TknMaxAmount,
    bound: nat,
)
    requires
        selects(selection, tally(text), n, cutoff),
        all_below(text, bound),
        text.len() <= u32::MAX,
    ensures
        selection.len() <= n,
        operands_below(selection, bound),
        forall|i: int|
            0 <= i < selection.len() ==> occurrences(text, (#[trigger] selection[i]).0) > cutoff,
        selection.len() == 0 ==> n == 0 || settled(text, cutoff),
{
    lemma_selects(selection, tally(text), n, cutoff);
    assert forall|i: int| 0 <= i < selection.len() implies occurrences(
        text,
        (#[trigger] selection[i]).0,
    ) > cutoff && selection[i].0.0 < bound && selection[i].0.1 < bound by {
        let digram = selection[i].0;
        lemma_digram_key_inverse(digram);
        lemma_occurrences_bound(text, digram, 0);
        assert(tally(text).contains_key(digram_key_spec(digram)));
        lemma_occurrences_positive(text, digram);
        let at = choose|at: int| 0 <= at < text.len() - 1 && #[trigger] pair_at(text, at) == digram;
        assert(text[at] < bound && text[at + 1] < bound);
    }
    if selection.len() == 0 && n > 0 {
        assert forall|digram: TknDiagram| occurrences(text, digram) <= cutoff by {
            lemma_digram_key_inverse(digram);
            lemma_occurrences_bound(text, digram, 0);
            let key = digram_key_spec(digram);
            if occurrences(text, digram) > cutoff {
                assert(tally(text).contains_key(key) && tally(text)[key] > cutoff);
            }
        }
    }
}

/// A run goes on by one round whose selection fits the state that the
/// run has reached.
pub proof fn lemma_run_push(
    tokens: Seq<Token>,
    text: Seq<TknId>,
    budget: nat,
    selections: Seq<Seq<Entry>>,
    selection: Seq<Entry>,
    n: nat,
    cutoff: TknMaxAmount,
)
    requires
        is_run(tokens, text, budget, selections, n, cutoff),
        after_rounds(tokens, text, budget, selections).2 > 0,
        selection.len() > 0,
        selects(selection, tally(after_rounds(tokens, text, budget, selections).1), n, cutoff),
    ensures
        is_run(tokens, text, budget, selections.push(selection), n, cutoff),
        after_rounds(tokens, text, budget, selections.push(selection)) == ({
            let (before, sequence, left) = after_rounds(tokens, text, budget, selections);
            round(before, sequence, selection, left)
        }),
{
    assert(selections.push(selection).drop_last() =~= selections);
}

/// The end of a run that can go no further is an outcome of learning.
pub proof fn lemma_run_ends(
    tokens: Seq<Token>,
    text: Seq<TknId>,
    merges: nat,
    n: nat,
    cutoff: TknMaxAmount,
    selections: Seq<Seq<Entry>>,
)
    requires
        is_run(tokens, text, merges, selections, n, cutoff),
        ({
            let end = after_rounds(tokens, text, merges, selections);
            end.2 == 0 || n == 0 || settled(end.1, cutoff)
        }),
    ensures
        ({
            let end = after_rounds(tokens, text, merges, selections);
            learns(tokens, text, merges, n, cutoff, end.0, end.1)
        }),
{
    reveal(learns);
}

/// What a run keeps from its start to its end: the vocabulary stays free
/// of repeats and only grows, by one symbol for each promotion at most;
/// the sequence stays within the vocabulary and gets shorter with the
/// first round; and a grounded vocabulary stays grounded with the
/// sequence standing for the same text.
pub proof fn lemma_run(
    tokens: Seq<Token>,
    text: Seq<TknId>,
    budget: nat,
    selections: Seq<Seq<Entry>>,
    n: nat,
    cutoff: TknMaxAmount,
)
    requires
        tokens.no_duplicates(),
        all_below(text, tokens.len()),
        text.len() <= u32::MAX,
        tokens.len() + budget <= u32::MAX,
        is_run(tokens, text, budget, selections, n, cutoff),
    ensures
        ({
            let (after, out, left) = after_rounds(tokens, text, budget, selections);
            &&& after.no_duplicates()
            &&& extends(after, tokens)
            &&& left <= budget
            &&& after.len() + left <= tokens.len() + budget
            &&& all_below(out, after.len())
            &&& out.len() <= text.len()
            &&& selections.len() > 0 ==> out.len() < text.len() && n > 0 && budget > 0
                && !settled(text, cutoff)
            &&& selections.len() == 0 ==> after == tokens && out == text && left == budget
            &&& grounded(tokens) ==> grounded(after) && decoded(after, after.len(), out)
                == decoded(tokens, tokens.len(), text)
        }),
    decreases selections.len(),
{
    if selections.len() == 0 {
        assert(tokens.take(tokens.len() as int) =~= tokens);
    } else {
        let earlier = selections.drop_last();
        let selection = selections.last();
        let (before, sequence, left) = after_rounds(tokens, text, budget, earlier);
        lemma_run(tokens, text, budget, earlier, n, cutoff);
        lemma_selection(selection, sequence, n, cutoff, before.len());
        lemma_round(before, sequence, selection, left);
        let (after, out, _rest) = round(before, sequence, selection, left);
        assert(selection[selection.len() - 1] == selection.last());
        assert(after.take(tokens.len() as int) =~= before.take(tokens.len() as int)) by {
            assert(after.take(before.len() as int) == before);
        }
    }
}

/// Whatever learning ends with, it is a sequence within a vocabulary
/// that has grown by `merges` symbols at most, and it stands for the
/// text that the sequence stood for at the start, if the vocabulary was
/// grounded then. Nothing changes if no promotion is allowed or no
/// digram can be selected at the start; else the sequence gets shorter.
pub proof fn lemma_learns(
    tokens: Seq<Token>,
    text: Seq<TknId>,
    merges: nat,
    n: nat,
    cutoff: TknMaxAmount,
    after: Seq<Token>,
    out: Seq<TknId>,
)
    requires
        tokens.no_duplicates(),
        all_below(text, tokens.len()),
        text.len() <= u32::MAX,
        tokens.len() + merges <= u32::MAX,
        learns(tokens, text, merges, n, cutoff, after, out),
    ensures
        after.no_duplicates(),
        extends(after, tokens),
        after.len() <= tokens.len() + merges,
        all_below(out, after.len()),
        out.len() <= text.len(),
        merges == 0 || n == 0 || settled(text, cutoff) ==> after == tokens && out == text,
        merges > 0 && n > 0 && !settled(text, cutoff) ==> out.len() < text.len(),
        grounded(tokens) ==> grounded(after) && decoded(after, after.len(), out) == decoded(
            tokens,
            tokens.len(),
            text,
        ),
{
    reveal(learns);
    let selections = choose|selections: Seq<Seq<Entry>>|
        {
            let end = #[trigger] after_rounds(tokens, text, merges, selections);
            &&& is_run(tokens, text, merges, selections, n, cutoff)
            &&& end.0 == after
            &&& end.1 == out
            &&& (end.2 == 0 || n == 0 || settled(out, cutoff))
        };
    lemma_run(tokens, text, merges, selections, n, cutoff);
}

/// Round trip: whatever learning from a text ends with, bulk decoding
/// of the sequence, with a table of texts that holds the whole
/// vocabulary, gives the text back. With no promotion allowed the
/// sequence is the one that registering the characters gives.
pub proof fn lemma_round_trip(
    tokens: Seq<Token>,
    data: Seq<char>,
    merges: nat,
    n: nat,
    cutoff: TknMaxAmount,
    after: Seq<Token>,
    out: Seq<TknId>,
)
    requires
        tokens.no_duplicates(),
        grounded(tokens),
        data.len() <= u32::MAX,
        registered_all(tokens, units(data)).0.len() + merges <= u32::MAX,
        ({
            let (seeded, ids) = registered_all(tokens, units(data));
            learns(seeded, ids, merges, n, cutoff, after, out)
        }),
    ensures
        decoded(after, after.len(), out) == data,
        merges == 0 ==> (after, out) == registered_all(tokens, units(data)),
{
    let (seeded, ids) = registered_all(tokens, units(data));
    lemma_seeded(tokens, data);
    assert(all_below(ids, seeded.len()));
    lemma_learns(seeded, ids, merges, n, cutoff, after, out);
}

impl Vocabulary {
    /// Preinitializes the vocabulary with all the individual characters.
    /// Outputs a vector of token ids that correspond to the characters.
    ///
    /// Each character of the text is registered as a leaf, in order, so a
    /// character that occurs again gets the id of its first occurrence.
    pub fn preinitialize_vocabulary(&mut self, text_data: &str) -> (converted_text: Vec<TknId>)
        requires
            old(self).wf(),
            registered_all(old(self)@, units(text_data@)).0.len() <= u32::MAX,
        ensures
            final(self).wf(),
            final(self).snapshot() == old(self).snapshot(),
            (final(self)@, converted_text@) == registered_all(old(self)@, units(text_data@)),
            extends(final(self)@, old(self)@),
            converted_text@.len() == text_data@.len(),
            forall|i: int|
                0 <= i < text_data@.len() ==> (#[trigger] converted_text@[i]) < final(self)@.len()
                    && final(self)@[converted_text@[i] as int] == Token::Unit(text_data@[i]),
            decoded(final(self)@, final(self)@.len(), converted_text@) == text_data@,
            grounded(old(self)@) ==> grounded(final(self)@),
    {
        let mut converted_text: Vec<TknId> = Vec::new();
        let ghost all = units(text_data@);
        for c in it: text_data.chars()
            invariant
                self.wf(),
                self.snapshot() == old(self).snapshot(),
                it.seq() == text_data@,
                all == units(text_data@),
                registered_all(old(self)@, all).0.len() <= u32::MAX,
                (self@, converted_text@) == registered_all(old(self)@, all.take(it.index() as int)),
        {
            proof {
                let done = it.index() as int;
                assert(0 <= done < text_data@.len() && c == text_data@[done]);
                assert(all.take(done + 1).drop_last() =~= all.take(done));
                assert(all.take(done + 1).last() == Token::Unit(c));
                lemma_registered_all_grows(old(self)@, all.take(done + 1), all);
                self.lemma_wf();
                lemma_registered(self@, Token::Unit(c));
            }
            let id = self.push(Token::Unit(c));
            converted_text.push(id);
        }
        proof {
            assert(all.take(all.len() as int) =~= all);
            old(self).lemma_wf();
            lemma_seeded(old(self)@, text_data@);
        }
        converted_text
    }

    /// Promotes the digrams of a selection from its last entry to its
    /// first, as long as promotions are left of the budget: each gets its
    /// composition, new or present, and one pass over `text` puts the
    /// identifier of the composition in place of the digram. Returns the
    /// number of promotions made.
    pub fn promote(
        &mut self,
        text: &mut Vec<TknId>,
        top_digrams: Vec<Entry>,
        budget: TknMaxAmount,
    ) -> (made: TknMaxAmount)
        requires
            old(self).wf(),
            operands_below(top_digrams@, old(self)@.len()),
            all_below(old(text)@, old(self)@.len()),
            old(self)@.len() + budget <= u32::MAX,
        ensures
            final(self).wf(),
            final(self).snapshot() == old(self).snapshot(),
            (final(self)@, final(text)@, (budget - made) as nat) == round(
                old(self)@,
                old(text)@,
                top_digrams@,
                budget as nat,
            ),
            made == if top_digrams@.len() < budget {
                top_digrams@.len()
            } else {
                budget as nat
            },
    {
        let mut top_digrams = top_digrams;
        let mut new_text: Vec<TknId> = Vec::new();
        let mut made: TknMaxAmount = 0;
        let ghost selection = top_digrams@;
        proof {
            assert(selection.take(selection.len() as int) =~= selection);
        }
        while made < budget && top_digrams.len() > 0
            invariant
                self.wf(),
                self.snapshot() == old(self).snapshot(),
                made <= budget,
                made <= selection.len(),
                top_digrams@ == selection.take(selection.len() - made),
                new_text@.len() == 0,
                all_below(text@, self@.len()),
                old(self)@.len() <= self@.len() <= old(self)@.len() + made,
                old(self)@.len() + budget <= u32::MAX,
                operands_below(selection, old(self)@.len()),
                round(self@, text@, top_digrams@, (budget - made) as nat) == round(
                    old(self)@,
                    old(text)@,
                    selection,
                    budget as nat,
                ),
            decreases top_digrams@.len(),
        {
            let ghost rest = top_digrams@;
            let ghost sequence = text@;
            let digram = top_digrams.pop().unwrap();
            proof {
                assert(top_digrams@ =~= rest.drop_last());
                assert(top_digrams@ =~= selection.take(selection.len() - made - 1));
                assert(digram == selection[selection.len() - made - 1]);
                self.lemma_wf();
                lemma_promoted(self@, sequence, digram.0);
            }
            let new_id = self.new_id(digram.0).unwrap();
            replace_digram(text.as_slice(), digram.0, new_id, &mut new_text);
            std::mem::swap(text, &mut new_text);
            new_text.clear();
            made = made + 1;
            proof {
                assert(text@ =~= rewritten(sequence, digram.0, new_id));
            }
        }
        made
    }

    /// Learns composite tokens from `data` and returns the text as a
    /// sequence of token ids.
    ///
    /// The characters of `data` are registered as leaves. Then, round by
    /// round, the digrams of the sequence are counted, up to
    /// `replacements` of those with a count above `cutoff` are selected,
    /// the most frequent ones first, and promoted from the least frequent
    /// of them to the most frequent. Learning ends after `merges`
    /// promotions, or when a round selects nothing.
    ///
    /// The order in which equal counts are ranked is not fixed, so the
    /// contract states what every outcome has in common: it is the end of
    /// a run of rounds whose selections the selector may hand out.
    pub fn learn(
        &mut self,
        data: &str,
        merges: TknMaxAmount,
        replacements: usize,
        cutoff: TknMaxAmount,
    ) -> (text: Vec<TknId>)
        requires
            old(self).wf(),
            data@.len() <= u32::MAX,
            registered_all(old(self)@, units(data@)).0.len() + merges <= u32::MAX,
        ensures
            final(self).wf(),
            final(self).snapshot() == old(self).snapshot(),
            ({
                let (tokens, ids) = registered_all(old(self)@, units(data@));
                &&& learns(
                    tokens,
                    ids,
                    merges as nat,
                    replacements as nat,
                    cutoff,
                    final(self)@,
                    text@,
                )
                &&& extends(final(self)@, tokens)
                &&& final(self)@.len() <= tokens.len() + merges
                &&& text@.len() <= data@.len()
                &&& all_below(text@, final(self)@.len())
                &&& merges == 0 || replacements == 0 || settled(ids, cutoff) ==> final(self)@
                    == tokens && text@ == ids
                &&& merges > 0 && replacements > 0 && !settled(ids, cutoff) ==> text@.len()
                    < data@.len()
            }),
            extends(final(self)@, old(self)@),
            grounded(old(self)@) ==> grounded(final(self)@) && decoded(
                final(self)@,
                final(self)@.len(),
                text@,
            ) == data@,
    {
        let mut cur_i: TknMaxAmount = 0;
        let mut text: Vec<TknId> = self.preinitialize_vocabulary(data);
        let mut counts: HashMap<u64, TknMaxAmount> = HashMap::new();
        let ghost tokens = self@;
        let ghost ids = text@;
        let ghost n = replacements as nat;
        let ghost rounds: Seq<Seq<Entry>> = Seq::empty();
        proof {
            self.lemma_wf();
            assert(all_below(ids, tokens.len()));
        }
        while cur_i < merges
            invariant_except_break
                counts@ == Map::<u64, TknMaxAmount>::empty(),
            invariant
                self.wf(),
                self.snapshot() == old(self).snapshot(),
                cur_i <= merges,
                n == replacements,
                tokens.no_duplicates(),
                all_below(ids, tokens.len()),
                ids.len() <= u32::MAX,
                tokens.len() + merges <= u32::MAX,
                is_run(tokens, ids, merges as nat, rounds, n, cutoff),
                after_rounds(tokens, ids, merges as nat, rounds) == (
                    self@,
                    text@,
                    (merges - cur_i) as nat,
                ),
            ensures
                cur_i == merges || n == 0 || settled(text@, cutoff),
            decreases merges - cur_i,
        {
            proof {
                lemma_run(tokens, ids, merges as nat, rounds, n, cutoff);
                assert forall|digram: TknDiagram|
                    count_of(counts@, digram) + occurrences(text@, digram) <= u32::MAX by {
                    lemma_occurrences_bound(text@, digram, 0);
                }
            }
            digram_count(text.as_slice(), &mut counts);
            let top_digrams = top_n_digrams(&counts, replacements, cutoff);
            proof {
                lemma_selection(top_digrams@, text@, n, cutoff, self@.len());
            }
            if top_digrams.is_empty() {
                break ;
            }
            proof {
                lemma_run_push(tokens, ids, merges as nat, rounds, top_digrams@, n, cutoff);
                rounds = rounds.push(top_digrams@);
            }
            let made = self.promote(&mut text, top_digrams, merges - cur_i);
            cur_i = cur_i + made;
            counts.clear();
        }
        proof {
            lemma_run_ends(tokens, ids, merges as nat, n, cutoff, rounds);
            lemma_learns(tokens, ids, merges as nat, n, cutoff, self@, text@);
            assert(extends(self@, old(self)@)) by {
                assert(self@.take(old(self)@.len() as int) =~= tokens.take(old(self)@.len() as int))
                    by {
                    assert(self@.take(tokens.len() as int) == tokens);
                }
            }
        }
        text
    }
}

} // verus!
