//! The mathematical model of a vocabulary: a sequence of symbols in which
//! the position of a symbol is its identifier.

use crate::token::{TknId, Token};
use vstd::prelude::*;

verus! {

/// What registering `tkn` does to a vocabulary and which identifier it
/// gives: a symbol that is present keeps its identifier and changes
/// nothing, a new one is appended and gets the next identifier.
pub open spec fn registered(tokens: Seq<Token>, tkn: Token) -> (Seq<Token>, int) {
    if tokens.contains(tkn) {
        (tokens, tokens.index_of(tkn))
    } else {
        (tokens.push(tkn), tokens.len() as int)
    }
}

/// What registering the symbols of `tkns` one after the other does to a
/// vocabulary, and the identifier that each registration gives.
pub open spec fn registered_all(tokens: Seq<Token>, tkns: Seq<Token>) -> (Seq<Token>, Seq<TknId>)
    decreases tkns.len(),
{
    if tkns.len() == 0 {
        (tokens, Seq::empty())
    } else {
        let (before, ids) = registered_all(tokens, tkns.drop_last());
        let (after, id) = registered(before, tkns.last());
        (after, ids.push(id as TknId))
    }
}

/// The leaf symbol of a character.
pub open spec fn unit_of(c: char) -> Token {
    Token::Unit(c)
}

/// The leaf symbols of the characters of `text`, in order.
pub open spec fn units(text: Seq<char>) -> Seq<Token> {
    Seq::new(text.len(), |i: int| unit_of(text[i]))
}

/// A registration keeps the vocabulary free of repeats, leaves every
/// earlier symbol under its identifier, and gives an identifier under
/// which the symbol then stands: the next one if the symbol is new.
pub proof fn lemma_registered(tokens: Seq<Token>, tkn: Token)
    requires
        tokens.no_duplicates(),
    ensures
        ({
            let (after, id) = registered(tokens, tkn);
            &&& after.no_duplicates()
            &&& extends(after, tokens)
            &&& 0 <= id < after.len()
            &&& after[id] == tkn
            &&& tokens.contains(tkn) ==> after == tokens
            &&& !tokens.contains(tkn) ==> id == tokens.len() && after.len() == tokens.len() + 1
        }),
{
    let (after, id) = registered(tokens, tkn);
    assert(after.take(tokens.len() as int) =~= tokens);
    if !tokens.contains(tkn) {
        assert forall|i: int, j: int| 0 <= i < after.len() && 0 <= j < after.len() && i
            != j implies after[i] != after[j] by {
            if i < tokens.len() {
                assert(tokens.contains(after[i]));
            }
            if j < tokens.len() {
                assert(tokens.contains(after[j]));
            }
        }
    }
}

/// Registering a symbol a second time gives the identifier of the first
/// time and does not change the vocabulary.
pub proof fn lemma_registered_twice(tokens: Seq<Token>, tkn: Token)
    requires
        tokens.no_duplicates(),
    ensures
        ({
            let (once, first) = registered(tokens, tkn);
            let (twice, second) = registered(once, tkn);
            second == first && twice == once
        }),
{
    lemma_registered(tokens, tkn);
    let (once, first) = registered(tokens, tkn);
    assert(once.contains(tkn));
    assert(once[once.index_of(tkn)] == tkn);
}

/// A run of registrations keeps the vocabulary free of repeats and leaves
/// every earlier symbol under its identifier. Each registration gives an
/// identifier under which its symbol then stands, so two of them give the
/// same identifier exactly when their symbols are equal. Every identifier
/// that the run adds is given to one of its symbols: the identifiers have
/// no gaps.
pub proof fn lemma_registered_all(tokens: Seq<Token>, tkns: Seq<Token>)
    requires
        tokens.no_duplicates(),
        registered_all(tokens, tkns).0.len() <= u32::MAX,
    ensures
        ({
            let (after, ids) = registered_all(tokens, tkns);
            &&& after.no_duplicates()
            &&& extends(after, tokens)
            &&& after.len() <= tokens.len() + tkns.len()
            &&& ids.len() == tkns.len()
            &&& forall|i: int|
                0 <= i < tkns.len() ==> (#[trigger] ids[i]) < after.len() && after[ids[i] as int]
                    == tkns[i]
            &&& forall|i: int, j: int|
                0 <= i < tkns.len() && 0 <= j < tkns.len() ==> (#[trigger] ids[i] == #[trigger] ids[j]
                    <==> tkns[i] == tkns[j])
            &&& forall|id: TknId| tokens.len() <= id < after.len() ==> #[trigger] ids.contains(id)
        }),
    decreases tkns.len(),
{
    let (after, ids) = registered_all(tokens, tkns);
    if tkns.len() == 0 {
        assert(after.take(tokens.len() as int) =~= tokens);
    } else {
        let (before, front) = registered_all(tokens, tkns.drop_last());
        let (last, id) = registered(before, tkns.last());
        lemma_registered_all_grows(tokens, tkns.drop_last(), tkns);
        lemma_registered_all(tokens, tkns.drop_last());
        lemma_registered(before, tkns.last());
        assert(after.take(tokens.len() as int) =~= before.take(tokens.len() as int)) by {
            assert(after.take(before.len() as int) == before);
        }
        assert forall|i: int| 0 <= i < tkns.len() implies (#[trigger] ids[i]) < after.len()
            && after[ids[i] as int] == tkns[i] by {
            if i < tkns.len() - 1 {
                assert(front[i] < before.len());
                assert(after.take(before.len() as int)[front[i] as int] == before[front[i] as int]);
            }
        }
        assert forall|id2: TknId| tokens.len() <= id2 < after.len() implies #[trigger] ids.contains(
            id2,
        ) by {
            if id2 < before.len() {
                assert(front.contains(id2));
                let i = choose|i: int| 0 <= i < front.len() && front[i] == id2;
                assert(ids[i] == id2);
            } else {
                assert(ids[tkns.len() - 1] == id2);
            }
        }
    }
}

/// A shorter run of registrations gives a vocabulary that is no larger,
/// and none gives one that is smaller than at the start.
pub proof fn lemma_registered_all_grows(tokens: Seq<Token>, front: Seq<Token>, tkns: Seq<Token>)
    requires
        front.len() <= tkns.len(),
        tkns.take(front.len() as int) == front,
    ensures
        tokens.len() <= registered_all(tokens, front).0.len() <= registered_all(tokens, tkns).0.len(),
    decreases tkns.len(),
{
    if front.len() < tkns.len() {
        assert(tkns.drop_last().take(front.len() as int) =~= front);
        lemma_registered_all_grows(tokens, front, tkns.drop_last());
    } else {
        assert(tkns.take(tkns.len() as int) =~= tkns);
        if front.len() > 0 {
            assert(front.drop_last().take(front.len() - 1) =~= front.drop_last());
            lemma_registered_all_grows(tokens, front.drop_last(), front.drop_last());
        }
    }
}

/// A run of registrations adds as many symbols as it registers, or fewer.
pub proof fn lemma_registered_all_len(tokens: Seq<Token>, tkns: Seq<Token>)
    ensures
        tokens.len() <= registered_all(tokens, tkns).0.len() <= tokens.len() + tkns.len(),
        registered_all(tokens, tkns).1.len() == tkns.len(),
    decreases tkns.len(),
{
    if tkns.len() > 0 {
        lemma_registered_all_len(tokens, tkns.drop_last());
    }
}

/// The symbol at position `id` is a leaf, or a composition of two
/// identifiers below `id`.
pub open spec fn grounded_at(tokens: Seq<Token>, id: int) -> bool {
    match tokens[id] {
        Token::Unit(_) => true,
        Token::Composition(left, right) => left < id && right < id,
    }
}

/// Every composition refers to two symbols that were registered before it.
pub open spec fn grounded(tokens: Seq<Token>) -> bool {
    forall|id: int| 0 <= id < tokens.len() ==> #[trigger] grounded_at(tokens, id)
}

/// The text that the symbol `id` stands for: the character of a leaf, the
/// text of the left operand followed by that of the right operand for a
/// composition.
pub open spec fn expansion(tokens: Seq<Token>, id: int) -> Seq<char>
    decreases id,
{
    if 0 <= id < tokens.len() {
        match tokens[id] {
            Token::Unit(c) => seq![c],
            Token::Composition(left, right) => if left < id && right < id {
                expansion(tokens, left as int) + expansion(tokens, right as int)
            } else {
                Seq::empty()
            },
        }
    } else {
        Seq::empty()
    }
}

/// The text that bulk decoding gives for `ids` when the identifiers below
/// `known` can be looked up: the expansions of those, in order; the others
/// are passed over.
pub open spec fn decoded(tokens: Seq<Token>, known: nat, ids: Seq<TknId>) -> Seq<char>
    decreases ids.len(),
{
    if ids.len() == 0 {
        Seq::empty()
    } else {
        decoded(tokens, known, ids.drop_last()) + if ids.last() < known {
            expansion(tokens, ids.last() as int)
        } else {
            Seq::empty()
        }
    }
}

/// The beginning of a grounded vocabulary is grounded.
pub proof fn lemma_grounded_take(tokens: Seq<Token>, n: int)
    requires
        grounded(tokens),
        0 <= n <= tokens.len(),
    ensures
        grounded(tokens.take(n)),
{
    assert forall|id: int| 0 <= id < n implies #[trigger] grounded_at(tokens.take(n), id) by {
        assert(grounded_at(tokens, id));
    }
}

/// `shorter` is the beginning of `longer`.
pub open spec fn extends(longer: Seq<Token>, shorter: Seq<Token>) -> bool {
    shorter.len() <= longer.len() && longer.take(shorter.len() as int) == shorter
}

/// Symbols registered later do not change what an identifier stands for.
pub proof fn lemma_expansion_extends(longer: Seq<Token>, shorter: Seq<Token>, id: int)
    requires
        extends(longer, shorter),
        id < shorter.len(),
    ensures
        expansion(longer, id) == expansion(shorter, id),
    decreases id,
{
    if 0 <= id {
        assert(longer[id] == longer.take(shorter.len() as int)[id]);
        match shorter[id] {
            Token::Unit(_) => {},
            Token::Composition(left, right) => {
                if left < id && right < id {
                    lemma_expansion_extends(longer, shorter, left as int);
                    lemma_expansion_extends(longer, shorter, right as int);
                }
            },
        }
    }
}

/// Symbols registered later do not change what bulk decoding gives, as
/// long as the same identifiers can be looked up.
pub proof fn lemma_decoded_extends(
    longer: Seq<Token>,
    shorter: Seq<Token>,
    known: nat,
    ids: Seq<TknId>,
)
    requires
        extends(longer, shorter),
        known <= shorter.len(),
    ensures
        decoded(longer, known, ids) == decoded(shorter, known, ids),
    decreases ids.len(),
{
    if ids.len() > 0 {
        lemma_decoded_extends(longer, shorter, known, ids.drop_last());
        if ids.last() < known {
            lemma_expansion_extends(longer, shorter, ids.last() as int);
        }
    }
}

/// Bulk decoding of two sequences one after the other.
pub proof fn lemma_decoded_concat(
    tokens: Seq<Token>,
    known: nat,
    front: Seq<TknId>,
    back: Seq<TknId>,
)
    ensures
        decoded(tokens, known, front + back) == decoded(tokens, known, front) + decoded(
            tokens,
            known,
            back,
        ),
    decreases back.len(),
{
    if back.len() == 0 {
        assert(front + back =~= front);
    } else {
        lemma_decoded_concat(tokens, known, front, back.drop_last());
        assert((front + back).drop_last() =~= front + back.drop_last());
    }
}

/// Bulk decoding does not depend on which identifiers can be looked up
/// beyond those that it is asked for.
pub proof fn lemma_decoded_known(tokens: Seq<Token>, known: nat, other: nat, ids: Seq<TknId>)
    requires
        forall|i: int| 0 <= i < ids.len() ==> (#[trigger] ids[i]) < known && ids[i] < other,
    ensures
        decoded(tokens, known, ids) == decoded(tokens, other, ids),
    decreases ids.len(),
{
    if ids.len() > 0 {
        assert(ids[ids.len() - 1] < known);
        assert forall|i: int| 0 <= i < ids.drop_last().len() implies (#[trigger] ids.drop_last()[i])
            < known && ids.drop_last()[i] < other by {
            assert(ids.drop_last()[i] == ids[i]);
        }
        lemma_decoded_known(tokens, known, other, ids.drop_last());
    }
}

/// Decoding the identifiers of the leaves of a text gives the text.
pub proof fn lemma_decoded_units(tokens: Seq<Token>, known: nat, ids: Seq<TknId>, text: Seq<char>)
    requires
        known <= tokens.len(),
        ids.len() == text.len(),
        forall|i: int|
            0 <= i < ids.len() ==> (#[trigger] ids[i]) < known && tokens[ids[i] as int] == unit_of(
                text[i],
            ),
    ensures
        decoded(tokens, known, ids) == text,
    decreases ids.len(),
{
    if ids.len() > 0 {
        let front = ids.drop_last();
        assert forall|i: int| 0 <= i < front.len() implies (#[trigger] front[i]) < known
            && tokens[front[i] as int] == unit_of(text.drop_last()[i]) by {
            assert(front[i] == ids[i]);
        }
        lemma_decoded_units(tokens, known, front, text.drop_last());
        assert(ids[ids.len() - 1] < known);
        assert(expansion(tokens, ids.last() as int) =~= seq![text.last()]);
        assert(text.drop_last() + seq![text.last()] =~= text);
    } else {
        assert(text =~= Seq::<char>::empty());
    }
}

/// Bulk decoding of a single identifier: its expansion if it can be
/// looked up, nothing otherwise.
pub proof fn lemma_decoded_one(tokens: Seq<Token>, known: nat, id: TknId)
    ensures
        decoded(tokens, known, seq![id]) == if id < known {
            expansion(tokens, id as int)
        } else {
            Seq::empty()
        },
{
    assert(seq![id].drop_last() =~= Seq::<TknId>::empty());
    assert(decoded(tokens, known, Seq::<TknId>::empty()) =~= Seq::<char>::empty());
    assert(seq![id].last() == id);
    assert(decoded(tokens, known, seq![id]) =~= if id < known {
        expansion(tokens, id as int)
    } else {
        Seq::empty()
    });
}

/// Registering the characters of a text as leaves gives a sequence within
/// the vocabulary that stands for the text, one identifier for each
/// character, and keeps a grounded vocabulary grounded.
pub proof fn lemma_seeded(tokens: Seq<Token>, text: Seq<char>)
    requires
        tokens.no_duplicates(),
        registered_all(tokens, units(text)).0.len() <= u32::MAX,
    ensures
        ({
            let (after, ids) = registered_all(tokens, units(text));
            &&& after.no_duplicates()
            &&& extends(after, tokens)
            &&& ids.len() == text.len()
            &&& forall|i: int|
                0 <= i < text.len() ==> (#[trigger] ids[i]) < after.len() && after[ids[i] as int]
                    == Token::Unit(text[i])
            &&& decoded(after, after.len(), ids) == text
            &&& grounded(tokens) ==> grounded(after)
        }),
{
    let (after, ids) = registered_all(tokens, units(text));
    lemma_registered_all(tokens, units(text));
    lemma_decoded_units(after, after.len(), ids, text);
    if grounded(tokens) {
        assert forall|id: int| 0 <= id < after.len() implies #[trigger] grounded_at(after, id) by {
            if id < tokens.len() {
                assert(after.take(tokens.len() as int)[id] == after[id]);
                assert(grounded_at(tokens, id));
            } else {
                assert(ids.contains(id as TknId));
            }
        }
    }
}

} // verus!
