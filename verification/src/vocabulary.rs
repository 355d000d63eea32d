//! The vocabulary registry: symbols under dense identifiers, without
//! repeats.

use crate::model::{
    decoded, expansion, extends, grounded, grounded_at, lemma_decoded_one,
    lemma_expansion_extends, lemma_grounded_take, registered,
};
use crate::token::{
    lemma_token_key_injective, token_key, token_key_spec, TknDiagram, TknId, TknMaxAmount, Token,
};
use std::collections::HashMap;
use vstd::prelude::*;

verus! {

broadcast use vstd::std_specs::hash::group_hash_axioms;

/// The identifiers below `n`.
pub open spec fn ids_below(n: nat) -> Set<TknId> {
    Set::new(|id: TknId| id < n)
}

/// The failure of an expansion: the identifier is not registered.
#[derive(PartialEq, Eq, Structural, Clone, Copy, Debug)]
pub struct UnknownSymbol {
    /// The identifier that was asked for.
    pub id: TknId,
}

/// A set of symbols, each under the identifier that its registration gave
/// it, with an optional table of the texts that the identifiers stand for.
#[derive(Debug)]
pub struct Vocabulary {
    tkns: HashMap<TknId, Token>,
    ids: HashMap<u128, TknId>,
    id_to_string: Option<HashMap<TknId, String>>,
    size: TknMaxAmount,
}

impl View for Vocabulary {
    type V = Seq<Token>;

    /// The symbols in the order of their identifiers.
    closed spec fn view(&self) -> Seq<Token> {
        Seq::new(self.size as nat, |id: int| self.tkns@[id as TknId])
    }
}

impl Vocabulary {
    /// How many identifiers the table of texts holds, if it has been
    /// built: it holds the identifiers below that number, those that were
    /// registered when it was built.
    pub closed spec fn snapshot(&self) -> Option<nat> {
        match self.id_to_string {
            None => None,
            Some(cache) => Some(choose|known: nat| cache@.dom() == ids_below(known)),
        }
    }

    /// The two maps are inverse to each other over the identifiers below
    /// the size, and the table of texts, if built, holds the expansions of
    /// a grounded beginning of the vocabulary.
    pub closed spec fn wf(&self) -> bool {
        &&& self.tkns@.dom() == ids_below(self.size as nat)
        &&& forall|id: TknId|
            id < self.size ==> {
                let key = token_key_spec(#[trigger] self.tkns@[id]);
                self.ids@.contains_key(key) && self.ids@[key] == id
            }
        &&& forall|key: u128| #[trigger]
            self.ids@.contains_key(key) ==> self.ids@[key] < self.size && token_key_spec(
                self.tkns@[self.ids@[key]],
            ) == key
        &&& match self.id_to_string {
            None => true,
            Some(cache) => {
                let known = self.snapshot()->0;
                &&& known <= self.size
                &&& cache@.dom() == ids_below(known)
                &&& grounded(self@.take(known as int))
                &&& forall|id: TknId|
                    id < known ==> (#[trigger] cache@[id])@ == expansion(self@, id as int)
            },
        }
    }

    /// What validity says of the model: no symbol stands under two
    /// identifiers, the identifiers fit in 32 bits, and the table of texts
    /// covers a grounded beginning of the vocabulary.
    pub proof fn lemma_wf(&self)
        requires
            self.wf(),
        ensures
            self@.no_duplicates(),
            self@.len() <= u32::MAX,
            match self.snapshot() {
                None => true,
                Some(known) => known <= self@.len() && grounded(self@.take(known as int)),
            },
    {
        assert forall|i: int, j: int| 0 <= i < self@.len() && 0 <= j < self@.len() && i != j implies
            self@[i] != self@[j] by {
            let a = i as TknId;
            let b = j as TknId;
            assert(self.ids@[token_key_spec(self.tkns@[a])] == a);
            assert(self.ids@[token_key_spec(self.tkns@[b])] == b);
        }
    }

    /// Creates a new vocabulary with no tokens.
    pub fn new() -> (vocab: Vocabulary)
        ensures
            vocab.wf(),
            vocab@ == Seq::<Token>::empty(),
            vocab.snapshot() is None,
    {
        let vocab = Vocabulary {
            tkns: HashMap::new(),
            ids: HashMap::new(),
            id_to_string: None,
            size: 0,
        };
        assert(vocab.tkns@.dom() =~= ids_below(0));
        assert(vocab@ =~= Seq::<Token>::empty());
        vocab
    }

    /// Returns the number of tokens in the vocabulary.
    pub fn len(&self) -> (n: TknMaxAmount)
        ensures
            n == self@.len(),
    {
        self.size
    }

    /// Returns the token registered under `id`, if there is one.
    pub fn token(&self, id: TknId) -> (tkn: Option<Token>)
        requires
            self.wf(),
        ensures
            tkn == if id < self@.len() {
                Some(self@[id as int])
            } else {
                None
            },
    {
        match self.tkns.get(&id) {
            Some(tkn) => Some(*tkn),
            None => None,
        }
    }

    /// Returns the identifier under which `tkn` is registered, if it is.
    pub fn id_of(&self, tkn: Token) -> (id: Option<TknId>)
        requires
            self.wf(),
        ensures
            match id {
                Some(id) => id < self@.len() && self@[id as int] == tkn,
                None => !self@.contains(tkn),
            },
    {
        let key = token_key(tkn);
        match self.ids.get(&key) {
            Some(id) => {
                proof {
                    lemma_token_key_injective(self.tkns@[*id], tkn);
                }
                Some(*id)
            },
            None => {
                assert forall|i: int| 0 <= i < self@.len() implies self@[i] != tkn by {
                    assert(self.ids@.contains_key(token_key_spec(self.tkns@[i as TknId])));
                }
                None
            },
        }
    }

    /// Tells whether every composition refers to two tokens that were
    /// registered before it.
    pub fn is_grounded(&self) -> (all: bool)
        requires
            self.wf(),
        ensures
            all == grounded(self@),
    {
        let mut id: TknId = 0;
        while id < self.size
            invariant
                self.wf(),
                id <= self.size,
                forall|j: int| 0 <= j < id ==> #[trigger] grounded_at(self@, j),
            decreases self.size - id,
        {
            assert(self.tkns@.contains_key(id));
            match self.tkns.get(&id) {
                Some(Token::Composition(left, right)) => {
                    if *left >= id || *right >= id {
                        assert(!grounded_at(self@, id as int));
                        return false;
                    }
                },
                _ => {},
            }
            assert(grounded_at(self@, id as int));
            id += 1;
        }
        true
    }

    /// Pushes a token into the vocabulary and returns its id.
    ///
    /// A token that is present keeps its id and the vocabulary stays as it
    /// is. A new token gets the next id, which is the size before the call.
    pub fn push(&mut self, tkn: Token) -> (id: TknId)
        requires
            old(self).wf(),
            old(self)@.contains(tkn) || old(self)@.len() < u32::MAX,
        ensures
            final(self).wf(),
            final(self).snapshot() == old(self).snapshot(),
            (final(self)@, id as int) == registered(old(self)@, tkn),
            id < final(self)@.len(),
            final(self)@[id as int] == tkn,
            extends(final(self)@, old(self)@),
    {
        proof {
            self.lemma_wf();
        }
        match self.id_of(tkn) {
            Some(id) => {
                assert(self@.take(self@.len() as int) =~= self@);
                id
            },
            None => {
                let id = self.size;
                let key = token_key(tkn);
                self.ids.insert(key, id);
                self.tkns.insert(id, tkn);
                self.size = self.size + 1;
                proof {
                    assert(self.tkns@.dom() =~= ids_below(self.size as nat));
                    assert(self@ =~= old(self)@.push(tkn));
                    assert(self@.take(old(self)@.len() as int) =~= old(self)@);
                    assert forall|key2: u128| #[trigger]
                        self.ids@.contains_key(key2) implies self.ids@[key2] < self.size
                        && token_key_spec(self.tkns@[self.ids@[key2]]) == key2 by {
                        if key2 != key {
                            assert(old(self).ids@.contains_key(key2));
                        }
                    }
                    assert forall|id2: TknId| id2 < self.size implies {
                        let key2 = token_key_spec(#[trigger] self.tkns@[id2]);
                        self.ids@.contains_key(key2) && self.ids@[key2] == id2
                    } by {
                        if id2 != id {
                            let key2 = token_key_spec(old(self).tkns@[id2]);
                            assert(old(self).ids@.contains_key(key2));
                            lemma_token_key_injective(old(self).tkns@[id2], tkn);
                            assert(old(self)@[id2 as int] == old(self).tkns@[id2]);
                        }
                    }
                    self.lemma_cache_kept(*old(self));
                }
                id
            },
        }
    }

    /// Converts a TknDiagram into a new token and adds it to the vocabulary.
    /// If one of ids in the id pair aren't valid token, it will return None.
    ///
    /// With two registered operands the composition is pushed: it keeps
    /// its id if it is present and gets the next id otherwise.
    pub fn new_id(&mut self, diagram: TknDiagram) -> (id: Option<TknId>)
        requires
            old(self).wf(),
            diagram.0 < old(self)@.len() && diagram.1 < old(self)@.len() ==> old(self)@.contains(
                Token::Composition(diagram.0, diagram.1),
            ) || old(self)@.len() < u32::MAX,
        ensures
            final(self).wf(),
            final(self).snapshot() == old(self).snapshot(),
            id is Some <==> diagram.0 < old(self)@.len() && diagram.1 < old(self)@.len(),
            id is None ==> final(self)@ == old(self)@,
            id is Some ==> (final(self)@, id->0 as int) == registered(
                old(self)@,
                Token::Composition(diagram.0, diagram.1),
            ),
            id is Some ==> id->0 < final(self)@.len() && final(self)@[id->0 as int]
                == Token::Composition(diagram.0, diagram.1),
            extends(final(self)@, old(self)@),
    {
        let (idleft, idright) = diagram;
        if idleft < self.size && idright < self.size {
            Some(self.push(Token::Composition(idleft, idright)))
        } else {
            assert(self@.take(self@.len() as int) =~= self@);
            None
        }
    }

    /// Decodes a token into a string.
    ///
    /// Appends to `s` the text that `id` stands for: the character of a
    /// leaf, the text of the left operand and then that of the right
    /// operand for a composition. The symbols that are still to be
    /// expanded wait on a stack, so a long chain of compositions takes
    /// memory on the heap only.
    pub fn decode_single(&self, id: &TknId, s: &mut String)
        requires
            self.wf(),
            *id < self@.len(),
            grounded(self@.take(*id + 1)),
        ensures
            final(s)@ == old(s)@ + expansion(self@, *id as int),
    {
        let mut waiting: Vec<TknId> = Vec::new();
        waiting.push(*id);
        proof {
            lemma_pending_push(self@, Seq::empty(), *id);
            assert(waiting@ =~= Seq::<TknId>::empty().push(*id));
            assert(pending(self@, waiting@) =~= expansion(self@, *id as int));
        }
        while waiting.len() > 0
            invariant
                self.wf(),
                *id < self@.len(),
                grounded(self@.take(*id + 1)),
                forall|k: int| 0 <= k < waiting@.len() ==> (#[trigger] waiting@[k]) <= *id,
                s@ + pending(self@, waiting@) == old(s)@ + expansion(self@, *id as int),
            decreases pending_weight(self@, waiting@),
        {
            let ghost before = waiting@;
            let ghost text = s@;
            let next = waiting.pop().unwrap();
            let ghost rest = waiting@;
            proof {
                assert(rest =~= before.drop_last());
                assert(before =~= rest.push(next));
                lemma_pending_push(self@, rest, next);
                assert(before[before.len() - 1] <= *id);
                assert(self.tkns@.contains_key(next));
                assert(grounded_at(self@.take(*id + 1), next as int));
                assert(self@.take(*id + 1)[next as int] == self@[next as int]);
            }
            match self.tkns.get(&next) {
                Some(Token::Unit(ch)) => {
                    push_char(s, *ch);
                    assert(text.push(*ch) + pending(self@, rest) =~= text + pending(self@, before));
                },
                Some(Token::Composition(left, right)) => {
                    waiting.push(*right);
                    waiting.push(*left);
                    proof {
                        lemma_pending_push(self@, rest, *right);
                        lemma_pending_push(self@, rest.push(*right), *left);
                        assert(waiting@ =~= rest.push(*right).push(*left));
                        assert(pending(self@, waiting@) =~= pending(self@, before));
                    }
                },
                None => {},
            }
        }
        assert(s@ + pending(self@, waiting@) =~= s@);
    }

    /// Appends to `s` the text that `id` stands for, as `decode_single`
    /// does, if `id` is registered. Fails and leaves `s` as it is if not.
    pub fn expand_one(&self, id: TknId, s: &mut String) -> (result: Result<(), UnknownSymbol>)
        requires
            self.wf(),
            id < self@.len() ==> grounded(self@.take(id + 1)),
        ensures
            result is Ok <==> id < self@.len(),
            result is Ok ==> final(s)@ == old(s)@ + expansion(self@, id as int),
            result is Err ==> final(s)@ == old(s)@ && result == Err::<(), UnknownSymbol>(
                UnknownSymbol { id },
            ),
    {
        if id < self.size {
            self.decode_single(&id, s);
            Ok(())
        } else {
            Err(UnknownSymbol { id })
        }
    }

    /// Returns how many identifiers the table of texts holds, if it has
    /// been built.
    pub fn cached(&self) -> (known: Option<usize>)
        requires
            self.wf(),
        ensures
            match known {
                Some(n) => self.snapshot() == Some(n as nat),
                None => self.snapshot() is None,
            },
    {
        match &self.id_to_string {
            Some(cache) => {
                proof {
                    lemma_ids_below_len(self.snapshot()->0);
                }
                Some(cache.len())
            },
            None => None,
        }
    }

    /// Returns the text that the table of texts holds for `id`, if it
    /// holds one.
    pub fn cached_text(&self, id: TknId) -> (text: Option<String>)
        requires
            self.wf(),
        ensures
            text is Some <==> self.snapshot() is Some && id < self.snapshot()->0,
            text is Some ==> text->0@ == expansion(self@, id as int),
    {
        match &self.id_to_string {
            Some(cache) => match cache.get(&id) {
                Some(text) => Some(text.clone()),
                None => None,
            },
            None => None,
        }
    }

    /// Decodes a sequence of token ids into a string.
    /// Will skip over unknown ids!
    ///
    /// The first call builds the table of texts, one for each id that is
    /// registered then. Every call appends to `s`, for each of `ids` in
    /// order, the text that the table holds for it; an id that the table
    /// does not hold adds nothing.
    pub fn decode(&mut self, ids: &[TknId], s: &mut String)
        requires
            old(self).wf(),
            old(self).snapshot() is None ==> grounded(old(self)@),
        ensures
            final(self).wf(),
            final(self)@ == old(self)@,
            final(self).snapshot() == Some(
                match old(self).snapshot() {
                    Some(known) => known,
                    None => old(self)@.len(),
                },
            ),
            final(s)@ == old(s)@ + decoded(old(self)@, final(self).snapshot()->0, ids@),
    {
        if self.id_to_string.is_none() {
            let mut cache: HashMap<TknId, String> = HashMap::new();
            let mut id: TknId = 0;
            assert(cache@.dom() =~= ids_below(0));
            while id < self.size
                invariant
                    self.wf(),
                    *self == *old(self),
                    grounded(self@),
                    id <= self.size,
                    cache@.dom() == ids_below(id as nat),
                    forall|j: TknId| j < id ==> (#[trigger] cache@[j])@ == expansion(self@, j as int),
                decreases self.size - id,
            {
                let mut text = String::new();
                proof {
                    lemma_grounded_take(self@, id + 1);
                }
                self.decode_single(&id, &mut text);
                cache.insert(id, text);
                id += 1;
                assert(cache@.dom() =~= ids_below(id as nat));
            }
            self.id_to_string = Some(cache);
            proof {
                lemma_ids_below_unique(self.snapshot()->0, self.size as nat);
                assert(self@.take(self.size as int) =~= self@);
            }
        }
        let ghost known = self.snapshot()->0;
        match &self.id_to_string {
            Some(cache) => {
                let mut i: usize = 0;
                while i < ids.len()
                    invariant
                        i <= ids.len(),
                        self.wf(),
                        self@ == old(self)@,
                        self.id_to_string == Some(*cache),
                        self.snapshot() == Some(known),
                        s@ == old(s)@ + decoded(self@, known, ids@.take(i as int)),
                    decreases ids.len() - i,
                {
                    assert(ids@.take(i + 1).drop_last() =~= ids@.take(i as int));
                    match cache.get(&ids[i]) {
                        Some(text) => {
                            s.append(text.as_str());
                            assert(old(s)@ + decoded(self@, known, ids@.take(i as int)) + text@
                                =~= old(s)@ + (decoded(self@, known, ids@.take(i as int))
                                + text@));
                        },
                        None => {
                            assert(old(s)@ + decoded(self@, known, ids@.take(i as int))
                                =~= old(s)@ + (decoded(self@, known, ids@.take(i as int))
                                + Seq::<char>::empty()));
                        },
                    }
                    i += 1;
                }
                assert(ids@.take(ids.len() as int) =~= ids@);
            },
            None => {},
        }
    }

    /// The table of texts stays valid when the vocabulary grows.
    proof fn lemma_cache_kept(&self, before: Vocabulary)
        requires
            before.wf(),
            self.id_to_string == before.id_to_string,
            extends(self@, before@),
            self.size as nat == self@.len(),
        ensures
            self.snapshot() == before.snapshot(),
            match self.id_to_string {
                None => true,
                Some(cache) => {
                    let known = self.snapshot()->0;
                    &&& known <= self.size
                    &&& cache@.dom() == ids_below(known)
                    &&& grounded(self@.take(known as int))
                    &&& forall|id: TknId|
                        id < known ==> (#[trigger] cache@[id])@ == expansion(self@, id as int)
                },
            },
    {
        match self.id_to_string {
            None => {},
            Some(cache) => {
                let known = self.snapshot()->0;
                assert(self@.take(known as int) =~= before@.take(known as int));
                assert forall|id: TknId| id < known implies (#[trigger] cache@[id])@ == expansion(
                    self@,
                    id as int,
                ) by {
                    lemma_expansion_extends(self@, before@, id as int);
                }
            },
        }
    }
}


/// Returns the texts of the `n` tokens that were registered last, the
/// last one first, as bulk decoding gives them: the text of a token that
/// the table of texts does not hold is empty.
pub fn top_n_tokens(vocab: &mut Vocabulary, n: usize) -> (texts: Vec<String>)
    requires
        old(vocab).wf(),
        old(vocab).snapshot() is None ==> grounded(old(vocab)@),
    ensures
        final(vocab).wf(),
        final(vocab)@ == old(vocab)@,
        texts@.len() == if n < old(vocab)@.len() {
            n as nat
        } else {
            old(vocab)@.len()
        },
        final(vocab).snapshot() == if texts@.len() == 0 {
            old(vocab).snapshot()
        } else {
            Some(
                match old(vocab).snapshot() {
                    Some(known) => known,
                    None => old(vocab)@.len(),
                },
            )
        },
        forall|i: int|
            0 <= i < texts@.len() ==> (#[trigger] texts@[i])@ == if old(vocab)@.len() - 1 - i
                < final(vocab).snapshot()->0 {
                expansion(old(vocab)@, old(vocab)@.len() - 1 - i)
            } else {
                Seq::empty()
            },
{
    let mut texts: Vec<String> = Vec::new();
    let size = vocab.len();
    let ghost known = match vocab.snapshot() {
        Some(known) => known,
        None => vocab@.len(),
    };
    let mut taken: usize = 0;
    while taken < n && (taken as u64) < (size as u64)
        invariant
            vocab.wf(),
            vocab@ == old(vocab)@,
            size == vocab@.len(),
            taken <= n,
            taken <= size,
            texts@.len() == taken,
            known == match old(vocab).snapshot() {
                Some(known) => known,
                None => old(vocab)@.len(),
            },
            vocab.snapshot() == if taken == 0 {
                old(vocab).snapshot()
            } else {
                Some(known)
            },
            vocab.snapshot() is None ==> grounded(vocab@),
            forall|i: int|
                0 <= i < taken ==> (#[trigger] texts@[i])@ == if size - 1 - i < known {
                    expansion(vocab@, size - 1 - i)
                } else {
                    Seq::empty()
                },
        decreases n - taken,
    {
        let id: TknId = size - 1 - (taken as TknId);
        let ids: Vec<TknId> = vec![id];
        let mut token_str = String::new();
        vocab.decode(ids.as_slice(), &mut token_str);
        proof {
            assert(ids@ =~= seq![id]);
            lemma_decoded_one(vocab@, known, id);
            assert(Seq::<char>::empty() + decoded(vocab@, known, ids@) =~= decoded(
                vocab@,
                known,
                ids@,
            ));
        }
        texts.push(token_str);
        taken = taken + 1;
    }
    texts
}

/// How many symbols an expansion of `id` goes through.
spec fn weight(tokens: Seq<Token>, id: int) -> nat
    decreases id,
{
    if 0 <= id < tokens.len() {
        match tokens[id] {
            Token::Unit(_) => 1,
            Token::Composition(left, right) => if left < id && right < id {
                1 + weight(tokens, left as int) + weight(tokens, right as int)
            } else {
                1
            },
        }
    } else {
        1
    }
}

/// The text that the waiting symbols stand for, the last one first.
spec fn pending(tokens: Seq<Token>, waiting: Seq<TknId>) -> Seq<char>
    decreases waiting.len(),
{
    if waiting.len() == 0 {
        Seq::empty()
    } else {
        expansion(tokens, waiting.last() as int) + pending(tokens, waiting.drop_last())
    }
}

/// How many symbols the expansions of the waiting symbols go through.
spec fn pending_weight(tokens: Seq<Token>, waiting: Seq<TknId>) -> nat
    decreases waiting.len(),
{
    if waiting.len() == 0 {
        0
    } else {
        weight(tokens, waiting.last() as int) + pending_weight(tokens, waiting.drop_last())
    }
}

/// One more symbol waits: its text comes first, and its expansion adds
/// to the symbols to go through.
proof fn lemma_pending_push(tokens: Seq<Token>, waiting: Seq<TknId>, id: TknId)
    ensures
        pending(tokens, waiting.push(id)) == expansion(tokens, id as int) + pending(
            tokens,
            waiting,
        ),
        pending_weight(tokens, waiting.push(id)) == weight(tokens, id as int) + pending_weight(
            tokens,
            waiting,
        ),
        weight(tokens, id as int) >= 1,
{
    assert(waiting.push(id).drop_last() =~= waiting);
    assert(waiting.push(id).last() == id);
}

/// `String::push`: appends one character to the end of the string.
#[verifier::external_body]
fn push_char(s: &mut String, c: char)
    ensures
        final(s)@ == old(s)@.push(c),
{
    s.push(c);
}

/// Two numbers with the same identifiers below them are equal, up to the
/// number of identifiers that there are.
proof fn lemma_ids_below_unique(a: nat, b: nat)
    requires
        ids_below(a) == ids_below(b),
        b <= u32::MAX,
    ensures
        a == b,
{
    if a < b {
        assert(ids_below(b).contains(a as TknId));
        assert(!ids_below(a).contains(a as TknId));
    } else if b < a {
        assert(ids_below(a).contains(b as TknId));
        assert(!ids_below(b).contains(b as TknId));
    }
}

/// There are `n` identifiers below `n`.
proof fn lemma_ids_below_len(n: nat)
    requires
        n <= u32::MAX,
    ensures
        ids_below(n).finite(),
        ids_below(n).len() == n,
    decreases n,
{
    if n == 0 {
        assert(ids_below(0) =~= Set::<TknId>::empty());
    } else {
        lemma_ids_below_len((n - 1) as nat);
        assert(ids_below(n) =~= ids_below((n - 1) as nat).insert((n - 1) as TknId));
    }
}

} // verus!
