//! The symbol model: a leaf character or a composition of two identifiers.

use vstd::prelude::*;

verus! {

/// Identifier of a symbol in a vocabulary.
pub type TknId = u32;

/// An ordered pair of adjacent identifiers.
pub type TknDiagram = (TknId, TknId);

/// A count of symbols or of occurrences.
pub type TknMaxAmount = TknId;

/// A symbol of the vocabulary.
#[derive(PartialEq, Eq, Structural, Hash, Clone, Copy, Debug)]
pub enum Token {
    /// A single character.
    Unit(char),
    /// The expansion of the first identifier followed by that of the second.
    Composition(TknId, TknId),
}

/// The integer under which a digram is stored in a hash map: the first
/// identifier in the upper 32 bits, the second in the lower 32 bits.
pub open spec fn digram_key_spec(digram: TknDiagram) -> u64 {
    (digram.0 * 0x1_0000_0000 + digram.1) as u64
}

/// The digram that a key stands for.
pub open spec fn key_digram_spec(key: u64) -> TknDiagram {
    ((key / 0x1_0000_0000) as u32, (key % 0x1_0000_0000) as u32)
}

/// The integer under which a symbol is stored in a hash map. A leaf is
/// its code point; a composition is its digram key above `2^64`.
pub open spec fn token_key_spec(tkn: Token) -> u128 {
    match tkn {
        Token::Unit(c) => c as u128,
        Token::Composition(left, right) => (0x1_0000_0000_0000_0000 + left * 0x1_0000_0000
            + right) as u128,
    }
}

/// Key and digram determine each other.
pub proof fn lemma_digram_key_inverse(digram: TknDiagram)
    ensures
        key_digram_spec(digram_key_spec(digram)) == digram,
        digram_key_spec(digram) == digram.0 * 0x1_0000_0000 + digram.1,
{
}

/// Every key is the key of the digram it stands for.
pub proof fn lemma_key_digram_inverse(key: u64)
    ensures
        digram_key_spec(key_digram_spec(key)) == key,
{
}

/// Distinct symbols have distinct keys.
pub proof fn lemma_token_key_injective(a: Token, b: Token)
    ensures
        token_key_spec(a) == token_key_spec(b) <==> a == b,
{
}

/// Computes the key of a digram.
#[verifier::when_used_as_spec(digram_key_spec)]
pub fn digram_key(digram: TknDiagram) -> (key: u64)
    ensures
        key == digram_key_spec(digram),
{
    (digram.0 as u64) * 0x1_0000_0000 + (digram.1 as u64)
}

/// Recovers the digram from its key.
#[verifier::when_used_as_spec(key_digram_spec)]
pub fn key_digram(key: u64) -> (digram: TknDiagram)
    ensures
        digram == key_digram_spec(key),
{
    ((key / 0x1_0000_0000) as u32, (key % 0x1_0000_0000) as u32)
}

/// Computes the key of a symbol.
#[verifier::when_used_as_spec(token_key_spec)]
pub fn token_key(tkn: Token) -> (key: u128)
    ensures
        key == token_key_spec(tkn),
{
    match tkn {
        Token::Unit(c) => (c as u32) as u128,
        Token::Composition(left, right) => 0x1_0000_0000_0000_0000u128 + (left as u128)
            * 0x1_0000_0000 + (right as u128),
    }
}

} // verus!
