//! Tokens and merge rules.

use vstd::prelude::*;

verus! {

/// A symbol of the vocabulary: a literal character, or the id of a merge rule.
#[derive(Debug, Clone, Copy, PartialEq, Eq, Structural, PartialOrd, Ord, Hash)]
pub enum Token {
    /// A single character of the text.
    Char(char),
    /// The pair joined by the rule with this id.
    Pair(u32),
}

/// Merge rules `(left, right, frequency)`; the position of a rule is its id.
pub type TokenGrammar = Vec<(Token, Token, u32)>;

/// The place of a token in the order of tokens: characters by scalar value,
/// then merges by id.
pub open spec fn token_rank(t: Token) -> int {
    match t {
        Token::Char(c) => c as int,
        Token::Pair(i) => 0x1_0000_0000 + i as int,
    }
}

impl Token {
    /// The token of the character `c`.
    pub open spec fn spec_leaf(c: char) -> Token {
        Token::Char(c)
    }

    /// The token of the character `c`.
    #[verifier::when_used_as_spec(spec_leaf)]
    pub fn leaf(c: char) -> (t: Token)
        ensures
            t == Token::Char(c),
    {
        Token::Char(c)
    }

    /// Whether `self` stands before `other` in the order of tokens.
    pub fn precedes(&self, other: &Token) -> (r: bool)
        ensures
            r == (token_rank(*self) < token_rank(*other)),
    {
        match (*self, *other) {
            (Token::Char(a), Token::Char(b)) => (a as u32) < (b as u32),
            (Token::Char(_), Token::Pair(_)) => true,
            (Token::Pair(_), Token::Char(_)) => false,
            (Token::Pair(a), Token::Pair(b)) => a < b,
        }
    }
}

} // verus!
