//! Expanding tokens back into the characters they stand for.

use vstd::prelude::*;
use vstd::string::StringExecFns;
use crate::error::BpeError;
use crate::token::{token_rank, Token, TokenGrammar};

verus! {

/// Whether `t` may stand inside the rule with id `id`: a character, or a
/// merge with a smaller id.
pub open spec fn token_below(t: Token, id: int) -> bool {
    match t {
        Token::Char(_) => true,
        Token::Pair(j) => (j as int) < id,
    }
}

/// Whether both sides of `rule`, the rule with id `id`, refer backwards only.
pub open spec fn rule_points_back(rule: (Token, Token, u32), id: int) -> bool {
    token_below(rule.0, id) && token_below(rule.1, id)
}

/// The characters that `t` stands for under the rules `g`.
///
/// A character stands for itself, a merge for the expansion of its left side
/// followed by that of its right side. A merge without a rule is
/// `OutOfRange`; a rule that does not refer backwards is `ForwardReference`.
/// The left side is expanded first, and the first failure is the result.
pub open spec fn expansion(t: Token, g: Seq<(Token, Token, u32)>) -> Result<Seq<char>, BpeError>
    decreases token_rank(t),
{
    match t {
        Token::Char(c) => Ok(seq![c]),
        Token::Pair(i) => {
            if i as int >= g.len() {
                Err(BpeError::OutOfRange)
            } else if !rule_points_back(g[i as int], i as int) {
                Err(BpeError::ForwardReference)
            } else {
                match expansion(g[i as int].0, g) {
                    Err(e) => Err(e),
                    Ok(left) => match expansion(g[i as int].1, g) {
                        Err(e) => Err(e),
                        Ok(right) => Ok(left + right),
                    },
                }
            }
        },
    }
}

/// The characters that the tokens `ts` stand for, one expansion after the
/// other; the first token that fails to expand decides the failure.
pub open spec fn expansion_of_all(ts: Seq<Token>, g: Seq<(Token, Token, u32)>) -> Result<
    Seq<char>,
    BpeError,
>
    decreases ts.len(),
{
    if ts.len() == 0 {
        Ok(Seq::empty())
    } else {
        match expansion_of_all(ts.drop_last(), g) {
            Err(e) => Err(e),
            Ok(front) => match expansion(ts.last(), g) {
                Err(e) => Err(e),
                Ok(back) => Ok(front + back),
            },
        }
    }
}

/// Appends the expansion of `token` to `out`. On failure `out` may hold a
/// part of the expansion.
fn push_expansion(out: &mut String, token: Token, grammar: &TokenGrammar) -> (r: Result<
    (),
    BpeError,
>)
    ensures
        match expansion(token, grammar@) {
            Ok(s) => r is Ok && final(out)@ == old(out)@ + s,
            Err(e) => r == Err::<(), BpeError>(e),
        },
    decreases token_rank(token),
{
    match token {
        Token::Char(c) => {
            out.push(c);
            assert(old(out)@.push(c) =~= old(out)@ + seq![c]);
            Ok(())
        },
        Token::Pair(i) => {
            let at: usize = i as usize;
            if at >= grammar.len() {
                return Err(BpeError::OutOfRange);
            }
            let left: Token = grammar[at].0;
            let right: Token = grammar[at].1;
            if !(below(left, i) && below(right, i)) {
                return Err(BpeError::ForwardReference);
            }
            let ghost before = out@;
            match push_expansion(out, left, grammar) {
                Err(e) => Err(e),
                Ok(()) => {
                    match push_expansion(out, right, grammar) {
                        Err(e) => Err(e),
                        Ok(()) => {
                            proof {
                                let l = expansion(left, grammar@)->Ok_0;
                                let r = expansion(right, grammar@)->Ok_0;
                                assert(before + l + r =~= before + (l + r));
                            }
                            Ok(())
                        },
                    }
                },
            }
        },
    }
}

/// Whether `t` is a character or a merge with an id below `id`.
fn below(t: Token, id: u32) -> (r: bool)
    ensures
        r == token_below(t, id as int),
{
    match t {
        Token::Char(_) => true,
        Token::Pair(j) => j < id,
    }
}

/// Convert a token back to text with the provided token grammar.
pub fn token_to_chars(token: &Token, token_grammar: &TokenGrammar) -> (r: Result<String, BpeError>)
    ensures
        match r {
            Ok(s) => expansion(*token, token_grammar@) == Ok::<Seq<char>, BpeError>(s@),
            Err(e) => expansion(*token, token_grammar@) == Err::<Seq<char>, BpeError>(e),
        },
{
    let mut out = String::new();
    match push_expansion(&mut out, *token, token_grammar) {
        Ok(()) => {
            assert(Seq::<char>::empty() + out@ =~= out@);
            Ok(out)
        },
        Err(e) => Err(e),
    }
}

/// Convert multiple tokens back to text with the provided token grammar.
pub fn tokens_to_string(tokens: &Vec<Token>, token_grammar: &TokenGrammar) -> (r: Result<
    String,
    BpeError,
>)
    ensures
        match r {
            Ok(s) => expansion_of_all(tokens@, token_grammar@) == Ok::<Seq<char>, BpeError>(s@),
            Err(e) => expansion_of_all(tokens@, token_grammar@) == Err::<Seq<char>, BpeError>(e),
        },
{
    let mut out = String::new();
    let mut i: usize = 0;
    while i < tokens.len()
        invariant
            i <= tokens.len(),
            expansion_of_all(tokens@.take(i as int), token_grammar@) == Ok::<Seq<char>, BpeError>(
                out@,
            ),
        decreases tokens.len() - i,
    {
        proof {
            assert(tokens@.take(i + 1).drop_last() =~= tokens@.take(i as int));
        }
        match push_expansion(&mut out, tokens[i], token_grammar) {
            Ok(()) => {},
            Err(e) => {
                proof {
                    lemma_failure_stays(tokens@, token_grammar@, i + 1);
                }
                return Err(e);
            },
        }
        i += 1;
    }
    assert(tokens@.take(i as int) =~= tokens@);
    Ok(out)
}

/// A failure among the first `n` tokens is the failure of the whole sequence.
proof fn lemma_failure_stays(ts: Seq<Token>, g: Seq<(Token, Token, u32)>, n: int)
    requires
        0 <= n <= ts.len(),
        expansion_of_all(ts.take(n), g) is Err,
    ensures
        expansion_of_all(ts, g) == expansion_of_all(ts.take(n), g),
    decreases ts.len() - n,
{
    if n < ts.len() {
        assert(ts.take(n + 1).drop_last() =~= ts.take(n));
        lemma_failure_stays(ts, g, n + 1);
    } else {
        assert(ts.take(n) =~= ts);
    }
}

/// A character expands to itself, whatever the rules are.
pub proof fn lemma_char_expands_to_itself(c: char, g: Seq<(Token, Token, u32)>)
    ensures
        expansion(Token::Char(c), g) == Ok::<Seq<char>, BpeError>(seq![c]),
{
}

/// Under rules that all refer backwards, every character and every merge
/// that has a rule expands.
pub proof fn lemma_backward_rules_expand(t: Token, g: Seq<(Token, Token, u32)>)
    requires
        forall|i: int| 0 <= i < g.len() ==> rule_points_back(#[trigger] g[i], i),
        token_below(t, g.len() as int),
    ensures
        expansion(t, g) is Ok,
    decreases token_rank(t),
{
    if let Token::Pair(i) = t {
        assert(rule_points_back(g[i as int], i as int));
        lemma_backward_rules_expand(g[i as int].0, g);
        lemma_backward_rules_expand(g[i as int].1, g);
    }
}

} // verus!
