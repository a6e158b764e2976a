//! Tokens and rules as text for people to read.

use vstd::prelude::*;
use crate::decode::{expansion, token_to_chars};
use crate::error::BpeError;
use crate::token::{Token, TokenGrammar};

verus! {

/// The decimal digit for `d`.
pub open spec fn digit(d: nat) -> char
    recommends
        d < 10,
{
    (48 + d) as u8 as char
}

/// The number `n` in decimal digits, without leading zeros.
pub open spec fn decimal(n: nat) -> Seq<char>
    decreases n,
{
    if n < 10 {
        seq![digit(n)]
    } else {
        decimal(n / 10).push(digit(n % 10))
    }
}

/// How the token `t` is shown: a character between double quotes, a merge
/// as `T` and its id.
pub open spec fn token_label(t: Token) -> Seq<char> {
    match t {
        Token::Char(c) => seq!['"', c, '"'],
        Token::Pair(i) => seq!['T'] + decimal(i as nat),
    }
}

/// The line that shows rule `i` of `g`: its two sides, the text that they
/// stand for, its id and its frequency, as in `("a" + T0) aab -> T1 (2)`.
/// A side that does not expand makes the line fail, the left side first.
pub open spec fn rule_line(g: Seq<(Token, Token, u32)>, i: int) -> Result<Seq<char>, BpeError> {
    match expansion(g[i].0, g) {
        Err(e) => Err(e),
        Ok(left) => match expansion(g[i].1, g) {
            Err(e) => Err(e),
            Ok(right) => Ok(
                seq!['('] + token_label(g[i].0) + seq![' ', '+', ' '] + token_label(g[i].1) + seq![
                    ')',
                    ' ',
                ] + left + right + seq![' ', '-', '>', ' ', 'T'] + decimal(i as nat) + seq![
                    ' ',
                    '(',
                ] + decimal(g[i].2 as nat) + seq![')'],
            ),
        },
    }
}

/// Appends `n` in decimal digits to `out`.
fn push_decimal(out: &mut String, n: u64)
    ensures
        final(out)@ == old(out)@ + decimal(n as nat),
    decreases n,
{
    if n >= 10 {
        push_decimal(out, n / 10);
    }
    let d: u8 = (n % 10) as u8;
    out.push((48 + d) as char);
    proof {
        let ds = decimal((n / 10) as nat);
        if n >= 10 {
            assert((old(out)@ + ds).push(digit((n % 10) as nat)) =~= old(out)@ + ds.push(
                digit((n % 10) as nat),
            ));
        } else {
            assert(old(out)@.push(digit(n as nat)) =~= old(out)@ + seq![digit(n as nat)]);
        }
    }
}

/// Appends the label of `token` to `out`.
fn push_label(out: &mut String, token: Token)
    ensures
        final(out)@ == old(out)@ + token_label(token),
{
    match token {
        Token::Char(c) => {
            out.push('"');
            out.push(c);
            out.push('"');
            assert(out@ =~= old(out)@ + token_label(token));
        },
        Token::Pair(i) => {
            out.push('T');
            push_decimal(out, i as u64);
            assert(out@ =~= old(out)@ + token_label(token));
        },
    }
}

impl Token {
    /// The token as shown to people: see `token_label`.
    pub fn to_text(&self) -> (text: String)
        ensures
            text@ == token_label(*self),
    {
        let mut out = String::new();
        push_label(&mut out, *self);
        assert(Seq::<char>::empty() + token_label(*self) =~= token_label(*self));
        out
    }
}

/// The line that shows rule `i` of the grammar.
fn line_of(token_grammar: &TokenGrammar, i: usize) -> (r: Result<String, BpeError>)
    requires
        i < token_grammar@.len(),
    ensures
        match r {
            Ok(line) => rule_line(token_grammar@, i as int) == Ok::<Seq<char>, BpeError>(line@),
            Err(e) => rule_line(token_grammar@, i as int) == Err::<Seq<char>, BpeError>(e),
        },
{
    let left: Token = token_grammar[i].0;
    let right: Token = token_grammar[i].1;
    let frequency: u32 = token_grammar[i].2;
    let left_text = match token_to_chars(&left, token_grammar) {
        Ok(text) => text,
        Err(e) => {
            return Err(e);
        },
    };
    let right_text = match token_to_chars(&right, token_grammar) {
        Ok(text) => text,
        Err(e) => {
            return Err(e);
        },
    };
    let mut out = String::new();
    out.push('(');
    push_label(&mut out, left);
    out.push(' ');
    out.push('+');
    out.push(' ');
    push_label(&mut out, right);
    out.push(')');
    out.push(' ');
    vstd::string::StringExecFns::append(&mut out, left_text.as_str());
    vstd::string::StringExecFns::append(&mut out, right_text.as_str());
    out.push(' ');
    out.push('-');
    out.push('>');
    out.push(' ');
    out.push('T');
    push_decimal(&mut out, i as u64);
    out.push(' ');
    out.push('(');
    push_decimal(&mut out, frequency as u64);
    out.push(')');
    assert(out@ =~= rule_line(token_grammar@, i as int)->Ok_0);
    Ok(out)
}

/// One line for each rule of the grammar, in the order of the rules: see
/// `rule_line`. The first rule whose line fails decides the failure.
pub fn debug_grammar(token_grammar: &TokenGrammar) -> (r: Result<Vec<String>, BpeError>)
    ensures
        match r {
            Ok(lines) => {
                &&& lines@.len() == token_grammar@.len()
                &&& forall|i: int|
                    0 <= i < lines@.len() ==> #[trigger] rule_line(token_grammar@, i) == Ok::<
                        Seq<char>,
                        BpeError,
                    >(lines@[i]@)
            },
            Err(e) => exists|i: int|
                {
                    &&& 0 <= i < token_grammar@.len()
                    &&& #[trigger] rule_line(token_grammar@, i) == Err::<Seq<char>, BpeError>(e)
                    &&& forall|j: int| 0 <= j < i ==> #[trigger] rule_line(token_grammar@, j) is Ok
                },
        },
{
    let mut lines: Vec<String> = Vec::new();
    let mut i: usize = 0;
    while i < token_grammar.len()
        invariant
            i <= token_grammar.len(),
            lines@.len() == i,
            forall|j: int|
                0 <= j < i ==> #[trigger] rule_line(token_grammar@, j) == Ok::<Seq<char>, BpeError>(
                    lines@[j]@,
                ),
        decreases token_grammar.len() - i,
    {
        match line_of(token_grammar, i) {
            Ok(line) => {
                lines.push(line);
            },
            Err(e) => {
                return Err(e);
            },
        }
        i += 1;
    }
    Ok(lines)
}

} // verus!
