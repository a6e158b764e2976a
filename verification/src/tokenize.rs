//! Segmenting text with the rules of a grammar.

use vstd::prelude::*;
use crate::decode::{expansion, expansion_of_all, rule_points_back, token_below};
use crate::error::BpeError;
use crate::token::{Token, TokenGrammar};

verus! {

/// One character token for each character of `text`.
pub open spec fn leaves(text: Seq<char>) -> Seq<Token> {
    Seq::new(text.len(), |i: int| Token::spec_leaf(text[i]))
}

/// `s` with every occurrence of `left` directly followed by `right` replaced
/// by `merged`, going from left to right: after a replacement the scan goes on
/// behind the pair, so occurrences never overlap and the new token is not
/// looked at again.
pub open spec fn merge_pass(s: Seq<Token>, left: Token, right: Token, merged: Token) -> Seq<Token>
    decreases s.len(),
{
    if s.len() < 2 {
        s
    } else if s[0] == left && s[1] == right {
        seq![merged] + merge_pass(s.skip(2), left, right, merged)
    } else {
        seq![s[0]] + merge_pass(s.skip(1), left, right, merged)
    }
}

/// How many rules of `g` have an id: ids are 32-bit numbers, so a rule at a
/// position beyond them can be named by no token and is never applied.
pub open spec fn rule_ids(g: Seq<(Token, Token, u32)>) -> nat {
    if g.len() <= 0x1_0000_0000 {
        g.len()
    } else {
        0x1_0000_0000
    }
}

/// `s` after one merge pass for each of the first `n` rules of `g`, in the
/// order of their ids.
pub open spec fn apply_rules(s: Seq<Token>, g: Seq<(Token, Token, u32)>, n: nat) -> Seq<Token>
    decreases n,
{
    if n == 0 {
        s
    } else {
        merge_pass(
            apply_rules(s, g, (n - 1) as nat),
            g[n - 1].0,
            g[n - 1].1,
            Token::Pair((n - 1) as u32),
        )
    }
}

/// The tokens of `text` under the rules `g`: its characters, merged rule by rule.
pub open spec fn tokenization(text: Seq<char>, g: Seq<(Token, Token, u32)>) -> Seq<Token> {
    apply_rules(leaves(text), g, rule_ids(g))
}

/// The character tokens of `text`, in order.
pub fn leaf_tokens(text: &str) -> (tokens: Vec<Token>)
    ensures
        tokens@ == leaves(text@),
{
    let mut tokens: Vec<Token> = Vec::new();
    for c in it: text.chars()
        invariant
            it.seq() == text@,
            tokens@.len() == it.index(),
            forall|j: int| 0 <= j < it.index() ==> tokens@[j] == Token::Char(text@[j]),
    {
        tokens.push(Token::leaf(c));
    }
    assert(tokens@ =~= leaves(text@));
    tokens
}

/// One merge pass over `tokens`.
pub fn merge_pairs(tokens: &Vec<Token>, left: Token, right: Token, merged: Token) -> (out: Vec<
    Token,
>)
    ensures
        out@ == merge_pass(tokens@, left, right, merged),
{
    let mut out: Vec<Token> = Vec::new();
    let mut i: usize = 0;
    assert(tokens@.skip(0) =~= tokens@);
    assert(out@ + merge_pass(tokens@, left, right, merged) =~= merge_pass(
        tokens@,
        left,
        right,
        merged,
    ));
    while i < tokens.len()
        invariant
            i <= tokens.len(),
            out@ + merge_pass(tokens@.skip(i as int), left, right, merged) == merge_pass(
                tokens@,
                left,
                right,
                merged,
            ),
        decreases tokens.len() - i,
    {
        let ghost rest = tokens@.skip(i as int);
        let ghost before = out@;
        if i + 1 < tokens.len() && tokens[i] == left && tokens[i + 1] == right {
            out.push(merged);
            proof {
                assert(rest.skip(2) =~= tokens@.skip(i + 2));
                assert(before.push(merged) + merge_pass(rest.skip(2), left, right, merged)
                    =~= before + (seq![merged] + merge_pass(rest.skip(2), left, right, merged)));
            }
            i += 2;
        } else {
            out.push(tokens[i]);
            proof {
                if rest.len() >= 2 {
                    assert(rest.skip(1) =~= tokens@.skip(i + 1));
                    assert(before.push(rest[0]) + merge_pass(rest.skip(1), left, right, merged)
                        =~= before + (seq![rest[0]] + merge_pass(
                        rest.skip(1),
                        left,
                        right,
                        merged,
                    )));
                } else {
                    assert(tokens@.skip(i + 1) =~= Seq::<Token>::empty());
                    assert(before.push(rest[0]) + Seq::<Token>::empty() =~= before + rest);
                }
            }
            i += 1;
        }
    }
    assert(out@ + Seq::<Token>::empty() =~= out@);
    out
}

/// Interpret a string as tokens present in a pre-computed token grammar.
///
/// The text is split into character tokens; then each rule, in the order of
/// the ids, replaces its pair wherever it occurs.
pub fn tokenize(string: String, token_grammar: &TokenGrammar) -> (tokens: Vec<Token>)
    ensures
        tokens@ == tokenization(string@, token_grammar@),
        tokens@.len() <= string@.len(),
{
    let mut tokens = leaf_tokens(string.as_str());
    let mut id: usize = 0;
    while id < token_grammar.len() && id <= 0xFFFF_FFFF
        invariant
            id <= rule_ids(token_grammar@),
            tokens@ == apply_rules(leaves(string@), token_grammar@, id as nat),
        decreases token_grammar.len() - id,
    {
        let left: Token = token_grammar[id].0;
        let right: Token = token_grammar[id].1;
        tokens = merge_pairs(&tokens, left, right, Token::Pair(id as u32));
        id += 1;
    }
    proof {
        lemma_apply_rules_shrinks(leaves(string@), token_grammar@, rule_ids(token_grammar@));
    }
    tokens
}

/// A merge pass never makes a sequence longer.
pub proof fn lemma_merge_pass_shrinks(s: Seq<Token>, left: Token, right: Token, merged: Token)
    ensures
        merge_pass(s, left, right, merged).len() <= s.len(),
    decreases s.len(),
{
    if s.len() >= 2 {
        if s[0] == left && s[1] == right {
            lemma_merge_pass_shrinks(s.skip(2), left, right, merged);
        } else {
            lemma_merge_pass_shrinks(s.skip(1), left, right, merged);
        }
    }
}

/// Applying rules never makes a sequence longer.
pub proof fn lemma_apply_rules_shrinks(s: Seq<Token>, g: Seq<(Token, Token, u32)>, n: nat)
    ensures
        apply_rules(s, g, n).len() <= s.len(),
    decreases n,
{
    if n > 0 {
        lemma_apply_rules_shrinks(s, g, (n - 1) as nat);
        lemma_merge_pass_shrinks(
            apply_rules(s, g, (n - 1) as nat),
            g[n - 1].0,
            g[n - 1].1,
            Token::Pair((n - 1) as u32),
        );
    }
}

/// With no rules, text is segmented into its characters.
pub proof fn lemma_tokenization_without_rules(text: Seq<char>)
    ensures
        tokenization(text, Seq::empty()) == leaves(text),
{
}

/// What two expansions give when the second follows the first.
pub open spec fn joined(
    front: Result<Seq<char>, BpeError>,
    back: Result<Seq<char>, BpeError>,
) -> Result<Seq<char>, BpeError> {
    match front {
        Err(e) => Err(e),
        Ok(a) => match back {
            Err(e) => Err(e),
            Ok(b) => Ok(a + b),
        },
    }
}

/// The expansion of two sequences, one after the other, is their expansions joined.
pub proof fn lemma_expansion_of_concat(a: Seq<Token>, b: Seq<Token>, g: Seq<(Token, Token, u32)>)
    ensures
        expansion_of_all(a + b, g) == joined(expansion_of_all(a, g), expansion_of_all(b, g)),
    decreases b.len(),
{
    if b.len() == 0 {
        assert(a + b =~= a);
        if let Ok(x) = expansion_of_all(a, g) {
            assert(x + Seq::<char>::empty() =~= x);
        }
    } else {
        assert((a + b).drop_last() =~= a + b.drop_last());
        assert((a + b).last() == b.last());
        lemma_expansion_of_concat(a, b.drop_last(), g);
        if let Ok(x) = expansion_of_all(a, g) {
            if let Ok(y) = expansion_of_all(b.drop_last(), g) {
                if let Ok(z) = expansion(b.last(), g) {
                    assert((x + y) + z =~= x + (y + z));
                }
            }
        }
    }
}

/// A single token expands as a sequence the way it expands alone.
pub proof fn lemma_expansion_of_one(t: Token, g: Seq<(Token, Token, u32)>)
    ensures
        expansion_of_all(seq![t], g) == expansion(t, g),
{
    let one = seq![t];
    assert(one.drop_last() =~= Seq::<Token>::empty());
    assert(expansion_of_all(one.drop_last(), g) == Ok::<Seq<char>, BpeError>(Seq::empty()));
    if let Ok(x) = expansion(t, g) {
        assert(Seq::<char>::empty() + x =~= x);
    }
}

/// The character tokens of a text expand to the text.
pub proof fn lemma_leaves_expand(text: Seq<char>, g: Seq<(Token, Token, u32)>)
    ensures
        expansion_of_all(leaves(text), g) == Ok::<Seq<char>, BpeError>(text),
    decreases text.len(),
{
    if text.len() == 0 {
        assert(text =~= Seq::<char>::empty());
    } else {
        lemma_leaves_expand(text.drop_last(), g);
        assert(leaves(text).drop_last() =~= leaves(text.drop_last()));
        assert(leaves(text).last() == Token::Char(text.last()));
        assert(text.drop_last() + seq![text.last()] =~= text);
    }
}

/// Whether every token of `s` is a character or a merge below `n`, and expands.
pub open spec fn settled(s: Seq<Token>, g: Seq<(Token, Token, u32)>, n: int) -> bool {
    forall|k: int|
        0 <= k < s.len() ==> token_below(#[trigger] s[k], n) && expansion(s[k], g) is Ok
}

/// The pass of rule `i` over settled tokens keeps them settled and keeps
/// what they expand to.
pub proof fn lemma_merge_pass_keeps_text(s: Seq<Token>, g: Seq<(Token, Token, u32)>, i: nat)
    requires
        i < rule_ids(g),
        settled(s, g, i as int),
    ensures
        settled(merge_pass(s, g[i as int].0, g[i as int].1, Token::Pair(i as u32)), g, i as int + 1),
        expansion_of_all(merge_pass(s, g[i as int].0, g[i as int].1, Token::Pair(i as u32)), g)
            == expansion_of_all(s, g),
    decreases s.len(),
{
    let left = g[i as int].0;
    let right = g[i as int].1;
    let merged = Token::Pair(i as u32);
    let out = merge_pass(s, left, right, merged);
    if s.len() < 2 {
        assert forall|k: int| 0 <= k < out.len() implies token_below(#[trigger] out[k], i as int + 1)
            && expansion(out[k], g) is Ok by {
            assert(token_below(s[k], i as int));
        }
    } else if s[0] == left && s[1] == right {
        let rest = s.skip(2);
        let tail = merge_pass(rest, left, right, merged);
        assert forall|k: int| 0 <= k < rest.len() implies token_below(#[trigger] rest[k], i as int)
            && expansion(rest[k], g) is Ok by {
            assert(rest[k] == s[k + 2]);
        }
        lemma_merge_pass_keeps_text(rest, g, i);
        assert(token_below(s[0], i as int) && token_below(s[1], i as int));
        assert(rule_points_back(g[i as int], i as int));
        let l = expansion(left, g)->Ok_0;
        let r = expansion(right, g)->Ok_0;
        assert(expansion(merged, g) == Ok::<Seq<char>, BpeError>(l + r));
        assert forall|k: int| 0 <= k < out.len() implies token_below(#[trigger] out[k], i as int + 1)
            && expansion(out[k], g) is Ok by {
            if k > 0 {
                assert(out[k] == tail[k - 1]);
            }
        }
        let pair = seq![left, right];
        assert(s =~= pair + rest);
        assert(pair =~= seq![left] + seq![right]);
        lemma_expansion_of_one(left, g);
        lemma_expansion_of_one(right, g);
        lemma_expansion_of_one(merged, g);
        lemma_expansion_of_concat(seq![left], seq![right], g);
        lemma_expansion_of_concat(pair, rest, g);
        lemma_expansion_of_concat(seq![merged], tail, g);
    } else {
        let rest = s.skip(1);
        let tail = merge_pass(rest, left, right, merged);
        assert forall|k: int| 0 <= k < rest.len() implies token_below(#[trigger] rest[k], i as int)
            && expansion(rest[k], g) is Ok by {
            assert(rest[k] == s[k + 1]);
        }
        lemma_merge_pass_keeps_text(rest, g, i);
        assert forall|k: int| 0 <= k < out.len() implies token_below(#[trigger] out[k], i as int + 1)
            && expansion(out[k], g) is Ok by {
            if k > 0 {
                assert(out[k] == tail[k - 1]);
            } else {
                assert(token_below(s[0], i as int));
            }
        }
        assert(s =~= seq![s[0]] + rest);
        lemma_expansion_of_concat(seq![s[0]], rest, g);
        lemma_expansion_of_concat(seq![s[0]], tail, g);
    }
}

/// Applying the first `n` rules to settled tokens keeps what they expand to.
pub proof fn lemma_apply_rules_keeps_text(s: Seq<Token>, g: Seq<(Token, Token, u32)>, n: nat)
    requires
        n <= rule_ids(g),
        settled(s, g, 0),
    ensures
        settled(apply_rules(s, g, n), g, n as int),
        expansion_of_all(apply_rules(s, g, n), g) == expansion_of_all(s, g),
    decreases n,
{
    if n > 0 {
        lemma_apply_rules_keeps_text(s, g, (n - 1) as nat);
        lemma_merge_pass_keeps_text(apply_rules(s, g, (n - 1) as nat), g, (n - 1) as nat);
    }
}

/// Segmentation loses nothing: the tokens of a text, expanded under the same
/// rules, give the text back. This holds of all rules, well formed or not.
pub proof fn lemma_tokenization_is_lossless(text: Seq<char>, g: Seq<(Token, Token, u32)>)
    ensures
        expansion_of_all(tokenization(text, g), g) == Ok::<Seq<char>, BpeError>(text),
{
    lemma_leaves_expand(text, g);
    lemma_apply_rules_keeps_text(leaves(text), g, rule_ids(g));
}

} // verus!
