//! Producing text by a random walk over the rules of a grammar.
//!
//! The walk stands on a token. Its continuations are the right sides of the
//! rules that have the token as their left side. One of them is drawn by
//! weight, its text is appended, and the walk stands on it.

use rand::rngs::ThreadRng;
use vstd::prelude::*;
use vstd::string::StringExecFns;
use crate::codec::points_back;
use crate::decode::{
    expansion,
    expansion_of_all,
    lemma_backward_rules_expand,
    rule_points_back,
    token_below,
    token_to_chars,
    tokens_to_string,
};
use crate::error::BpeError;
use crate::sample::{sample_index, thread_rng, weight_sum, weighted_choice};
use crate::token::{token_rank, Token, TokenGrammar};
use crate::tokenize::{
    lemma_expansion_of_concat,
    lemma_expansion_of_one,
    lemma_tokenization_is_lossless,
    tokenization,
    tokenize,
};

verus! {

/// Whether `rule` offers its right side as a continuation of `t`: its left
/// side is `t`, and where `t` is a merge the rule does not pair it with itself.
pub open spec fn rule_continues(rule: (Token, Token, u32), t: Token) -> bool {
    rule.0 == t && (t is Pair ==> rule.0 != rule.1)
}

/// The right sides of the rules of `g` that continue `t`, in the order of the rules.
pub open spec fn direct_continuations(t: Token, g: Seq<(Token, Token, u32)>) -> Seq<Token>
    decreases g.len(),
{
    if g.len() == 0 {
        Seq::empty()
    } else if rule_continues(g.last(), t) {
        direct_continuations(t, g.drop_last()).push(g.last().1)
    } else {
        direct_continuations(t, g.drop_last())
    }
}

/// The tokens that may follow `t` under the rules `g`.
///
/// These are the direct continuations of `t`. Where a merge has none, they
/// are the continuations of the right side of its rule, and so on downwards.
/// A character without direct continuations has none; neither has a merge
/// without a rule, or one whose rule does not refer backwards on the right.
pub open spec fn continuations(t: Token, g: Seq<(Token, Token, u32)>) -> Seq<Token>
    decreases token_rank(t),
{
    let direct = direct_continuations(t, g);
    if direct.len() > 0 {
        direct
    } else {
        match t {
            Token::Char(_) => direct,
            Token::Pair(i) => {
                if (i as int) < g.len() && token_below(g[i as int].1, i as int) {
                    continuations(g[i as int].1, g)
                } else {
                    direct
                }
            },
        }
    }
}

/// The weight of the token `t`: 1 for a character, the entry of its rule in
/// `table` for a merge.
pub open spec fn token_weight(t: Token, table: Seq<u32>) -> u32 {
    match t {
        Token::Char(_) => 1,
        Token::Pair(j) => if (j as int) < table.len() {
            table[j as int]
        } else {
            0
        },
    }
}

/// Whether one of `candidates` is a merge without an entry among `n` rules.
pub open spec fn dangling(candidates: Seq<Token>, n: nat) -> bool {
    exists|k: int|
        0 <= k < candidates.len() && (#[trigger] candidates[k]) is Pair && candidates[k]->Pair_0
            >= n
}

/// The weight of each of `candidates`.
pub open spec fn raw_weights(candidates: Seq<Token>, table: Seq<u32>) -> Seq<u32> {
    Seq::new(candidates.len(), |k: int| token_weight(candidates[k], table))
}

/// The weights by which one of `candidates` is drawn: their own weights, or
/// 1 for each where those are all zero.
pub open spec fn drawn_weights(candidates: Seq<Token>, table: Seq<u32>) -> Seq<u32> {
    if weight_sum(raw_weights(candidates, table)) == 0 {
        Seq::new(candidates.len(), |k: int| 1u32)
    } else {
        raw_weights(candidates, table)
    }
}

/// Why no continuation can be drawn at the token `t`, if one should be.
///
/// Nothing is wrong where `t` has no continuations: the walk ends there. A
/// continuation that is a merge without a rule is `OutOfRange`. Weights whose
/// sum does not fit in 32 bits are `WeightOverflow`.
pub open spec fn step_failure(t: Token, g: Seq<(Token, Token, u32)>, table: Seq<u32>) -> Option<
    BpeError,
> {
    let candidates = continuations(t, g);
    if candidates.len() == 0 {
        None
    } else if dangling(candidates, table.len()) {
        Some(BpeError::OutOfRange)
    } else if weight_sum(drawn_weights(candidates, table)) > u32::MAX {
        Some(BpeError::WeightOverflow)
    } else {
        None
    }
}

/// The direct continuations of `token`.
fn scan_continuations(token: Token, grammar: &TokenGrammar) -> (found: Vec<Token>)
    ensures
        found@ == direct_continuations(token, grammar@),
{
    let mut found: Vec<Token> = Vec::new();
    let mut i: usize = 0;
    let is_merge = match token {
        Token::Pair(_) => true,
        Token::Char(_) => false,
    };
    while i < grammar.len()
        invariant
            i <= grammar.len(),
            is_merge == (token is Pair),
            found@ == direct_continuations(token, grammar@.take(i as int)),
        decreases grammar.len() - i,
    {
        let left: Token = grammar[i].0;
        let right: Token = grammar[i].1;
        proof {
            assert(grammar@.take(i + 1).drop_last() =~= grammar@.take(i as int));
            assert(grammar@.take(i + 1).last() == grammar@[i as int]);
        }
        if left == token && (!is_merge || left != right) {
            found.push(right);
        }
        i += 1;
    }
    assert(grammar@.take(i as int) =~= grammar@);
    found
}

/// Find valid followup tokens for a given root token and pre-existing token grammar.
pub fn find_valid_tokens(token: &Token, token_grammar: &TokenGrammar) -> (found: Vec<Token>)
    ensures
        found@ == continuations(*token, token_grammar@),
{
    let mut current: Token = *token;
    loop
        invariant
            continuations(current, token_grammar@) == continuations(*token, token_grammar@),
        decreases token_rank(current),
    {
        let found = scan_continuations(current, token_grammar);
        if found.len() > 0 {
            return found;
        }
        match current {
            Token::Char(_) => {
                return found;
            },
            Token::Pair(i) => {
                if (i as usize) < token_grammar.len() {
                    let right: Token = token_grammar[i as usize].1;
                    let backwards = match right {
                        Token::Char(_) => true,
                        Token::Pair(j) => j < i,
                    };
                    if backwards {
                        current = right;
                    } else {
                        return found;
                    }
                } else {
                    return found;
                }
            },
        }
    }
}

/// The sum of the first `n` weights is no more than the sum of all.
pub proof fn lemma_weight_sum_grows(ws: Seq<u32>, n: int)
    requires
        0 <= n <= ws.len(),
    ensures
        0 <= weight_sum(ws.take(n)) <= weight_sum(ws),
    decreases ws.len() - n,
{
    if n < ws.len() {
        assert(ws.take(n + 1).drop_last() =~= ws.take(n));
        lemma_weight_sum_grows(ws, n + 1);
        lemma_weight_sum_is_natural(ws.take(n));
    } else {
        assert(ws.take(n) =~= ws);
        lemma_weight_sum_is_natural(ws);
    }
}

/// A sum of weights is not negative.
pub proof fn lemma_weight_sum_is_natural(ws: Seq<u32>)
    ensures
        0 <= weight_sum(ws),
    decreases ws.len(),
{
    if ws.len() > 0 {
        lemma_weight_sum_is_natural(ws.drop_last());
    }
}

/// The sum of `n` weights of 1 is `n`.
pub proof fn lemma_weight_sum_of_ones(n: nat)
    ensures
        weight_sum(Seq::new(n, |k: int| 1u32)) == n,
    decreases n,
{
    if n > 0 {
        lemma_weight_sum_of_ones((n - 1) as nat);
        assert(Seq::new(n, |k: int| 1u32).drop_last() =~= Seq::new((n - 1) as nat, |k: int| 1u32));
    }
}

/// The sum of `weights`, where it fits in 32 bits.
fn sum_weights(weights: &Vec<u32>) -> (total: Option<u32>)
    ensures
        match total {
            Some(t) => t == weight_sum(weights@),
            None => weight_sum(weights@) > u32::MAX,
        },
{
    let mut total: u32 = 0;
    let mut i: usize = 0;
    while i < weights.len()
        invariant
            i <= weights.len(),
            total == weight_sum(weights@.take(i as int)),
        decreases weights.len() - i,
    {
        proof {
            assert(weights@.take(i + 1).drop_last() =~= weights@.take(i as int));
            lemma_weight_sum_grows(weights@, i + 1);
        }
        if weights[i] > u32::MAX - total {
            return None;
        }
        total = total + weights[i];
        i += 1;
    }
    assert(weights@.take(i as int) =~= weights@);
    Some(total)
}

/// The weights by which one of `candidates` is drawn.
fn weigh(candidates: &Vec<Token>, table: &Vec<u32>) -> (r: Result<Vec<u32>, BpeError>)
    requires
        candidates@.len() > 0,
    ensures
        match r {
            Ok(ws) => {
                &&& !dangling(candidates@, table@.len())
                &&& ws@ == drawn_weights(candidates@, table@)
                &&& 0 < weight_sum(ws@) <= u32::MAX
            },
            Err(e) => {
                ||| e == BpeError::OutOfRange && dangling(candidates@, table@.len())
                ||| e == BpeError::WeightOverflow && !dangling(candidates@, table@.len())
                    && weight_sum(drawn_weights(candidates@, table@)) > u32::MAX
            },
        },
{
    let mut ws: Vec<u32> = Vec::new();
    let mut i: usize = 0;
    while i < candidates.len()
        invariant
            i <= candidates.len(),
            ws@.len() == i,
            forall|k: int|
                0 <= k < i ==> !((#[trigger] candidates@[k]) is Pair && candidates@[k]->Pair_0
                    >= table@.len()),
            forall|k: int| 0 <= k < i ==> #[trigger] ws@[k] == token_weight(candidates@[k], table@),
        decreases candidates.len() - i,
    {
        let w: u32 = match candidates[i] {
            Token::Char(_) => 1,
            Token::Pair(j) => {
                if (j as usize) < table.len() {
                    table[j as usize]
                } else {
                    return Err(BpeError::OutOfRange);
                }
            },
        };
        ws.push(w);
        i += 1;
    }
    assert(ws@ =~= raw_weights(candidates@, table@));
    match sum_weights(&ws) {
        None => Err(BpeError::WeightOverflow),
        Some(total) => {
            if total > 0 {
                Ok(ws)
            } else {
                let mut ones: Vec<u32> = Vec::new();
                let mut k: usize = 0;
                while k < candidates.len()
                    invariant
                        k <= candidates.len(),
                        ones@ == Seq::new(k as nat, |j: int| 1u32),
                    decreases candidates.len() - k,
                {
                    ones.push(1);
                    assert(ones@ =~= Seq::new((k + 1) as nat, |j: int| 1u32));
                    k += 1;
                }
                proof {
                    lemma_weight_sum_of_ones(candidates@.len());
                }
                if ones.len() > 0xFFFF_FFFF {
                    Err(BpeError::WeightOverflow)
                } else {
                    Ok(ones)
                }
            }
        },
    }
}

/// The continuations of `token`, each with the weight by which it is drawn.
/// Both are empty where `token` has no continuations.
pub fn weighted_continuations(token: &Token, token_grammar: &TokenGrammar, weights: &Vec<u32>) -> (r:
    Result<(Vec<Token>, Vec<u32>), BpeError>)
    ensures
        match r {
            Ok((candidates, ws)) => {
                &&& step_failure(*token, token_grammar@, weights@) is None
                &&& candidates@ == continuations(*token, token_grammar@)
                &&& ws@.len() == candidates@.len()
                &&& candidates@.len() > 0 ==> ws@ == drawn_weights(candidates@, weights@) && 0
                    < weight_sum(ws@) <= u32::MAX
            },
            Err(e) => step_failure(*token, token_grammar@, weights@) == Some(e),
        },
{
    let candidates = find_valid_tokens(token, token_grammar);
    if candidates.len() == 0 {
        return Ok((candidates, Vec::new()));
    }
    match weigh(&candidates, weights) {
        Ok(ws) => Ok((candidates, ws)),
        Err(e) => Err(e),
    }
}

/// `text` behind `front`, or the failure that `text` is.
pub open spec fn behind(front: Seq<char>, text: Result<Seq<char>, BpeError>) -> Result<
    Seq<char>,
    BpeError,
> {
    match text {
        Ok(s) => Ok(front + s),
        Err(e) => Err(e),
    }
}

/// The text of the walk that starts on `t` and takes `choices` in turn: each
/// choice is the position of a continuation of the token on which the walk
/// stands.
///
/// The text of `t` comes first; a token that does not expand ends the walk
/// with its failure. The walk ends with the text so far when the choices are
/// used up, or when the token has no continuations. A continuation cannot be
/// drawn where `step_failure` says so. A choice that names no continuation, or
/// one whose weight is zero, is `InvalidChoice`.
pub open spec fn replay(
    t: Token,
    g: Seq<(Token, Token, u32)>,
    table: Seq<u32>,
    choices: Seq<usize>,
) -> Result<Seq<char>, BpeError>
    decreases choices.len(),
{
    match expansion(t, g) {
        Err(e) => Err(e),
        Ok(head) => {
            let candidates = continuations(t, g);
            if choices.len() == 0 || candidates.len() == 0 {
                Ok(head)
            } else {
                match step_failure(t, g, table) {
                    Some(e) => Err(e),
                    None => {
                        let k = choices[0] as int;
                        if k >= candidates.len() || drawn_weights(candidates, table)[k] == 0 {
                            Err(BpeError::InvalidChoice)
                        } else {
                            behind(head, replay(candidates[k], g, table, choices.skip(1)))
                        }
                    },
                }
            }
        },
    }
}

/// What a result holds, as characters.
pub open spec fn text_of(r: Result<String, BpeError>) -> Result<Seq<char>, BpeError> {
    match r {
        Ok(s) => Ok(s@),
        Err(e) => Err(e),
    }
}

/// Where the choices of a walk come from.
enum Picks<'a> {
    /// The choices are given.
    Given(&'a Vec<usize>),
    /// Each choice is drawn at random, by weight.
    Drawn(ThreadRng),
}

/// Choice number `i`: the given one, or a position drawn by the weights `ws`.
fn pick(picks: &mut Picks, i: usize, ws: &Vec<u32>) -> (k: usize)
    requires
        ws@.len() > 0,
        0 < weight_sum(ws@) <= u32::MAX,
        *old(picks) matches Picks::Given(choices) ==> i < choices@.len(),
    ensures
        *old(picks) matches Picks::Given(choices) ==> *final(picks) == *old(picks) && k
            == choices@[i as int],
        *old(picks) is Drawn ==> *final(picks) is Drawn && k < ws@.len() && ws@[k as int] > 0,
{
    match picks {
        Picks::Given(choices) => choices[i],
        Picks::Drawn(rng) => {
            match weighted_choice(ws) {
                Ok(choice) => sample_index(&choice, rng),
                Err(_) => {
                    assert(false);
                    0
                },
            }
        },
    }
}

/// A token that does not expand has no rule, or a rule that refers forwards.
pub proof fn lemma_expansion_failures(t: Token, g: Seq<(Token, Token, u32)>)
    ensures
        expansion(t, g) matches Err(e) ==> e == BpeError::OutOfRange || e
            == BpeError::ForwardReference,
    decreases token_rank(t),
{
    if let Token::Pair(i) = t {
        if (i as int) < g.len() && rule_points_back(g[i as int], i as int) {
            lemma_expansion_failures(g[i as int].0, g);
            lemma_expansion_failures(g[i as int].1, g);
        }
    }
}

/// The walk from `token` of at most `depth` choices, taken from `picks`.
fn walk(
    token: Token,
    token_grammar: &TokenGrammar,
    weights: &Vec<u32>,
    depth: usize,
    picks: &mut Picks,
) -> (r: Result<String, BpeError>)
    requires
        *old(picks) matches Picks::Given(given) ==> given@.len() == depth,
    ensures
        exists|choices: Seq<usize>|
            {
                &&& choices.len() == depth
                &&& *old(picks) matches Picks::Given(given) ==> choices == given@
                &&& #[trigger] replay(token, token_grammar@, weights@, choices) == text_of(r)
            },
        *old(picks) is Drawn ==> r != Err::<String, BpeError>(BpeError::InvalidChoice),
{
    let ghost g = token_grammar@;
    let ghost table = weights@;
    let mut out = String::new();
    let mut current: Token = token;
    let mut step: usize = 0;
    let ghost mut taken: Seq<usize> = Seq::empty();
    proof {
        assert forall|rest: Seq<usize>|
            replay(token, g, table, taken + rest) == behind(
                out@,
                #[trigger] replay(current, g, table, rest),
            ) by {
            assert(taken + rest =~= rest);
            match replay(current, g, table, rest) {
                Ok(s) => {
                    assert(out@ + s =~= s);
                },
                Err(_) => {},
            }
        }
    }
    loop
        invariant
            g == token_grammar@,
            table == weights@,
            step <= depth,
            taken.len() == step,
            *old(picks) is Drawn <==> *picks is Drawn,
            *old(picks) matches Picks::Given(given) ==> *picks == *old(picks) && given@.len()
                == depth && taken == given@.take(step as int),
            forall|rest: Seq<usize>|
                replay(token, g, table, taken + rest) == behind(
                    out@,
                    #[trigger] replay(current, g, table, rest),
                ),
        decreases depth - step,
    {
        let ghost rest: Seq<usize> = match *picks {
            Picks::Given(given) => given@.skip(step as int),
            Picks::Drawn(_) => Seq::new((depth - step) as nat, |i: int| 0usize),
        };
        let ghost front = out@;
        proof {
            lemma_expansion_failures(current, g);
            if let Picks::Given(given) = *picks {
                assert(taken + rest =~= given@);
            }
            assert(replay(token, g, table, taken + rest) == behind(
                front,
                replay(current, g, table, rest),
            ));
        }
        let head = match token_to_chars(&current, token_grammar) {
            Ok(text) => text,
            Err(e) => {
                return Err(e);
            },
        };
        out.append(head.as_str());
        if step == depth {
            return Ok(out);
        }
        let (candidates, ws) = match weighted_continuations(&current, token_grammar, weights) {
            Ok(found) => found,
            Err(e) => {
                return Err(e);
            },
        };
        if candidates.len() == 0 {
            return Ok(out);
        }
        let k = pick(picks, step, &ws);
        proof {
            if let Picks::Given(given) = *picks {
                assert(rest[0] == k);
            }
        }
        if k >= candidates.len() || ws[k] == 0 {
            return Err(BpeError::InvalidChoice);
        }
        let next: Token = candidates[k];
        proof {
            assert forall|more: Seq<usize>|
                replay(token, g, table, taken.push(k) + more) == behind(
                    out@,
                    #[trigger] replay(next, g, table, more),
                ) by {
                let longer = seq![k] + more;
                assert(longer.skip(1) =~= more);
                assert(longer[0] == k);
                assert(taken + longer =~= taken.push(k) + more);
                assert(replay(token, g, table, taken + longer) == behind(
                    front,
                    replay(current, g, table, longer),
                ));
                match replay(next, g, table, more) {
                    Ok(s) => {
                        assert(front + (head@ + s) =~= (front + head@) + s);
                    },
                    Err(_) => {},
                }
            }
            if let Picks::Given(given) = *picks {
                assert(given@.take(step + 1) =~= given@.take(step as int).push(k));
            }
            taken = taken.push(k);
        }
        current = next;
        step += 1;
    }
}

/// Generate a new string from a token and pre-existing token grammar, by a
/// walk of at most `depth` steps.
///
/// `weights` holds one weight for each rule: the weight by which the merge
/// of that rule is drawn where it is a continuation. A character is drawn
/// with weight 1. Where all continuations of a token have weight zero, each
/// is drawn with weight 1. The result is that of `replay` on the choices that
/// were drawn: its text is that of `token` followed by that of each token
/// drawn, and it is shorter than `depth` steps only where the walk came to a
/// token without continuations.
pub fn generate_gibberish(
    token: &Token,
    token_grammar: &TokenGrammar,
    depth: u32,
    weights: &Vec<u32>,
) -> (r: Result<String, BpeError>)
    ensures
        weights@.len() != token_grammar@.len() ==> text_of(r) == Err::<Seq<char>, BpeError>(
            BpeError::WeightCount,
        ),
        weights@.len() == token_grammar@.len() ==> {
            &&& text_of(r) != Err::<Seq<char>, BpeError>(BpeError::InvalidChoice)
            &&& exists|choices: Seq<usize>|
                choices.len() == depth && #[trigger] replay(
                    *token,
                    token_grammar@,
                    weights@,
                    choices,
                ) == text_of(r)
        },
{
    if weights.len() != token_grammar.len() {
        return Err(BpeError::WeightCount);
    }
    let mut picks = Picks::Drawn(thread_rng());
    walk(*token, token_grammar, weights, depth as usize, &mut picks)
}

/// The string of the walk from `token` that takes the given `choices`: what
/// `generate_gibberish` gives where it draws these choices.
pub fn generate_along(
    token: &Token,
    token_grammar: &TokenGrammar,
    weights: &Vec<u32>,
    choices: &Vec<usize>,
) -> (r: Result<String, BpeError>)
    ensures
        weights@.len() != token_grammar@.len() ==> text_of(r) == Err::<Seq<char>, BpeError>(
            BpeError::WeightCount,
        ),
        weights@.len() == token_grammar@.len() ==> replay(
            *token,
            token_grammar@,
            weights@,
            choices@,
        ) == text_of(r),
{
    if weights.len() != token_grammar.len() {
        return Err(BpeError::WeightCount);
    }
    let mut picks = Picks::Given(choices);
    walk(*token, token_grammar, weights, choices.len(), &mut picks)
}

/// Generate a string of gibberish from a seed and a token grammar.
///
/// The seed is segmented with the grammar. The walk starts on its last
/// token, and the text of the tokens before it stands in front of the result.
/// A seed without characters is `EmptySeed`.
pub fn generate_from_seed(
    seed: String,
    token_grammar: &TokenGrammar,
    max_token_count: u32,
    weights: &Vec<u32>,
) -> (r: Result<String, BpeError>)
    ensures
        seed@.len() == 0 ==> text_of(r) == Err::<Seq<char>, BpeError>(BpeError::EmptySeed),
        seed@.len() > 0 && weights@.len() != token_grammar@.len() ==> text_of(r) == Err::<
            Seq<char>,
            BpeError,
        >(BpeError::WeightCount),
        seed@.len() > 0 && weights@.len() == token_grammar@.len() ==> {
            let tokens = tokenization(seed@, token_grammar@);
            &&& tokens.len() > 0
            &&& expansion_of_all(tokens.drop_last(), token_grammar@) is Ok
            &&& text_of(r) != Err::<Seq<char>, BpeError>(BpeError::InvalidChoice)
            &&& exists|choices: Seq<usize>|
                choices.len() == max_token_count && behind(
                    expansion_of_all(tokens.drop_last(), token_grammar@)->Ok_0,
                    #[trigger] replay(tokens.last(), token_grammar@, weights@, choices),
                ) == text_of(r)
        },
{
    let ghost text = seed@;
    let mut tokens = tokenize(seed, token_grammar);
    proof {
        lemma_tokenization_is_lossless(text, token_grammar@);
        if tokens@.len() == 0 {
            assert(text =~= Seq::<char>::empty());
        }
    }
    let ghost all = tokens@;
    let last: Token = match tokens.pop() {
        Some(t) => t,
        None => {
            return Err(BpeError::EmptySeed);
        },
    };
    assert(tokens@ =~= all.drop_last());
    let mut out = match tokens_to_string(&tokens, token_grammar) {
        Ok(front) => front,
        Err(e) => {
            assert(false);
            return Err(e);
        },
    };
    match generate_gibberish(&last, token_grammar, max_token_count, weights) {
        Ok(tail) => {
            out.append(tail.as_str());
            Ok(out)
        },
        Err(e) => Err(e),
    }
}

/// The token on which a walk from `t` over the tokens `chain` stands at its end.
pub open spec fn chain_end(t: Token, chain: Seq<Token>) -> Token {
    if chain.len() == 0 {
        t
    } else {
        chain.last()
    }
}

/// Whether each token of `chain` is a continuation of the one before it, the
/// first of `t`.
pub open spec fn is_chain(t: Token, chain: Seq<Token>, g: Seq<(Token, Token, u32)>) -> bool {
    forall|k: int|
        0 <= k < chain.len() ==> continuations(chain_end(t, chain.take(k)), g).contains(
            #[trigger] chain[k],
        )
}

/// Whether `text` is what a walk from `t` gives that appends the tokens
/// `chain`, at most `steps` of them, and fewer only where it came to a token
/// without continuations.
pub open spec fn is_walk_of(
    t: Token,
    chain: Seq<Token>,
    g: Seq<(Token, Token, u32)>,
    steps: nat,
    text: Seq<char>,
) -> bool {
    &&& chain.len() <= steps
    &&& is_chain(t, chain, g)
    &&& expansion_of_all(seq![t] + chain, g) == Ok::<Seq<char>, BpeError>(text)
    &&& chain.len() < steps ==> continuations(chain_end(t, chain), g).len() == 0
}

/// A walk appends no more tokens than it has steps: its text is that of the
/// start token followed by that of at most as many continuations as there
/// were choices, each a continuation of the one before; and it is fewer only
/// where the walk came to a token without continuations.
pub proof fn lemma_walk_is_bounded(
    t: Token,
    g: Seq<(Token, Token, u32)>,
    table: Seq<u32>,
    choices: Seq<usize>,
)
    requires
        replay(t, g, table, choices) is Ok,
    ensures
        exists|chain: Seq<Token>| #[trigger]
            is_walk_of(t, chain, g, choices.len(), replay(t, g, table, choices)->Ok_0),
    decreases choices.len(),
{
    let head = expansion(t, g)->Ok_0;
    let candidates = continuations(t, g);
    lemma_expansion_of_one(t, g);
    if choices.len() == 0 || candidates.len() == 0 {
        let chain = Seq::<Token>::empty();
        assert(seq![t] + chain =~= seq![t]);
        assert(replay(t, g, table, choices) == Ok::<Seq<char>, BpeError>(head));
        assert(is_walk_of(t, chain, g, choices.len(), replay(t, g, table, choices)->Ok_0));
    } else {
        let k = choices[0] as int;
        let next = candidates[k];
        let rest = choices.skip(1);
        lemma_walk_is_bounded(next, g, table, rest);
        let tail = replay(next, g, table, rest)->Ok_0;
        let after = choose|chain: Seq<Token>| #[trigger]
            is_walk_of(next, chain, g, rest.len(), tail);
        let chain = seq![next] + after;
        lemma_expansion_of_concat(seq![t], chain, g);
        assert forall|j: int| 0 <= j < chain.len() implies continuations(
            chain_end(t, chain.take(j)),
            g,
        ).contains(#[trigger] chain[j]) by {
            if j == 0 {
                assert(chain.take(0) =~= Seq::<Token>::empty());
            } else {
                assert(chain[j] == after[j - 1]);
                assert(chain.take(j) =~= seq![next] + after.take(j - 1));
                if j - 1 == 0 {
                    assert(after.take(0) =~= Seq::<Token>::empty());
                } else {
                    assert(chain.take(j).last() == after.take(j - 1).last());
                }
                assert(chain_end(t, chain.take(j)) == chain_end(next, after.take(j - 1)));
            }
        }
        assert(chain_end(t, chain) == chain_end(next, after));
        assert(replay(t, g, table, choices) == Ok::<Seq<char>, BpeError>(head + tail));
        assert(is_walk_of(t, chain, g, choices.len(), replay(t, g, table, choices)->Ok_0));
    }
}

/// Under rules that refer backwards, every direct continuation has a rule.
pub proof fn lemma_direct_continuations_have_rules(
    t: Token,
    g: Seq<(Token, Token, u32)>,
    n: int,
)
    requires
        g.len() <= n,
        points_back(g),
    ensures
        forall|k: int|
            0 <= k < direct_continuations(t, g).len() ==> token_below(
                #[trigger] direct_continuations(t, g)[k],
                n,
            ),
    decreases g.len(),
{
    if g.len() > 0 {
        let front = g.drop_last();
        assert forall|i: int| 0 <= i < front.len() implies rule_points_back(
            #[trigger] front[i],
            i,
        ) by {
            assert(front[i] == g[i]);
        }
        lemma_direct_continuations_have_rules(t, front, n);
        assert(rule_points_back(g[g.len() - 1], g.len() - 1));
        let found = direct_continuations(t, g);
        let before = direct_continuations(t, front);
        assert forall|k: int| 0 <= k < found.len() implies token_below(#[trigger] found[k], n) by {
            if k < before.len() {
                assert(found[k] == before[k]);
            } else {
                assert(found[k] == g.last().1);
            }
        }
    }
}

/// Under rules that refer backwards, every continuation has a rule.
pub proof fn lemma_continuations_have_rules(t: Token, g: Seq<(Token, Token, u32)>)
    requires
        points_back(g),
    ensures
        forall|k: int|
            0 <= k < continuations(t, g).len() ==> token_below(
                #[trigger] continuations(t, g)[k],
                g.len() as int,
            ),
    decreases token_rank(t),
{
    lemma_direct_continuations_have_rules(t, g, g.len() as int);
    let found = continuations(t, g);
    if direct_continuations(t, g).len() == 0 {
        if let Token::Pair(i) = t {
            if (i as int) < g.len() && token_below(g[i as int].1, i as int) {
                lemma_continuations_have_rules(g[i as int].1, g);
                assert(found == continuations(g[i as int].1, g));
            }
        }
    } else {
        assert(found == direct_continuations(t, g));
    }
}

/// On a grammar whose rules refer backwards, with a weight for each rule, a
/// walk from a token of the grammar fails only where the weights of the
/// continuations of a token do not add up, or a choice cannot be drawn.
pub proof fn lemma_walk_on_grammar(
    t: Token,
    g: Seq<(Token, Token, u32)>,
    table: Seq<u32>,
    choices: Seq<usize>,
)
    requires
        points_back(g),
        table.len() == g.len(),
        token_below(t, g.len() as int),
    ensures
        replay(t, g, table, choices) matches Err(e) ==> e == BpeError::WeightOverflow || e
            == BpeError::InvalidChoice,
    decreases choices.len(),
{
    lemma_backward_rules_expand(t, g);
    lemma_continuations_have_rules(t, g);
    let candidates = continuations(t, g);
    if choices.len() > 0 && candidates.len() > 0 {
        assert(!dangling(candidates, table.len())) by {
            if dangling(candidates, table.len()) {
                let k = choose|k: int|
                    0 <= k < candidates.len() && (#[trigger] candidates[k]) is Pair
                        && candidates[k]->Pair_0 >= table.len();
                assert(token_below(candidates[k], g.len() as int));
            }
        }
        if step_failure(t, g, table) is None {
            let k = choices[0] as int;
            if k < candidates.len() {
                assert(token_below(candidates[k], g.len() as int));
                lemma_walk_on_grammar(candidates[k], g, table, choices.skip(1));
            }
        }
    }
}

} // verus!
