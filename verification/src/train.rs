//! Learning merge rules from a text.

use vstd::prelude::*;
use crate::counts::{lemma_rank_is_injective, pair_precedes, PairCounts};
use crate::codec::{points_back, storable, storable_token, well_formed};
use crate::decode::{rule_points_back, token_below};
use crate::token::{token_rank, Token, TokenGrammar};
use crate::tokenize::{leaf_tokens, leaves, lemma_merge_pass_shrinks, merge_pass};

verus! {

/// At how many places of `s` the token `left` is directly followed by `right`.
pub open spec fn pair_count(s: Seq<Token>, left: Token, right: Token) -> nat
    decreases s.len(),
{
    if s.len() < 2 {
        0
    } else {
        pair_count(s.drop_last(), left, right) + if s[s.len() - 2] == left && s[s.len() - 1]
            == right {
            1nat
        } else {
            0nat
        }
    }
}

/// Whether `(left, right)` is the pair that is merged next in `s`: it occurs,
/// no pair occurs more often, and of the pairs that occur as often none comes
/// before it in the order of pairs.
pub open spec fn is_top_pair(s: Seq<Token>, left: Token, right: Token) -> bool {
    &&& pair_count(s, left, right) > 0
    &&& forall|x: Token, y: Token| #[trigger] pair_count(s, x, y) <= pair_count(s, left, right)
    &&& forall|x: Token, y: Token| #[trigger]
        pair_count(s, x, y) == pair_count(s, left, right) ==> !pair_precedes((x, y), (left, right))
}

/// The pair that is merged next in `s`.
pub open spec fn top_pair(s: Seq<Token>) -> (Token, Token) {
    choose|p: (Token, Token)| is_top_pair(s, p.0, p.1)
}

/// The rules after at most `budget` further rounds of training on the
/// working sequence `s`, with `rules` found so far.
///
/// A round takes the top pair of `s`. If it occurs only once, or `s` has no
/// pair at all, training ends. Otherwise the pair becomes the next rule, with
/// the number of its occurrences as frequency, and is merged throughout `s`.
pub open spec fn training(s: Seq<Token>, rules: Seq<(Token, Token, u32)>, budget: nat) -> Seq<
    (Token, Token, u32),
>
    decreases budget,
{
    if budget == 0 || s.len() < 2 {
        rules
    } else {
        let pair = top_pair(s);
        let count = pair_count(s, pair.0, pair.1);
        if count <= 1 {
            rules
        } else {
            training(
                merge_pass(s, pair.0, pair.1, Token::Pair(rules.len() as u32)),
                rules.push((pair.0, pair.1, count as u32)),
                (budget - 1) as nat,
            )
        }
    }
}

/// The grammar learned from `corpus` in at most `max_merges` rounds.
pub open spec fn trained_grammar(corpus: Seq<char>, max_merges: nat) -> Seq<(Token, Token, u32)> {
    training(leaves(corpus), Seq::empty(), max_merges)
}

/// A sequence has fewer pairs than tokens.
pub proof fn lemma_pair_count_bound(s: Seq<Token>, left: Token, right: Token)
    ensures
        s.len() > 0 ==> pair_count(s, left, right) < s.len(),
        s.len() == 0 ==> pair_count(s, left, right) == 0,
    decreases s.len(),
{
    if s.len() >= 2 {
        lemma_pair_count_bound(s.drop_last(), left, right);
    }
}

/// The pairs of two sequences put together are those of each, and the one
/// across the joint.
pub proof fn lemma_pair_count_concat(a: Seq<Token>, b: Seq<Token>, left: Token, right: Token)
    ensures
        pair_count(a + b, left, right) == pair_count(a, left, right) + pair_count(b, left, right)
            + if a.len() > 0 && b.len() > 0 && a.last() == left && b[0] == right {
            1nat
        } else {
            0nat
        },
    decreases b.len(),
{
    if b.len() == 0 {
        assert(a + b =~= a);
    } else if b.len() == 1 {
        assert((a + b).drop_last() =~= a);
        if a.len() > 0 {
            assert((a + b)[(a + b).len() - 2] == a.last());
        }
    } else {
        assert((a + b).drop_last() =~= a + b.drop_last());
        lemma_pair_count_concat(a, b.drop_last(), left, right);
        assert((a + b)[(a + b).len() - 2] == b[b.len() - 2]);
        assert((a + b)[(a + b).len() - 1] == b[b.len() - 1]);
        assert(b.drop_last()[0] == b[0]);
    }
}

/// A sequence has only one top pair.
pub proof fn lemma_top_pair_is_unique(s: Seq<Token>, left: Token, right: Token)
    requires
        is_top_pair(s, left, right),
    ensures
        top_pair(s) == (left, right),
{
    let p = top_pair(s);
    assert(is_top_pair(s, (left, right).0, (left, right).1));
    assert(is_top_pair(s, p.0, p.1));
    assert(pair_count(s, p.0, p.1) <= pair_count(s, left, right));
    assert(pair_count(s, left, right) <= pair_count(s, p.0, p.1));
    if token_rank(p.0) == token_rank(left) {
        lemma_rank_is_injective(p.0, left);
    }
    if token_rank(p.1) == token_rank(right) {
        lemma_rank_is_injective(p.1, right);
    }
}

/// The first two tokens of a sequence are a pair of it.
pub proof fn lemma_first_pair_occurs(s: Seq<Token>)
    requires
        s.len() >= 2,
    ensures
        pair_count(s, s[0], s[1]) > 0,
{
    let head = s.take(2);
    let rest = s.skip(2);
    assert(s =~= head + rest);
    lemma_pair_count_concat(head, rest, s[0], s[1]);
    assert(pair_count(head.drop_last(), s[0], s[1]) == 0);
    assert(pair_count(head, s[0], s[1]) == 1);
}

/// Counts the pairs of `tokens`.
fn count_pairs(tokens: &Vec<Token>) -> (counts: PairCounts)
    ensures
        counts.wf(),
        forall|x: Token, y: Token| #[trigger] counts.count_of(x, y) == pair_count(tokens@, x, y),
{
    let mut counts = PairCounts::new();
    let mut i: usize = 1;
    if tokens.len() < 2 {
        return counts;
    }
    assert(tokens@.take(1).len() < 2);
    while i < tokens.len()
        invariant
            1 <= i <= tokens.len(),
            counts.wf(),
            forall|x: Token, y: Token| #[trigger]
                counts.count_of(x, y) == pair_count(tokens@.take(i as int), x, y),
        decreases tokens.len() - i,
    {
        let left: Token = tokens[i - 1];
        let right: Token = tokens[i];
        proof {
            lemma_pair_count_bound(tokens@.take(i as int), left, right);
            assert(tokens@.take(i + 1).drop_last() =~= tokens@.take(i as int));
        }
        counts.add_one(left, right);
        i += 1;
    }
    assert(tokens@.take(i as int) =~= tokens@);
    counts
}

/// The pairs of a sequence around one place, before and after the pair
/// `(left, right)` at that place is replaced by `merged`.
proof fn lemma_pairs_around_merge(
    front: Seq<Token>,
    rest: Seq<Token>,
    left: Token,
    right: Token,
    merged: Token,
    x: Token,
    y: Token,
)
    ensures
        pair_count(front + (seq![left, right] + rest), x, y) == pair_count(front, x, y)
            + pair_count(rest, x, y) + (if x == left && y == right {
            1nat
        } else {
            0nat
        }) + (if front.len() > 0 && front.last() == x && left == y {
            1nat
        } else {
            0nat
        }) + (if rest.len() > 0 && right == x && rest[0] == y {
            1nat
        } else {
            0nat
        }),
        pair_count(front + (seq![merged] + rest), x, y) == pair_count(front, x, y) + pair_count(
            rest,
            x,
            y,
        ) + (if front.len() > 0 && front.last() == x && merged == y {
            1nat
        } else {
            0nat
        }) + (if rest.len() > 0 && merged == x && rest[0] == y {
            1nat
        } else {
            0nat
        }),
{
    let pair = seq![left, right];
    let one = seq![merged];
    lemma_pair_count_concat(front, pair + rest, x, y);
    lemma_pair_count_concat(pair, rest, x, y);
    lemma_pair_count_concat(front, one + rest, x, y);
    lemma_pair_count_concat(one, rest, x, y);
    assert(pair_count(pair.drop_last(), x, y) == 0);
    assert(pair_count(one, x, y) == 0);
    assert((pair + rest)[0] == left);
    assert((one + rest)[0] == merged);
}

/// Brings `counts` in step with one replacement: between the tokens `front`
/// and the tokens `rest`, the pair `(left, right)` gives way to `merged`. The
/// pairs of `left` and `right` with their neighbours are taken back, those of
/// `merged` with the same neighbours are counted.
fn recount_merge(
    counts: &mut PairCounts,
    prev: Option<Token>,
    next: Option<Token>,
    left: Token,
    right: Token,
    merged: Token,
    Ghost(front): Ghost<Seq<Token>>,
    Ghost(rest): Ghost<Seq<Token>>,
)
    requires
        old(counts).wf(),
        merged != left,
        merged != right,
        front.len() + rest.len() + 2 <= usize::MAX,
        prev is Some <==> front.len() > 0,
        prev matches Some(a) ==> a == front.last() && !(a == left && left == right),
        next is Some <==> rest.len() > 0,
        next matches Some(d) ==> d == rest[0] && d != merged,
        old(counts).count_of(left, right) == 0,
        forall|x: Token, y: Token|
            !(x == left && y == right) ==> #[trigger] old(counts).count_of(x, y) == pair_count(
                front + (seq![left, right] + rest),
                x,
                y,
            ),
    ensures
        final(counts).wf(),
        final(counts).count_of(left, right) == 0,
        forall|x: Token, y: Token|
            !(x == left && y == right) ==> #[trigger] final(counts).count_of(x, y) == pair_count(
                front + (seq![merged] + rest),
                x,
                y,
            ),
{
    let ghost before = front + (seq![left, right] + rest);
    let ghost c0 = *counts;
    if let Some(a) = prev {
        proof {
            lemma_pairs_around_merge(front, rest, left, right, merged, a, left);
            lemma_pair_count_bound(before, a, merged);
        }
        counts.take_one(a, left);
        counts.add_one(a, merged);
    }
    let ghost c2 = *counts;
    assert forall|x: Token, y: Token| #[trigger]
        c2.count_of(x, y) == c0.count_of(x, y) - (if prev == Some(x) && y == left {
            1int
        } else {
            0int
        }) + (if prev == Some(x) && y == merged {
            1int
        } else {
            0int
        }) by {}
    if let Some(d) = next {
        proof {
            lemma_pairs_around_merge(front, rest, left, right, merged, right, d);
            lemma_pair_count_bound(before, merged, d);
        }
        counts.take_one(right, d);
        counts.add_one(merged, d);
    }
    let ghost c4 = *counts;
    assert forall|x: Token, y: Token| !(x == left && y == right) implies #[trigger]
        c4.count_of(x, y) == c2.count_of(x, y) - (if x == right && next == Some(y) {
            1int
        } else {
            0int
        }) + (if x == merged && next == Some(y) {
            1int
        } else {
            0int
        }) by {}
    assert forall|x: Token, y: Token| !(x == left && y == right) implies #[trigger]
        counts.count_of(x, y) == pair_count(front + (seq![merged] + rest), x, y) by {
        lemma_pairs_around_merge(front, rest, left, right, merged, x, y);
    }
}

/// One merge pass over `tokens` that keeps `counts` in step with the sequence.
fn merge_and_recount(
    tokens: &Vec<Token>,
    left: Token,
    right: Token,
    merged: Token,
    counts: &mut PairCounts,
) -> (out: Vec<Token>)
    requires
        old(counts).wf(),
        merged != left,
        merged != right,
        forall|k: int| 0 <= k < tokens@.len() ==> tokens@[k] != merged,
        old(counts).count_of(left, right) == 0,
        forall|x: Token, y: Token|
            !(x == left && y == right) ==> #[trigger] old(counts).count_of(x, y) == pair_count(
                tokens@,
                x,
                y,
            ),
    ensures
        out@ == merge_pass(tokens@, left, right, merged),
        final(counts).wf(),
        forall|x: Token, y: Token| #[trigger]
            final(counts).count_of(x, y) == pair_count(out@, x, y),
{
    let mut out: Vec<Token> = Vec::new();
    let mut i: usize = 0;
    proof {
        assert(tokens@.skip(0) =~= tokens@);
        assert(out@ + tokens@ =~= tokens@);
        assert(out@ + merge_pass(tokens@, left, right, merged) =~= merge_pass(
            tokens@,
            left,
            right,
            merged,
        ));
    }
    while i < tokens.len()
        invariant
            i <= tokens.len(),
            out@.len() <= i,
            counts.wf(),
            merged != left,
            merged != right,
            forall|k: int| 0 <= k < tokens@.len() ==> tokens@[k] != merged,
            out@ + merge_pass(tokens@.skip(i as int), left, right, merged) == merge_pass(
                tokens@,
                left,
                right,
                merged,
            ),
            counts.count_of(left, right) == 0,
            pair_count(out@, left, right) == 0,
            out@.len() > 0 && i < tokens.len() ==> !(out@.last() == left && tokens@[i as int]
                == right),
            forall|x: Token, y: Token|
                !(x == left && y == right) ==> #[trigger] counts.count_of(x, y) == pair_count(
                    out@ + tokens@.skip(i as int),
                    x,
                    y,
                ),
        decreases tokens.len() - i,
    {
        let ghost front = out@;
        let ghost ahead = tokens@.skip(i as int);
        if i + 1 < tokens.len() && tokens[i] == left && tokens[i + 1] == right {
            let ghost rest = tokens@.skip(i + 2);
            let prev: Option<Token> = if out.len() > 0 {
                Some(out[out.len() - 1])
            } else {
                None
            };
            let next: Option<Token> = if i + 2 < tokens.len() {
                Some(tokens[i + 2])
            } else {
                None
            };
            proof {
                assert(front + ahead =~= front + (seq![left, right] + rest));
            }
            recount_merge(counts, prev, next, left, right, merged, Ghost(front), Ghost(rest));
            out.push(merged);
            i += 2;
            proof {
                lemma_merged_step(front, ahead, left, right, merged);
                assert(ahead.skip(2) =~= rest);
            }
        } else {
            out.push(tokens[i]);
            i += 1;
            proof {
                lemma_copied_step(front, ahead, left, right, merged);
                assert(ahead.skip(1) =~= tokens@.skip(i as int));
            }
        }
    }
    proof {
        assert(tokens@.skip(i as int) =~= Seq::<Token>::empty());
        assert(out@ + Seq::<Token>::empty() =~= out@);
    }
    out
}

/// What a merge pass has built once it replaces the pair at the head of `ahead`.
proof fn lemma_merged_step(
    front: Seq<Token>,
    ahead: Seq<Token>,
    left: Token,
    right: Token,
    merged: Token,
)
    requires
        ahead.len() >= 2,
        ahead[0] == left,
        ahead[1] == right,
        merged != left,
        merged != right,
        pair_count(front, left, right) == 0,
    ensures
        front.push(merged) + merge_pass(ahead.skip(2), left, right, merged) == front + merge_pass(
            ahead,
            left,
            right,
            merged,
        ),
        front.push(merged) + ahead.skip(2) == front + (seq![merged] + ahead.skip(2)),
        pair_count(front.push(merged), left, right) == 0,
{
    let tail = merge_pass(ahead.skip(2), left, right, merged);
    assert(front.push(merged) + tail =~= front + (seq![merged] + tail));
    assert(front.push(merged) + ahead.skip(2) =~= front + (seq![merged] + ahead.skip(2)));
    lemma_pair_count_concat(front, seq![merged], left, right);
    assert(pair_count(seq![merged], left, right) == 0);
    assert(front + seq![merged] =~= front.push(merged));
}

/// What a merge pass has built once it copies the token at the head of `ahead`.
proof fn lemma_copied_step(
    front: Seq<Token>,
    ahead: Seq<Token>,
    left: Token,
    right: Token,
    merged: Token,
)
    requires
        ahead.len() >= 1,
        !(ahead.len() >= 2 && ahead[0] == left && ahead[1] == right),
        pair_count(front, left, right) == 0,
        front.len() > 0 ==> !(front.last() == left && ahead[0] == right),
    ensures
        front.push(ahead[0]) + merge_pass(ahead.skip(1), left, right, merged) == front
            + merge_pass(ahead, left, right, merged),
        front.push(ahead[0]) + ahead.skip(1) == front + ahead,
        pair_count(front.push(ahead[0]), left, right) == 0,
{
    let t = ahead[0];
    assert(front.push(t) + ahead.skip(1) =~= front + ahead);
    lemma_pair_count_concat(front, seq![t], left, right);
    assert(pair_count(seq![t], left, right) == 0);
    assert(front + seq![t] =~= front.push(t));
    if ahead.len() >= 2 {
        let tail = merge_pass(ahead.skip(1), left, right, merged);
        assert(front.push(t) + tail =~= front + (seq![t] + tail));
    } else {
        assert(ahead.skip(1) =~= Seq::<Token>::empty());
        assert(front.push(t) + Seq::<Token>::empty() =~= front + ahead);
    }
}

/// A pair that is counted occurs somewhere.
pub proof fn lemma_counted_pair_occurs(s: Seq<Token>, left: Token, right: Token)
    requires
        pair_count(s, left, right) > 0,
    ensures
        exists|k: int| 0 <= k && k + 1 < s.len() && #[trigger] s[k] == left && s[k + 1] == right,
    decreases s.len(),
{
    if s.len() >= 2 {
        if s[s.len() - 2] == left && s[s.len() - 1] == right {
            let k = s.len() - 2;
            assert(s[k] == left && s[k + 1] == right);
        } else {
            lemma_counted_pair_occurs(s.drop_last(), left, right);
            let k = choose|k: int|
                0 <= k && k + 1 < s.drop_last().len() && #[trigger] s.drop_last()[k] == left
                    && s.drop_last()[k + 1] == right;
            assert(s[k] == left && s[k + 1] == right);
        }
    }
}

/// A merge pass with a token below `n` over tokens below `n` gives tokens below `n`.
pub proof fn lemma_merge_pass_stays_below(
    s: Seq<Token>,
    left: Token,
    right: Token,
    merged: Token,
    n: int,
)
    requires
        token_below(merged, n),
        forall|k: int| 0 <= k < s.len() ==> token_below(#[trigger] s[k], n),
    ensures
        forall|k: int|
            0 <= k < merge_pass(s, left, right, merged).len() ==> token_below(
                #[trigger] merge_pass(s, left, right, merged)[k],
                n,
            ),
    decreases s.len(),
{
    let out = merge_pass(s, left, right, merged);
    if s.len() >= 2 {
        let rest = if s[0] == left && s[1] == right {
            s.skip(2)
        } else {
            s.skip(1)
        };
        assert forall|k: int| 0 <= k < rest.len() implies token_below(#[trigger] rest[k], n) by {
            assert(rest[k] == s[k + (s.len() - rest.len())]);
        }
        lemma_merge_pass_stays_below(rest, left, right, merged, n);
        let tail = merge_pass(rest, left, right, merged);
        assert forall|k: int| 0 <= k < out.len() implies token_below(#[trigger] out[k], n) by {
            if k > 0 {
                assert(out[k] == tail[k - 1]);
            } else {
                assert(token_below(s[0], n));
            }
        }
    }
}

/// Parse plaintext into a token grammar of at most `max_token_count` rules.
///
/// Training starts from the characters of `data`. Each round merges the
/// pair of neighbouring tokens that occurs most often; of several such pairs
/// the one that comes first in the order of pairs (by left token, then by
/// right token; characters before merges). Training ends when no pair occurs
/// twice. The frequency of a rule is the number of places at which its pair
/// stood when it was chosen.
pub fn parse_bpe(data: &str, max_token_count: u32) -> (grammar: TokenGrammar)
    requires
        data@.len() <= u32::MAX,
    ensures
        grammar@ == trained_grammar(data@, max_token_count as nat),
        points_back(grammar@),
{
    proof {
        lemma_trained_grammar_is_well_formed(data@, max_token_count as nat);
    }
    let mut tokens = leaf_tokens(data);
    let mut grammar: TokenGrammar = Vec::new();
    let mut counts = count_pairs(&tokens);
    let mut round: u32 = 0;
    while round < max_token_count && tokens.len() >= 2
        invariant
            round <= max_token_count,
            grammar@.len() == round,
            tokens@.len() <= u32::MAX,
            counts.wf(),
            forall|x: Token, y: Token| #[trigger]
                counts.count_of(x, y) == pair_count(tokens@, x, y),
            forall|k: int| 0 <= k < tokens@.len() ==> token_below(#[trigger] tokens@[k], round as int),
            training(tokens@, grammar@, (max_token_count - round) as nat) == trained_grammar(
                data@,
                max_token_count as nat,
            ),
        ensures
            grammar@ == trained_grammar(data@, max_token_count as nat),
        decreases max_token_count - round,
    {
        match counts.best() {
            None => {
                proof {
                    lemma_first_pair_occurs(tokens@);
                    assert(counts.count_of(tokens@[0], tokens@[1]) == 0);
                    assert(false);
                }
                break ;
            },
            Some((left, right, n)) => {
                proof {
                    assert forall|x: Token, y: Token| #[trigger]
                        pair_count(tokens@, x, y) <= pair_count(tokens@, left, right) by {
                        assert(counts.leads(left, right, n as nat, x, y));
                    }
                    assert forall|x: Token, y: Token| #[trigger]
                        pair_count(tokens@, x, y) == pair_count(
                            tokens@,
                            left,
                            right,
                        ) implies !pair_precedes((x, y), (left, right)) by {
                        assert(counts.leads(left, right, n as nat, x, y));
                    }
                    lemma_top_pair_is_unique(tokens@, left, right);
                    lemma_pair_count_bound(tokens@, left, right);
                }
                if n <= 1 {
                    break ;
                }
                let merged = Token::Pair(round);
                proof {
                    lemma_counted_pair_occurs(tokens@, left, right);
                    lemma_merge_pass_shrinks(tokens@, left, right, merged);
                    lemma_merge_pass_stays_below(tokens@, left, right, merged, round + 1);
                }
                counts.forget(left, right);
                grammar.push((left, right, n as u32));
                tokens = merge_and_recount(&tokens, left, right, merged, &mut counts);
                round += 1;
            },
        }
    }
    grammar
}

/// With no rounds allowed, training gives no rules.
pub proof fn lemma_no_rounds_no_rules(corpus: Seq<char>)
    ensures
        trained_grammar(corpus, 0) == Seq::<(Token, Token, u32)>::empty(),
{
}

/// The working sequence after `rounds` rounds of training on `s`, where the
/// first of these rounds makes the rule with id `next_id`.
pub open spec fn working_sequence(s: Seq<Token>, next_id: nat, rounds: nat) -> Seq<Token>
    decreases rounds,
{
    if rounds == 0 {
        s
    } else {
        let pair = top_pair(s);
        working_sequence(
            merge_pass(s, pair.0, pair.1, Token::Pair(next_id as u32)),
            next_id + 1,
            (rounds - 1) as nat,
        )
    }
}

/// How many replacements a merge pass for `(left, right)` makes in `s`: the
/// occurrences of the pair counted from left to right, none overlapping
/// the one counted before.
pub open spec fn merges_made(s: Seq<Token>, left: Token, right: Token) -> nat
    decreases s.len(),
{
    if s.len() < 2 {
        0
    } else if s[0] == left && s[1] == right {
        1 + merges_made(s.skip(2), left, right)
    } else {
        merges_made(s.skip(1), left, right)
    }
}

/// Whether two occurrences of `(left, right)` in `s` share a token. This
/// takes `left == right` and three of them in a row.
pub open spec fn overlaps(s: Seq<Token>, left: Token, right: Token) -> bool {
    exists|i: int|
        0 <= i && i + 2 < s.len() && #[trigger] s[i] == left && s[i + 1] == right && s[i + 1]
            == left && s[i + 2] == right
}

/// Where no two occurrences of a pair overlap, a merge pass replaces every
/// place at which the pair stands.
pub proof fn lemma_count_is_merges(s: Seq<Token>, left: Token, right: Token)
    requires
        !overlaps(s, left, right),
    ensures
        pair_count(s, left, right) == merges_made(s, left, right),
    decreases s.len(),
{
    if s.len() >= 2 {
        let rest = s.skip(1);
        assert(s =~= seq![s[0]] + rest);
        lemma_pair_count_concat(seq![s[0]], rest, left, right);
        assert(pair_count(seq![s[0]], left, right) == 0);
        assert(!overlaps(rest, left, right)) by {
            if overlaps(rest, left, right) {
                let i = choose|i: int|
                    0 <= i && i + 2 < rest.len() && #[trigger] rest[i] == left && rest[i + 1]
                        == right && rest[i + 1] == left && rest[i + 2] == right;
                assert(s[i + 1] == left && s[i + 2] == right && s[i + 2] == left && s[i + 3]
                    == right);
            }
        }
        if s[0] == left && s[1] == right {
            let after = s.skip(2);
            assert(after =~= rest.skip(1));
            if rest.len() >= 2 {
                assert(rest =~= seq![rest[0]] + after);
                lemma_pair_count_concat(seq![rest[0]], after, left, right);
                assert(pair_count(seq![rest[0]], left, right) == 0);
                if rest[0] == left && after[0] == right {
                    assert(s[0] == left && s[1] == right && s[1] == left && s[2] == right);
                    assert(false);
                }
            } else {
                assert(pair_count(rest, left, right) == 0);
                assert(pair_count(after, left, right) == 0);
            }
            assert(!overlaps(after, left, right)) by {
                if overlaps(after, left, right) {
                    let i = choose|i: int|
                        0 <= i && i + 2 < after.len() && #[trigger] after[i] == left && after[i
                            + 1] == right && after[i + 1] == left && after[i + 2] == right;
                    assert(s[i + 2] == left && s[i + 3] == right && s[i + 3] == left && s[i + 4]
                        == right);
                }
            }
            lemma_count_is_merges(after, left, right);
        } else {
            lemma_count_is_merges(rest, left, right);
        }
    }
}

/// Training keeps the rules it was given, in front of those it finds.
pub proof fn lemma_training_keeps_rules(
    s: Seq<Token>,
    rules: Seq<(Token, Token, u32)>,
    budget: nat,
    k: int,
)
    requires
        0 <= k < rules.len(),
    ensures
        rules.len() <= training(s, rules, budget).len(),
        training(s, rules, budget)[k] == rules[k],
    decreases budget,
{
    if budget > 0 && s.len() >= 2 {
        let pair = top_pair(s);
        let count = pair_count(s, pair.0, pair.1);
        if count > 1 {
            lemma_training_keeps_rules(
                merge_pass(s, pair.0, pair.1, Token::Pair(rules.len() as u32)),
                rules.push((pair.0, pair.1, count as u32)),
                (budget - 1) as nat,
                k,
            );
        }
    }
}

/// Every rule that training finds is the top pair of the working sequence
/// of its round, with the number of places at which the pair stands there.
pub proof fn lemma_rule_is_top_pair(
    s: Seq<Token>,
    rules: Seq<(Token, Token, u32)>,
    budget: nat,
    k: int,
)
    requires
        s.len() <= u32::MAX,
        rules.len() <= k < training(s, rules, budget).len(),
    ensures
        ({
            let w = working_sequence(s, rules.len(), (k - rules.len()) as nat);
            let rule = training(s, rules, budget)[k];
            &&& (rule.0, rule.1) == top_pair(w)
            &&& rule.2 == pair_count(w, rule.0, rule.1)
        }),
    decreases budget,
{
    if budget > 0 && s.len() >= 2 {
        let pair = top_pair(s);
        let count = pair_count(s, pair.0, pair.1);
        if count > 1 {
            let merged = Token::Pair(rules.len() as u32);
            let after = merge_pass(s, pair.0, pair.1, merged);
            let longer = rules.push((pair.0, pair.1, count as u32));
            lemma_pair_count_bound(s, pair.0, pair.1);
            lemma_merge_pass_shrinks(s, pair.0, pair.1, merged);
            if k == rules.len() {
                lemma_training_keeps_rules(after, longer, (budget - 1) as nat, k);
            } else {
                lemma_rule_is_top_pair(after, longer, (budget - 1) as nat, k);
            }
        }
    }
}

/// The frequency of a learned rule is the number of occurrences of its pair
/// in the working sequence of the round that chose it, counted without
/// overlap, wherever no two occurrences of the pair overlap there.
pub proof fn lemma_frequency_is_occurrences(corpus: Seq<char>, max_merges: nat, k: int)
    requires
        corpus.len() <= u32::MAX,
        0 <= k < trained_grammar(corpus, max_merges).len(),
        !overlaps(
            working_sequence(leaves(corpus), 0, k as nat),
            trained_grammar(corpus, max_merges)[k].0,
            trained_grammar(corpus, max_merges)[k].1,
        ),
    ensures
        trained_grammar(corpus, max_merges)[k].2 == merges_made(
            working_sequence(leaves(corpus), 0, k as nat),
            trained_grammar(corpus, max_merges)[k].0,
            trained_grammar(corpus, max_merges)[k].1,
        ),
{
    let rule = trained_grammar(corpus, max_merges)[k];
    lemma_rule_is_top_pair(leaves(corpus), Seq::empty(), max_merges, k);
    lemma_count_is_merges(working_sequence(leaves(corpus), 0, k as nat), rule.0, rule.1);
}

/// Every token of a merge pass is the new token or one of the old ones.
pub proof fn lemma_merge_pass_members(s: Seq<Token>, left: Token, right: Token, merged: Token)
    ensures
        forall|k: int|
            0 <= k < merge_pass(s, left, right, merged).len() ==> (#[trigger] merge_pass(
                s,
                left,
                right,
                merged,
            )[k]) == merged || s.contains(merge_pass(s, left, right, merged)[k]),
    decreases s.len(),
{
    let out = merge_pass(s, left, right, merged);
    if s.len() < 2 {
        assert forall|k: int| 0 <= k < out.len() implies out[k] == merged || s.contains(
            #[trigger] out[k],
        ) by {
            assert(s[k] == out[k]);
        }
    } else {
        let rest = if s[0] == left && s[1] == right {
            s.skip(2)
        } else {
            s.skip(1)
        };
        let tail = merge_pass(rest, left, right, merged);
        lemma_merge_pass_members(rest, left, right, merged);
        assert forall|k: int| 0 <= k < out.len() implies out[k] == merged || s.contains(
            #[trigger] out[k],
        ) by {
            if k > 0 {
                assert(out[k] == tail[k - 1]);
                if tail[k - 1] != merged {
                    let j = choose|j: int| 0 <= j < rest.len() && rest[j] == tail[k - 1];
                    assert(s[j + (s.len() - rest.len())] == rest[j]);
                }
            } else if !(s[0] == left && s[1] == right) {
                assert(s[0] == out[0]);
            }
        }
    }
}

/// Whether `tokens` holds no character with the scalar value 0.
pub open spec fn all_storable(tokens: Seq<Token>) -> bool {
    forall|k: int| 0 <= k < tokens.len() ==> storable_token(#[trigger] tokens[k])
}

/// Training makes rules that refer backwards, and rules that can be stored
/// where the tokens it works on can be.
pub proof fn lemma_training_is_well_formed(
    s: Seq<Token>,
    rules: Seq<(Token, Token, u32)>,
    budget: nat,
)
    requires
        rules.len() + budget <= u32::MAX,
        points_back(rules),
        forall|k: int| 0 <= k < s.len() ==> token_below(#[trigger] s[k], rules.len() as int),
    ensures
        points_back(training(s, rules, budget)),
        all_storable(s) && storable(rules) ==> storable(training(s, rules, budget)),
    decreases budget,
{
    if budget > 0 && s.len() >= 2 {
        let pair = top_pair(s);
        let count = pair_count(s, pair.0, pair.1);
        if count > 1 {
            let n = rules.len() as int;
            let merged = Token::Pair(rules.len() as u32);
            let after = merge_pass(s, pair.0, pair.1, merged);
            let rule = (pair.0, pair.1, count as u32);
            let longer = rules.push(rule);
            lemma_counted_pair_occurs(s, pair.0, pair.1);
            let at = choose|k: int|
                0 <= k && k + 1 < s.len() && #[trigger] s[k] == pair.0 && s[k + 1] == pair.1;
            assert(token_below(s[at], n) && token_below(s[at + 1], n));
            assert forall|i: int| 0 <= i < longer.len() implies rule_points_back(
                #[trigger] longer[i],
                i,
            ) by {
                if i < n {
                    assert(longer[i] == rules[i]);
                }
            }
            lemma_merge_pass_stays_below(s, pair.0, pair.1, merged, n + 1);
            lemma_merge_pass_members(s, pair.0, pair.1, merged);
            if all_storable(s) && storable(rules) {
                assert(storable_token(s[at]) && storable_token(s[at + 1]));
                assert forall|i: int| 0 <= i < longer.len() implies storable_token(
                    (#[trigger] longer[i]).0,
                ) && storable_token(longer[i].1) by {
                    if i < n {
                        assert(longer[i] == rules[i]);
                    }
                }
                assert forall|k: int| 0 <= k < after.len() implies storable_token(
                    #[trigger] after[k],
                ) by {
                    if after[k] != merged {
                        let j = choose|j: int| 0 <= j < s.len() && s[j] == after[k];
                        assert(storable_token(s[j]));
                    }
                }
            }
            lemma_training_is_well_formed(after, longer, (budget - 1) as nat);
        }
    }
}

/// A grammar learned from a text is a grammar: its rules refer backwards.
/// Where the text holds no character with the scalar value 0, the grammar
/// can be stored and is read back as it is.
pub proof fn lemma_trained_grammar_is_well_formed(corpus: Seq<char>, max_merges: nat)
    requires
        max_merges <= u32::MAX,
    ensures
        points_back(trained_grammar(corpus, max_merges)),
        (forall|i: int| 0 <= i < corpus.len() ==> corpus[i] as u32 != 0) ==> well_formed(
            trained_grammar(corpus, max_merges),
        ),
{
    let s = leaves(corpus);
    assert forall|k: int| 0 <= k < s.len() implies token_below(#[trigger] s[k], 0) by {}
    if forall|i: int| 0 <= i < corpus.len() ==> corpus[i] as u32 != 0 {
        assert forall|k: int| 0 <= k < s.len() implies storable_token(#[trigger] s[k]) by {
            assert(corpus[k] as u32 != 0);
        }
    }
    lemma_training_is_well_formed(s, Seq::empty(), max_merges);
}

} // verus!
