//! Counting how often one token directly follows another.

use std::collections::HashMap;
use vstd::prelude::*;
use crate::token::{token_rank, Token};

verus! {

broadcast use vstd::std_specs::hash::group_hash_axioms;

/// The number under which the pair `(left, right)` is filed: the rank of the
/// left token in the upper 64 bits, that of the right token in the lower.
pub open spec fn pair_key(left: Token, right: Token) -> u128 {
    (token_rank(left) * 0x1_0000_0000_0000_0000 + token_rank(right)) as u128
}

/// Whether the pair `a` comes before the pair `b`: by the left token first,
/// then by the right one.
pub open spec fn pair_precedes(a: (Token, Token), b: (Token, Token)) -> bool {
    token_rank(a.0) < token_rank(b.0) || (token_rank(a.0) == token_rank(b.0) && token_rank(a.1)
        < token_rank(b.1))
}

/// Tokens of the same rank are the same token.
pub proof fn lemma_rank_is_injective(a: Token, b: Token)
    requires
        token_rank(a) == token_rank(b),
    ensures
        a == b,
{
    match (a, b) {
        (Token::Char(x), Token::Char(y)) => {
            assert(x as int == y as int);
        },
        (Token::Pair(x), Token::Pair(y)) => {},
        _ => {},
    }
}

/// Pairs are ordered as their keys are, and different pairs have different keys.
pub proof fn lemma_pair_key_orders(a: Token, b: Token, c: Token, d: Token)
    ensures
        pair_key(a, b) < pair_key(c, d) <==> pair_precedes((a, b), (c, d)),
        pair_key(a, b) == pair_key(c, d) <==> (a == c && b == d),
{
    if token_rank(a) == token_rank(c) {
        lemma_rank_is_injective(a, c);
    }
    if token_rank(b) == token_rank(d) {
        lemma_rank_is_injective(b, d);
    }
}

fn token_code(t: Token) -> (code: u64)
    ensures
        code == token_rank(t),
{
    match t {
        Token::Char(c) => c as u64,
        Token::Pair(i) => 0x1_0000_0000u64 + i as u64,
    }
}

fn key_of(left: Token, right: Token) -> (key: u128)
    ensures
        key == pair_key(left, right),
{
    token_code(left) as u128 * 0x1_0000_0000_0000_0000u128 + token_code(right) as u128
}

/// Whether `key` is the key of one of the pairs in `seen`.
pub open spec fn key_was_seen(seen: Seq<(Token, Token)>, key: u128) -> bool {
    exists|j: int| 0 <= j < seen.len() && pair_key((#[trigger] seen[j]).0, seen[j].1) == key
}

/// How often each pair of tokens has been counted.
pub struct PairCounts {
    /// The count of each pair that has one, by the pair's key.
    counts: HashMap<u128, usize>,
    /// Every pair that ever got a count, in the order in which they came.
    seen: Vec<(Token, Token)>,
}

impl PairCounts {
    /// Every key with a count belongs to a pair that was seen.
    pub closed spec fn wf(&self) -> bool {
        forall|k: u128| #[trigger]
            self.counts@.contains_key(k) ==> key_was_seen(self.seen@, k)
    }

    /// The count of the pair `(left, right)`; 0 if it has none.
    pub closed spec fn count_of(&self, left: Token, right: Token) -> nat {
        if self.counts@.contains_key(pair_key(left, right)) {
            self.counts@[pair_key(left, right)] as nat
        } else {
            0
        }
    }

    /// Counts in which no pair occurs.
    pub fn new() -> (counts: PairCounts)
        ensures
            counts.wf(),
            forall|x: Token, y: Token| #[trigger] counts.count_of(x, y) == 0,
    {
        PairCounts { counts: HashMap::new(), seen: Vec::new() }
    }

    /// The count of the pair `(left, right)`.
    pub fn get(&self, left: Token, right: Token) -> (n: usize)
        ensures
            n == self.count_of(left, right),
    {
        let key = key_of(left, right);
        match self.counts.get(&key) {
            Some(n) => *n,
            None => 0,
        }
    }

    /// Counts one more occurrence of the pair `(left, right)`.
    pub fn add_one(&mut self, left: Token, right: Token)
        requires
            old(self).wf(),
            old(self).count_of(left, right) < usize::MAX,
        ensures
            final(self).wf(),
            forall|x: Token, y: Token| #[trigger]
                final(self).count_of(x, y) == if x == left && y == right {
                    old(self).count_of(x, y) + 1
                } else {
                    old(self).count_of(x, y)
                },
    {
        let key = key_of(left, right);
        let n = self.get(left, right);
        if !self.counts.contains_key(&key) {
            self.seen.push((left, right));
        }
        self.counts.insert(key, n + 1);
        proof {
            assert forall|x: Token, y: Token| #[trigger]
                self.count_of(x, y) == if x == left && y == right {
                    old(self).count_of(x, y) + 1
                } else {
                    old(self).count_of(x, y)
                } by {
                lemma_pair_key_orders(x, y, left, right);
            }
            assert forall|k: u128| #[trigger] self.counts@.contains_key(k) implies key_was_seen(
                self.seen@,
                k,
            ) by {
                if old(self).counts@.contains_key(k) {
                    let j = choose|j: int|
                        0 <= j < old(self).seen@.len() && pair_key(
                            (#[trigger] old(self).seen@[j]).0,
                            old(self).seen@[j].1,
                        ) == k;
                    assert(self.seen@[j] == old(self).seen@[j]);
                } else {
                    let j = self.seen@.len() - 1;
                    assert(self.seen@[j] == (left, right));
                }
            }
        }
    }

    /// Takes one occurrence of the pair `(left, right)` back, if it has any.
    pub fn take_one(&mut self, left: Token, right: Token)
        requires
            old(self).wf(),
        ensures
            final(self).wf(),
            forall|x: Token, y: Token| #[trigger]
                final(self).count_of(x, y) == if x == left && y == right && old(self).count_of(x, y)
                    > 0 {
                    (old(self).count_of(x, y) - 1) as nat
                } else {
                    old(self).count_of(x, y)
                },
    {
        let key = key_of(left, right);
        let n = self.get(left, right);
        if n > 0 {
            self.counts.insert(key, n - 1);
        }
        proof {
            assert forall|x: Token, y: Token| #[trigger]
                self.count_of(x, y) == if x == left && y == right && old(self).count_of(x, y) > 0 {
                    (old(self).count_of(x, y) - 1) as nat
                } else {
                    old(self).count_of(x, y)
                } by {
                lemma_pair_key_orders(x, y, left, right);
            }
            assert forall|k: u128| #[trigger] self.counts@.contains_key(k) implies key_was_seen(
                self.seen@,
                k,
            ) by {
                assert(old(self).counts@.contains_key(k));
            }
        }
    }

    /// Drops the count of the pair `(left, right)`.
    pub fn forget(&mut self, left: Token, right: Token)
        requires
            old(self).wf(),
        ensures
            final(self).wf(),
            forall|x: Token, y: Token| #[trigger]
                final(self).count_of(x, y) == if x == left && y == right {
                    0
                } else {
                    old(self).count_of(x, y)
                },
    {
        let key = key_of(left, right);
        self.counts.remove(&key);
        proof {
            assert forall|x: Token, y: Token| #[trigger]
                self.count_of(x, y) == if x == left && y == right {
                    0
                } else {
                    old(self).count_of(x, y)
                } by {
                lemma_pair_key_orders(x, y, left, right);
            }
            assert forall|k: u128| #[trigger] self.counts@.contains_key(k) implies key_was_seen(
                self.seen@,
                k,
            ) by {
                assert(old(self).counts@.contains_key(k));
            }
        }
    }

    /// Whether `(left, right)` with the count `n` leads the pair `(x, y)`:
    /// it has the higher count, or the same count and does not come after it.
    pub open spec fn leads(&self, left: Token, right: Token, n: nat, x: Token, y: Token) -> bool {
        self.count_of(x, y) <= n && (self.count_of(x, y) == n ==> !pair_precedes(
            (x, y),
            (left, right),
        ))
    }

    /// The pair with the highest count, and that count. Where several pairs
    /// have it, the one that comes first in the order of pairs. `None` where
    /// no pair has a count above 0.
    pub fn best(&self) -> (top: Option<(Token, Token, usize)>)
        requires
            self.wf(),
        ensures
            match top {
                Some((left, right, n)) => {
                    &&& n > 0
                    &&& n == self.count_of(left, right)
                    &&& forall|x: Token, y: Token| #[trigger]
                        self.leads(left, right, n as nat, x, y)
                },
                None => forall|x: Token, y: Token| #[trigger] self.count_of(x, y) == 0,
            },
    {
        let mut top: Option<(Token, Token, usize)> = None;
        let mut i: usize = 0;
        while i < self.seen.len()
            invariant
                i <= self.seen.len(),
                match top {
                    Some((left, right, n)) => {
                        &&& n > 0
                        &&& n == self.count_of(left, right)
                        &&& forall|j: int|
                            0 <= j < i ==> self.leads(
                                left,
                                right,
                                n as nat,
                                (#[trigger] self.seen@[j]).0,
                                self.seen@[j].1,
                            )
                    },
                    None => forall|j: int|
                        0 <= j < i ==> self.count_of((#[trigger] self.seen@[j]).0, self.seen@[j].1)
                            == 0,
                },
            decreases self.seen.len() - i,
        {
            let x: Token = self.seen[i].0;
            let y: Token = self.seen[i].1;
            let n = self.get(x, y);
            if n > 0 {
                match top {
                    None => {
                        top = Some((x, y, n));
                    },
                    Some((left, right, m)) => {
                        if n > m || (n == m && (x.precedes(&left) || (x == left && y.precedes(
                            &right,
                        )))) {
                            top = Some((x, y, n));
                        } else {
                            proof {
                                if token_rank(x) == token_rank(left) {
                                    lemma_rank_is_injective(x, left);
                                }
                            }
                        }
                    },
                }
            }
            i += 1;
        }
        proof {
            match top {
                Some((left, right, n)) => {
                    assert forall|x: Token, y: Token| #[trigger]
                        self.leads(left, right, n as nat, x, y) by {
                        if self.count_of(x, y) > 0 {
                            let k = pair_key(x, y);
                            assert(self.counts@.contains_key(k));
                            let j = choose|j: int|
                                0 <= j < self.seen@.len() && pair_key(
                                    (#[trigger] self.seen@[j]).0,
                                    self.seen@[j].1,
                                ) == k;
                            lemma_pair_key_orders(self.seen@[j].0, self.seen@[j].1, x, y);
                        }
                    }
                },
                None => {
                    assert forall|x: Token, y: Token| #[trigger] self.count_of(x, y) == 0 by {
                        if self.count_of(x, y) > 0 {
                            let k = pair_key(x, y);
                            assert(self.counts@.contains_key(k));
                            let j = choose|j: int|
                                0 <= j < self.seen@.len() && pair_key(
                                    (#[trigger] self.seen@[j]).0,
                                    self.seen@[j].1,
                                ) == k;
                            lemma_pair_key_orders(self.seen@[j].0, self.seen@[j].1, x, y);
                        }
                    }
                },
            }
        }
        top
    }
}

} // verus!
