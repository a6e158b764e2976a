use bpe_thing::counts::PairCounts;
use bpe_thing::{BpeError, Token};

fn c(ch: char) -> Token {
    Token::Char(ch)
}

fn p(id: u32) -> Token {
    Token::Pair(id)
}

#[test]
fn new_counts_are_all_zero() {
    let counts = PairCounts::new();
    assert_eq!(counts.get(c('a'), c('b')), 0);
    assert_eq!(counts.get(p(0), p(0)), 0);
    assert_eq!(counts.best(), None);
}

#[test]
fn pairs_are_counted_apart() {
    let mut counts = PairCounts::new();
    counts.add_one(c('a'), c('b'));
    counts.add_one(c('a'), c('b'));
    counts.add_one(c('b'), c('a'));
    counts.add_one(p(0x61), c('b'));
    assert_eq!(counts.get(c('a'), c('b')), 2);
    assert_eq!(counts.get(c('b'), c('a')), 1);
    assert_eq!(counts.get(p(0x61), c('b')), 1);
    assert_eq!(counts.get(c('a'), p(0x62)), 0);
}

#[test]
fn taking_back_stops_at_zero() {
    let mut counts = PairCounts::new();
    counts.add_one(c('a'), c('b'));
    counts.take_one(c('a'), c('b'));
    assert_eq!(counts.get(c('a'), c('b')), 0);
    counts.take_one(c('a'), c('b'));
    assert_eq!(counts.get(c('a'), c('b')), 0);
    counts.take_one(c('x'), c('y'));
    assert_eq!(counts.get(c('x'), c('y')), 0);
    assert_eq!(counts.best(), None);
}

#[test]
fn a_forgotten_pair_counts_zero() {
    let mut counts = PairCounts::new();
    counts.add_one(c('a'), c('b'));
    counts.add_one(c('a'), c('b'));
    counts.add_one(c('c'), c('d'));
    counts.forget(c('a'), c('b'));
    assert_eq!(counts.get(c('a'), c('b')), 0);
    assert_eq!(counts.best(), Some((c('c'), c('d'), 1)));
    counts.add_one(c('a'), c('b'));
    assert_eq!(counts.get(c('a'), c('b')), 1);
    assert_eq!(counts.best(), Some((c('a'), c('b'), 1)));
}

#[test]
fn the_best_pair_has_the_highest_count() {
    let mut counts = PairCounts::new();
    counts.add_one(c('z'), c('z'));
    counts.add_one(c('a'), c('b'));
    counts.add_one(c('z'), c('z'));
    assert_eq!(counts.best(), Some((c('z'), c('z'), 2)));
}

#[test]
fn equal_counts_go_to_the_pair_that_comes_first() {
    let mut counts = PairCounts::new();
    for (left, right) in [(p(1), c('a')), (c('b'), p(0)), (c('b'), c('z')), (p(0), p(0)), (c('c'), c('a'))] {
        counts.add_one(left, right);
    }
    assert_eq!(counts.best(), Some((c('b'), c('z'), 1)));
    counts.forget(c('b'), c('z'));
    assert_eq!(counts.best(), Some((c('b'), p(0), 1)));
    counts.forget(c('b'), p(0));
    assert_eq!(counts.best(), Some((c('c'), c('a'), 1)));
    counts.forget(c('c'), c('a'));
    assert_eq!(counts.best(), Some((p(0), p(0), 1)));
    counts.forget(p(0), p(0));
    assert_eq!(counts.best(), Some((p(1), c('a'), 1)));
}

#[test]
fn every_failure_has_its_sentence() {
    let all = [
        BpeError::Truncated,
        BpeError::InvalidScalar,
        BpeError::ForwardReference,
        BpeError::OutOfRange,
        BpeError::EmptySeed,
        BpeError::WeightCount,
        BpeError::InvalidChoice,
        BpeError::WeightOverflow,
    ];
    for (i, e) in all.iter().enumerate() {
        assert!(!e.to_text().is_empty());
        for other in &all[..i] {
            assert_ne!(e.to_text(), other.to_text());
        }
    }
    assert_eq!(BpeError::EmptySeed.to_text(), "the seed is empty");
    assert_eq!(
        BpeError::Truncated.to_text(),
        "the grammar data ends in the middle of a record"
    );
}
