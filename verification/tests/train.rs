use bpe_thing::{parse_bpe, tokenize, Token, TokenGrammar};

fn c(ch: char) -> Token {
    Token::Char(ch)
}

fn p(id: u32) -> Token {
    Token::Pair(id)
}

#[test]
fn abab_gives_exactly_one_rule() {
    let grammar = parse_bpe("abab", 5);
    assert_eq!(grammar, vec![(c('a'), c('b'), 2)]);
}

#[test]
fn aaaa_counts_every_adjacent_pair() {
    let grammar = parse_bpe("aaaa", 1);
    assert_eq!(grammar, vec![(c('a'), c('a'), 3)]);
}

#[test]
fn aaaa_stops_when_the_best_pair_occurs_once() {
    let grammar = parse_bpe("aaaa", 5);
    assert_eq!(grammar, vec![(c('a'), c('a'), 3)]);
}

#[test]
fn zero_merges_give_an_empty_grammar() {
    assert_eq!(parse_bpe("abababab", 0), TokenGrammar::new());
    assert_eq!(parse_bpe("", 0), TokenGrammar::new());
}

#[test]
fn short_corpora_give_an_empty_grammar() {
    assert_eq!(parse_bpe("", 3), TokenGrammar::new());
    assert_eq!(parse_bpe("a", 3), TokenGrammar::new());
    assert_eq!(parse_bpe("ab", 3), TokenGrammar::new());
}

#[test]
fn merge_budget_is_respected() {
    let grammar = parse_bpe("xyxyxy", 1);
    assert_eq!(grammar, vec![(c('x'), c('y'), 3)]);
    let grammar = parse_bpe("aaabdaaabac", 2);
    assert_eq!(grammar, vec![(c('a'), c('a'), 4), (c('a'), c('b'), 2)]);
}

#[test]
fn later_rules_build_on_earlier_ones() {
    let grammar = parse_bpe("aaabdaaabac", 10);
    assert_eq!(
        grammar,
        vec![(c('a'), c('a'), 4), (c('a'), c('b'), 2), (p(0), p(1), 2)]
    );
}

#[test]
fn ties_go_to_the_pair_that_comes_first() {
    // (a, b) and (c, d) both occur twice; 'a' comes before 'c'.
    let grammar = parse_bpe("cdcdabab", 3);
    assert_eq!(grammar, vec![(c('a'), c('b'), 2), (c('c'), c('d'), 2)]);
}

#[test]
fn ties_put_characters_before_merges() {
    // After merging (a, n), the pairs (b, T0) and (T0, a) both occur twice.
    let grammar = parse_bpe("banana bandana", 100);
    assert_eq!(
        grammar,
        vec![(c('a'), c('n'), 4), (c('b'), p(0), 2), (p(0), c('a'), 2)]
    );
}

#[test]
fn counts_follow_the_merged_sequence() {
    let grammar = parse_bpe("aaaaaaa", 3);
    assert_eq!(grammar, vec![(c('a'), c('a'), 6), (p(0), p(0), 2)]);
}

#[test]
fn a_sentence_is_learned_rule_by_rule() {
    let grammar = parse_bpe("the cat sat on the mat, the rat sat on the cat", 100);
    assert_eq!(
        grammar,
        vec![
            (c('a'), c('t'), 6),
            (c('e'), c(' '), 4),
            (c('h'), p(1), 4),
            (c('t'), p(2), 4),
            (p(0), c(' '), 4),
            (c(' '), p(3), 3),
            (c('n'), p(5), 2),
            (c('o'), p(6), 2),
            (c('s'), p(4), 2),
            (p(4), p(8), 2),
            (p(9), p(7), 2),
        ]
    );
}

#[test]
fn frequency_is_the_number_of_merges_when_nothing_overlaps() {
    // (x, y) stands at three places of "xyxyxy", and three merges are made.
    let grammar = parse_bpe("xyxyxy", 1);
    assert_eq!(grammar[0].2, 3);
    let merged = tokenize("xyxyxy".to_string(), &grammar);
    assert_eq!(merged, vec![p(0), p(0), p(0)]);
    assert_eq!(6 - merged.len(), 3);
}

#[test]
fn training_is_repeatable() {
    let text = "a rose is a rose is a rose";
    assert_eq!(parse_bpe(text, 50), parse_bpe(text, 50));
}

#[test]
fn trained_rules_segment_the_corpus_into_the_working_sequence() {
    let text = "the cat sat on the mat, the rat sat on the cat";
    let grammar = parse_bpe(text, 100);
    let tokens = tokenize(text.to_string(), &grammar);
    assert_eq!(
        tokens,
        vec![p(3), c('c'), p(10), c('m'), p(0), c(','), p(5), c('r'), p(10), c('c'), p(0)]
    );
}
