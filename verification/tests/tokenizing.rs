use bpe_thing::tokenize::{leaf_tokens, merge_pairs};
use bpe_thing::{parse_bpe, token_to_chars, tokenize, tokens_to_string, BpeError, Token, TokenGrammar};

fn c(ch: char) -> Token {
    Token::Char(ch)
}

fn p(id: u32) -> Token {
    Token::Pair(id)
}

#[test]
fn abab_becomes_two_merges() {
    let grammar = vec![(c('a'), c('b'), 2)];
    assert_eq!(tokenize("abab".to_string(), &grammar), vec![p(0), p(0)]);
}

#[test]
fn no_rules_give_one_leaf_per_character() {
    let grammar = TokenGrammar::new();
    assert_eq!(
        tokenize("héllo".to_string(), &grammar),
        vec![c('h'), c('é'), c('l'), c('l'), c('o')]
    );
    assert_eq!(leaf_tokens("ab"), vec![c('a'), c('b')]);
}

#[test]
fn empty_text_gives_no_tokens() {
    let grammar = vec![(c('a'), c('b'), 2)];
    assert_eq!(tokenize(String::new(), &grammar), Vec::<Token>::new());
    assert_eq!(tokenize(String::new(), &TokenGrammar::new()), Vec::<Token>::new());
}

#[test]
fn single_character_stays_a_leaf() {
    let grammar = vec![(c('a'), c('a'), 2)];
    assert_eq!(tokenize("a".to_string(), &grammar), vec![c('a')]);
}

#[test]
fn merges_do_not_overlap() {
    let grammar = vec![(c('a'), c('a'), 3)];
    assert_eq!(tokenize("aaa".to_string(), &grammar), vec![p(0), c('a')]);
    assert_eq!(tokenize("aaaa".to_string(), &grammar), vec![p(0), p(0)]);
    assert_eq!(tokenize("aaaaa".to_string(), &grammar), vec![p(0), p(0), c('a')]);
}

#[test]
fn later_rules_match_tokens_of_earlier_rules() {
    let grammar = vec![(c('a'), c('b'), 2), (p(0), c('c'), 2), (p(1), p(1), 1)];
    assert_eq!(tokenize("abcabc".to_string(), &grammar), vec![p(2)]);
    assert_eq!(tokenize("abcab".to_string(), &grammar), vec![p(1), p(0)]);
}

#[test]
fn rules_apply_in_the_order_of_their_ids() {
    // (b, c) comes first, so "abc" never sees the pair (a, b).
    let grammar = vec![(c('b'), c('c'), 1), (c('a'), c('b'), 1)];
    assert_eq!(tokenize("abc".to_string(), &grammar), vec![c('a'), p(0)]);
}

#[test]
fn a_rule_that_refers_forward_never_matches() {
    let grammar = vec![(p(1), c('a'), 1), (c('a'), c('a'), 1)];
    assert_eq!(tokenize("aaa".to_string(), &grammar), vec![p(1), c('a')]);
}

#[test]
fn one_pass_replaces_from_left_to_right() {
    let tokens = vec![c('a'), c('b'), c('a'), c('b'), c('a')];
    assert_eq!(merge_pairs(&tokens, c('a'), c('b'), p(7)), vec![p(7), p(7), c('a')]);
    assert_eq!(merge_pairs(&tokens, c('b'), c('a'), p(7)), vec![c('a'), p(7), p(7)]);
    assert_eq!(merge_pairs(&tokens, c('x'), c('y'), p(7)), tokens);
    assert_eq!(merge_pairs(&Vec::new(), c('x'), c('y'), p(7)), Vec::<Token>::new());
}

#[test]
fn tokens_are_never_more_than_characters() {
    let text = "abracadabra abracadabra";
    let grammar = parse_bpe(text, 100);
    let tokens = tokenize(text.to_string(), &grammar);
    assert!(tokens.len() <= text.chars().count());
    assert!(tokens.len() < text.chars().count());
}

#[test]
fn segmentation_loses_nothing() {
    let grammar = parse_bpe("the cat sat on the mat, the rat sat on the cat", 100);
    for text in ["the cat", "that hat", "", "x", "on the mat the cat sat", "tttt"] {
        let tokens = tokenize(text.to_string(), &grammar);
        assert_eq!(tokens_to_string(&tokens, &grammar), Ok(text.to_string()));
    }
}

#[test]
fn segmentation_loses_nothing_under_broken_rules() {
    let grammar = vec![(p(5), c('a'), 1), (c('a'), c('b'), 1), (p(1), p(9), 1), (p(1), p(1), 1)];
    let tokens = tokenize("ababab".to_string(), &grammar);
    assert_eq!(tokens, vec![p(3), p(1)]);
    assert_eq!(tokens_to_string(&tokens, &grammar), Ok("ababab".to_string()));
}

#[test]
fn a_leaf_decodes_to_its_character() {
    let empty = TokenGrammar::new();
    let grammar = vec![(c('a'), c('b'), 2)];
    for ch in ['a', 'Z', ' ', 'é', '\u{0}', '\u{10FFFF}'] {
        assert_eq!(token_to_chars(&c(ch), &empty), Ok(ch.to_string()));
        assert_eq!(token_to_chars(&c(ch), &grammar), Ok(ch.to_string()));
    }
}

#[test]
fn a_merge_decodes_to_left_then_right() {
    let grammar = vec![(c('a'), c('b'), 2), (p(0), c('c'), 2), (p(1), p(0), 1)];
    assert_eq!(token_to_chars(&p(0), &grammar), Ok("ab".to_string()));
    assert_eq!(token_to_chars(&p(1), &grammar), Ok("abc".to_string()));
    assert_eq!(token_to_chars(&p(2), &grammar), Ok("abcab".to_string()));
}

#[test]
fn a_merge_without_a_rule_is_out_of_range() {
    let grammar = vec![(c('a'), c('b'), 2)];
    assert_eq!(token_to_chars(&p(1), &grammar), Err(BpeError::OutOfRange));
    assert_eq!(token_to_chars(&p(0), &TokenGrammar::new()), Err(BpeError::OutOfRange));
    assert_eq!(token_to_chars(&p(u32::MAX), &grammar), Err(BpeError::OutOfRange));
}

#[test]
fn a_rule_that_refers_to_itself_is_not_expanded() {
    let grammar = vec![(p(0), c('a'), 1)];
    assert_eq!(token_to_chars(&p(0), &grammar), Err(BpeError::ForwardReference));
    let grammar = vec![(c('a'), p(1), 1), (c('b'), c('c'), 1)];
    assert_eq!(token_to_chars(&p(0), &grammar), Err(BpeError::ForwardReference));
    assert_eq!(token_to_chars(&p(1), &grammar), Ok("bc".to_string()));
}

#[test]
fn a_sequence_decodes_by_concatenation() {
    let grammar = vec![(c('a'), c('b'), 2), (p(0), c('c'), 2)];
    assert_eq!(tokens_to_string(&vec![p(1), c(' '), p(0), c('!')], &grammar), Ok("abc ab!".to_string()));
    assert_eq!(tokens_to_string(&Vec::new(), &grammar), Ok(String::new()));
}

#[test]
fn the_first_token_that_fails_decides() {
    let grammar = vec![(c('a'), c('b'), 2), (p(1), c('c'), 2)];
    assert_eq!(
        tokens_to_string(&vec![p(0), p(1), p(7)], &grammar),
        Err(BpeError::ForwardReference)
    );
    assert_eq!(
        tokens_to_string(&vec![p(0), p(7), p(1)], &grammar),
        Err(BpeError::OutOfRange)
    );
}
