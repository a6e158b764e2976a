use bpe_thing::{debug_grammar, BpeError, Token, TokenGrammar};

fn c(ch: char) -> Token {
    Token::Char(ch)
}

fn p(id: u32) -> Token {
    Token::Pair(id)
}

#[test]
fn a_character_is_shown_in_quotes() {
    assert_eq!(c('a').to_text(), "\"a\"");
    assert_eq!(c(' ').to_text(), "\" \"");
    assert_eq!(c('"').to_text(), "\"\"\"");
    assert_eq!(c('é').to_text(), "\"é\"");
}

#[test]
fn a_merge_is_shown_by_its_id() {
    assert_eq!(p(0).to_text(), "T0");
    assert_eq!(p(7).to_text(), "T7");
    assert_eq!(p(10).to_text(), "T10");
    assert_eq!(p(1234567890).to_text(), "T1234567890");
    assert_eq!(p(u32::MAX).to_text(), "T4294967295");
}

#[test]
fn each_rule_gets_a_line() {
    let grammar = vec![(c('a'), c('a'), 4), (c('a'), c('b'), 2), (p(0), p(1), 12)];
    assert_eq!(
        debug_grammar(&grammar),
        Ok(vec![
            "(\"a\" + \"a\") aa -> T0 (4)".to_string(),
            "(\"a\" + \"b\") ab -> T1 (2)".to_string(),
            "(T0 + T1) aaab -> T2 (12)".to_string(),
        ])
    );
    assert_eq!(debug_grammar(&TokenGrammar::new()), Ok(vec![]));
}

#[test]
fn a_rule_that_does_not_expand_has_no_line() {
    let grammar = vec![(c('a'), c('b'), 2), (c('a'), p(5), 1)];
    assert_eq!(debug_grammar(&grammar), Err(BpeError::OutOfRange));
    let grammar = vec![(c('a'), c('b'), 2), (p(1), c('a'), 1), (c('a'), p(5), 1)];
    assert_eq!(debug_grammar(&grammar), Err(BpeError::ForwardReference));
}

#[test]
fn tokens_are_ordered_by_kind_and_value() {
    assert!(c('a').precedes(&c('b')));
    assert!(!c('b').precedes(&c('a')));
    assert!(!c('a').precedes(&c('a')));
    assert!(c('\u{10FFFF}').precedes(&p(0)));
    assert!(!p(0).precedes(&c('a')));
    assert!(p(3).precedes(&p(4)));
    assert!(!p(4).precedes(&p(4)));
    assert!(c('a') < c('b') && c('z') < p(0) && p(0) < p(1));
    assert_eq!(Token::leaf('q'), c('q'));
}
