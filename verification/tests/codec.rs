use bpe_thing::{load_tokens, parse_bpe, read_tokens, write_tokens, BpeError, Token, TokenGrammar};

fn c(ch: char) -> Token {
    Token::Char(ch)
}

fn p(id: u32) -> Token {
    Token::Pair(id)
}

#[test]
fn a_leaf_rule_is_three_words() {
    let grammar = vec![(c('a'), c('b'), 2)];
    assert_eq!(
        write_tokens(&grammar),
        vec![0x61, 0, 0, 0, 0x62, 0, 0, 0, 2, 0, 0, 0]
    );
}

#[test]
fn a_merge_is_written_behind_a_zero_word() {
    let grammar = vec![(c('a'), c('b'), 2), (p(0), c('c'), 0x0102_0304)];
    assert_eq!(
        write_tokens(&grammar),
        vec![
            0x61, 0, 0, 0, 0x62, 0, 0, 0, 2, 0, 0, 0, // rule 0
            0, 0, 0, 0, 0, 0, 0, 0, 0x63, 0, 0, 0, 4, 3, 2, 1, // rule 1
        ]
    );
}

#[test]
fn words_are_little_endian() {
    let grammar = vec![(c('\u{10FFFF}'), c('é'), u32::MAX)];
    assert_eq!(
        write_tokens(&grammar),
        vec![0xFF, 0xFF, 0x10, 0, 0xE9, 0, 0, 0, 0xFF, 0xFF, 0xFF, 0xFF]
    );
}

#[test]
fn an_empty_grammar_is_no_bytes() {
    assert_eq!(write_tokens(&TokenGrammar::new()), Vec::<u8>::new());
    assert_eq!(load_tokens(&[]), Ok(TokenGrammar::new()));
    assert_eq!(read_tokens(&[]), Ok(TokenGrammar::new()));
}

#[test]
fn words_are_read_as_rules() {
    let words = [0x61, 0x62, 2, 0, 0, 0x63, 7, 0x64, 0, 1, 9];
    assert_eq!(
        read_tokens(&words),
        Ok(vec![(c('a'), c('b'), 2), (p(0), c('c'), 7), (c('d'), p(1), 9)])
    );
}

#[test]
fn bytes_are_read_as_rules() {
    let bytes = [0x61, 0, 0, 0, 0x62, 0, 0, 0, 2, 0, 0, 0];
    assert_eq!(load_tokens(&bytes), Ok(vec![(c('a'), c('b'), 2)]));
    let bytes = [0xFF, 0xFF, 0x10, 0, 0xE9, 0, 0, 0, 0xFF, 0xFF, 0xFF, 0xFF];
    assert_eq!(load_tokens(&bytes), Ok(vec![(c('\u{10FFFF}'), c('é'), u32::MAX)]));
}

#[test]
fn a_stored_grammar_comes_back() {
    let grammars: Vec<TokenGrammar> = vec![
        vec![],
        vec![(c('a'), c('b'), 2)],
        vec![(c('a'), c('b'), 2), (p(0), p(0), 0), (p(1), c('z'), u32::MAX), (c('q'), p(2), 1)],
        parse_bpe("the cat sat on the mat, the rat sat on the cat", 100),
    ];
    for grammar in grammars {
        assert_eq!(load_tokens(&write_tokens(&grammar)), Ok(grammar));
    }
}

#[test]
fn a_record_that_ends_early_is_truncated() {
    assert_eq!(read_tokens(&[0x61]), Err(BpeError::Truncated));
    assert_eq!(read_tokens(&[0x61, 0x62]), Err(BpeError::Truncated));
    assert_eq!(read_tokens(&[0x61, 0x62, 2, 0x63]), Err(BpeError::Truncated));
    assert_eq!(read_tokens(&[0x61, 0x62, 2, 0x63, 0x64]), Err(BpeError::Truncated));
    assert_eq!(read_tokens(&[0]), Err(BpeError::Truncated));
    assert_eq!(read_tokens(&[0x61, 0]), Err(BpeError::Truncated));
    assert_eq!(read_tokens(&[0x61, 0x62, 2, 0, 0]), Err(BpeError::Truncated));
}

#[test]
fn bytes_that_make_no_whole_word_are_truncated() {
    let mut bytes = vec![0x61, 0, 0, 0, 0x62, 0, 0, 0, 2, 0, 0, 0];
    bytes.push(0);
    assert_eq!(load_tokens(&bytes), Err(BpeError::Truncated));
    assert_eq!(load_tokens(&[0x61]), Err(BpeError::Truncated));
    assert_eq!(load_tokens(&[0x61, 0, 0, 0, 0x62, 0, 0, 0]), Err(BpeError::Truncated));
}

#[test]
fn a_word_that_is_no_scalar_value_is_refused() {
    assert_eq!(read_tokens(&[0xD800, 0x62, 2]), Err(BpeError::InvalidScalar));
    assert_eq!(read_tokens(&[0x61, 0xDFFF, 2]), Err(BpeError::InvalidScalar));
    assert_eq!(read_tokens(&[0x110000, 0x62, 2]), Err(BpeError::InvalidScalar));
    assert_eq!(read_tokens(&[0x61, u32::MAX, 2]), Err(BpeError::InvalidScalar));
    assert_eq!(read_tokens(&[0xD7FF, 0xE000, 2]), Ok(vec![(c('\u{D7FF}'), c('\u{E000}'), 2)]));
}

#[test]
fn a_rule_that_does_not_refer_backwards_is_refused() {
    // rule 0 refers to itself
    assert_eq!(read_tokens(&[0, 0, 0x61, 1]), Err(BpeError::ForwardReference));
    // rule 1 refers to rule 1 on the right
    assert_eq!(read_tokens(&[0x61, 0x62, 2, 0x63, 0, 1, 1]), Err(BpeError::ForwardReference));
    // rule 1 refers to rule 5
    assert_eq!(read_tokens(&[0x61, 0x62, 2, 0, 5, 0x63, 1]), Err(BpeError::ForwardReference));
    // rule 1 refers to rule 0
    assert_eq!(
        read_tokens(&[0x61, 0x62, 2, 0, 0, 0x63, 1]),
        Ok(vec![(c('a'), c('b'), 2), (p(0), c('c'), 1)])
    );
}

#[test]
fn the_first_fault_in_the_words_decides() {
    // a forward reference stands before the place where the words end
    assert_eq!(read_tokens(&[0, 3]), Err(BpeError::ForwardReference));
    // a bad scalar stands before a forward reference
    assert_eq!(read_tokens(&[0xD800, 0, 3, 1]), Err(BpeError::InvalidScalar));
}

#[test]
fn the_zero_character_cannot_be_stored() {
    // Its word is the mark of a merge, so it is read back as one.
    let grammar = vec![(c('\u{0}'), c('a'), 1)];
    assert_eq!(write_tokens(&grammar), vec![0, 0, 0, 0, 0x61, 0, 0, 0, 1, 0, 0, 0]);
    assert_eq!(load_tokens(&write_tokens(&grammar)), Err(BpeError::ForwardReference));
}
