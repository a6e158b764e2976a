use bpe_thing::{
    find_valid_tokens, generate_along, generate_from_seed, generate_gibberish,
    weighted_continuations, BpeError, Token, TokenGrammar,
};

fn c(ch: char) -> Token {
    Token::Char(ch)
}

fn p(id: u32) -> Token {
    Token::Pair(id)
}

/// 0: x y, 1: x z, 2: a T0, 3: a T1
fn fork() -> TokenGrammar {
    vec![(c('x'), c('y'), 2), (c('x'), c('z'), 2), (c('a'), p(0), 3), (c('a'), p(1), 3)]
}

#[test]
fn continuations_are_the_right_sides_of_matching_rules() {
    let grammar = fork();
    assert_eq!(find_valid_tokens(&c('a'), &grammar), vec![p(0), p(1)]);
    assert_eq!(find_valid_tokens(&c('x'), &grammar), vec![c('y'), c('z')]);
    assert_eq!(find_valid_tokens(&c('y'), &grammar), Vec::<Token>::new());
    assert_eq!(find_valid_tokens(&c('a'), &TokenGrammar::new()), Vec::<Token>::new());
}

#[test]
fn a_character_may_continue_with_itself() {
    let grammar = vec![(c('a'), c('a'), 3)];
    assert_eq!(find_valid_tokens(&c('a'), &grammar), vec![c('a')]);
}

#[test]
fn a_merge_does_not_continue_with_itself() {
    // 0: a b, 1: T0 T0, 2: T0 c
    let grammar = vec![(c('a'), c('b'), 4), (p(0), p(0), 2), (p(0), c('c'), 2)];
    assert_eq!(find_valid_tokens(&p(0), &grammar), vec![c('c')]);
}

#[test]
fn a_merge_without_continuations_hands_down_to_its_right_side() {
    // 0: a b, 1: b c, 2: T0 T0; T0 has only itself behind it, so b decides
    let grammar = vec![(c('a'), c('b'), 4), (c('b'), c('c'), 2), (p(0), p(0), 2)];
    assert_eq!(find_valid_tokens(&p(0), &grammar), vec![c('c')]);
    // T2 = T0 T0 -> T0 -> b
    assert_eq!(find_valid_tokens(&p(2), &grammar), vec![c('c')]);
    // 0: a b: nothing follows T0 nor b
    let grammar = vec![(c('a'), c('b'), 4)];
    assert_eq!(find_valid_tokens(&p(0), &grammar), Vec::<Token>::new());
}

#[test]
fn a_merge_without_a_rule_has_no_continuations() {
    let grammar = vec![(c('a'), c('b'), 4)];
    assert_eq!(find_valid_tokens(&p(9), &grammar), Vec::<Token>::new());
    // the right side of rule 0 refers forwards: the search stops
    let grammar = vec![(c('a'), p(1), 1), (c('b'), c('c'), 1), (c('b'), c('d'), 1)];
    assert_eq!(find_valid_tokens(&p(0), &grammar), Vec::<Token>::new());
}

#[test]
fn characters_weigh_one_and_merges_what_the_table_says() {
    // 0: x y, 1: a T0, 2: a b
    let grammar = vec![(c('x'), c('y'), 2), (c('a'), p(0), 3), (c('a'), c('b'), 3)];
    assert_eq!(
        weighted_continuations(&c('a'), &grammar, &vec![5, 9, 9]),
        Ok((vec![p(0), c('b')], vec![5, 1]))
    );
    assert_eq!(
        weighted_continuations(&c('a'), &grammar, &vec![0, 9, 9]),
        Ok((vec![p(0), c('b')], vec![0, 1]))
    );
    assert_eq!(
        weighted_continuations(&c('y'), &grammar, &vec![5, 9, 9]),
        Ok((vec![], vec![]))
    );
}

#[test]
fn weights_that_are_all_zero_become_all_one() {
    let grammar = fork();
    assert_eq!(
        weighted_continuations(&c('a'), &grammar, &vec![0, 0, 7, 7]),
        Ok((vec![p(0), p(1)], vec![1, 1]))
    );
}

#[test]
fn weights_that_do_not_add_up_are_an_overflow() {
    let grammar = fork();
    assert_eq!(
        weighted_continuations(&c('a'), &grammar, &vec![u32::MAX, 1, 0, 0]),
        Err(BpeError::WeightOverflow)
    );
    assert_eq!(
        weighted_continuations(&c('a'), &grammar, &vec![u32::MAX - 1, 1, 0, 0]),
        Ok((vec![p(0), p(1)], vec![u32::MAX - 1, 1]))
    );
    assert_eq!(
        generate_gibberish(&c('a'), &grammar, 3, &vec![u32::MAX, u32::MAX, 0, 0]),
        Err(BpeError::WeightOverflow)
    );
}

#[test]
fn a_continuation_without_a_rule_is_out_of_range() {
    let grammar = vec![(c('a'), p(9), 1)];
    assert_eq!(
        weighted_continuations(&c('a'), &grammar, &vec![1]),
        Err(BpeError::OutOfRange)
    );
    assert_eq!(generate_gibberish(&c('a'), &grammar, 3, &vec![1]), Err(BpeError::OutOfRange));
    // with no step to take, the continuation is never looked at
    assert_eq!(generate_gibberish(&c('a'), &grammar, 0, &vec![1]), Ok("a".to_string()));
}

#[test]
fn the_table_needs_one_weight_for_each_rule() {
    let grammar = fork();
    assert_eq!(generate_gibberish(&c('a'), &grammar, 3, &vec![1, 1, 1]), Err(BpeError::WeightCount));
    assert_eq!(generate_gibberish(&c('a'), &grammar, 3, &vec![1; 5]), Err(BpeError::WeightCount));
    assert_eq!(generate_along(&c('a'), &grammar, &vec![], &vec![0]), Err(BpeError::WeightCount));
    assert_eq!(
        generate_from_seed("a".to_string(), &grammar, 3, &vec![]),
        Err(BpeError::WeightCount)
    );
}

#[test]
fn given_choices_are_followed() {
    let grammar = fork();
    let weights = vec![1, 1, 1, 1];
    assert_eq!(generate_along(&c('a'), &grammar, &weights, &vec![0]), Ok("axy".to_string()));
    assert_eq!(generate_along(&c('a'), &grammar, &weights, &vec![1]), Ok("axz".to_string()));
    assert_eq!(generate_along(&c('a'), &grammar, &weights, &vec![]), Ok("a".to_string()));
    // after T1 = x z nothing follows, whatever choices are left
    assert_eq!(generate_along(&c('a'), &grammar, &weights, &vec![1, 0, 0]), Ok("axz".to_string()));
    assert_eq!(generate_along(&c('x'), &grammar, &weights, &vec![1]), Ok("xz".to_string()));
}

#[test]
fn a_walk_goes_on_from_the_token_it_drew() {
    // 0: a b, 1: b c, 2: c a
    let grammar = vec![(c('a'), c('b'), 1), (c('b'), c('c'), 1), (c('c'), c('a'), 1)];
    let weights = vec![0, 0, 0];
    assert_eq!(
        generate_along(&c('a'), &grammar, &weights, &vec![0, 0, 0, 0, 0]),
        Ok("abcabc".to_string())
    );
    assert_eq!(generate_gibberish(&c('a'), &grammar, 5, &weights), Ok("abcabc".to_string()));
    assert_eq!(generate_gibberish(&c('b'), &grammar, 2, &weights), Ok("bca".to_string()));
}

#[test]
fn a_choice_that_cannot_be_drawn_is_invalid() {
    let grammar = fork();
    assert_eq!(
        generate_along(&c('a'), &grammar, &vec![1, 1, 1, 1], &vec![2]),
        Err(BpeError::InvalidChoice)
    );
    // T0 has weight zero next to T1
    assert_eq!(
        generate_along(&c('a'), &grammar, &vec![0, 4, 1, 1], &vec![0]),
        Err(BpeError::InvalidChoice)
    );
    assert_eq!(
        generate_along(&c('a'), &grammar, &vec![0, 4, 1, 1], &vec![1]),
        Ok("axz".to_string())
    );
}

#[test]
fn a_weight_of_zero_is_never_drawn() {
    let grammar = fork();
    for _ in 0..200 {
        assert_eq!(
            generate_gibberish(&c('a'), &grammar, 4, &vec![0, 9, 0, 0]),
            Ok("axz".to_string())
        );
        assert_eq!(
            generate_gibberish(&c('a'), &grammar, 4, &vec![3, 0, 0, 0]),
            Ok("axy".to_string())
        );
    }
}

#[test]
fn drawn_walks_are_walks() {
    let grammar = fork();
    let mut seen_y = false;
    let mut seen_z = false;
    for _ in 0..400 {
        let text = generate_gibberish(&c('a'), &grammar, 4, &vec![1, 1, 0, 0]).unwrap();
        assert!(text == "axy" || text == "axz");
        seen_y = seen_y || text == "axy";
        seen_z = seen_z || text == "axz";
    }
    assert!(seen_y && seen_z);
}

#[test]
fn all_zero_weights_fall_back_to_an_even_draw() {
    let grammar = fork();
    for _ in 0..50 {
        let text = generate_gibberish(&c('a'), &grammar, 1, &vec![0, 0, 0, 0]).unwrap();
        assert!(text == "axy" || text == "axz");
    }
}

#[test]
fn a_walk_appends_no_more_tokens_than_steps() {
    let grammar = vec![(c('a'), c('a'), 3)];
    for depth in 0..6u32 {
        let text = generate_gibberish(&c('a'), &grammar, depth, &vec![1]).unwrap();
        assert_eq!(text, "a".repeat(depth as usize + 1));
    }
}

#[test]
fn a_walk_ends_early_where_nothing_follows() {
    let grammar = vec![(c('a'), c('b'), 3)];
    assert_eq!(generate_gibberish(&c('a'), &grammar, 100, &vec![1]), Ok("ab".to_string()));
    assert_eq!(generate_gibberish(&c('b'), &grammar, 100, &vec![1]), Ok("b".to_string()));
    assert_eq!(generate_gibberish(&c('q'), &TokenGrammar::new(), 100, &vec![]), Ok("q".to_string()));
}

#[test]
fn a_start_token_that_does_not_expand_fails() {
    let grammar = vec![(c('a'), c('b'), 3)];
    assert_eq!(generate_gibberish(&p(4), &grammar, 2, &vec![1]), Err(BpeError::OutOfRange));
    assert_eq!(generate_along(&p(4), &grammar, &vec![1], &vec![]), Err(BpeError::OutOfRange));
    let grammar = vec![(p(0), c('b'), 3)];
    assert_eq!(generate_gibberish(&p(0), &grammar, 2, &vec![1]), Err(BpeError::ForwardReference));
}

#[test]
fn a_drawn_token_that_does_not_expand_fails() {
    // 0: a T1, 1: T1 b; T1 is in range but refers to itself
    let grammar = vec![(c('a'), p(1), 1), (p(1), c('b'), 1)];
    assert_eq!(
        generate_gibberish(&c('a'), &grammar, 2, &vec![1, 1]),
        Err(BpeError::ForwardReference)
    );
}

#[test]
fn the_seed_is_kept_in_front() {
    let grammar = fork();
    assert_eq!(
        generate_from_seed("bba".to_string(), &grammar, 4, &vec![0, 9, 0, 0]),
        Ok("bbaxz".to_string())
    );
    assert_eq!(
        generate_from_seed("a".to_string(), &grammar, 4, &vec![3, 0, 0, 0]),
        Ok("axy".to_string())
    );
    assert_eq!(
        generate_from_seed("bba".to_string(), &grammar, 0, &vec![0, 9, 0, 0]),
        Ok("bba".to_string())
    );
}

#[test]
fn the_walk_starts_on_the_last_token_of_the_seed() {
    // 0: a b, 1: T0 c, 2: b d: the seed "zab" ends in T0; T0 is followed by c
    let grammar = vec![(c('a'), c('b'), 2), (p(0), c('c'), 2), (c('b'), c('d'), 2)];
    assert_eq!(
        generate_from_seed("zab".to_string(), &grammar, 1, &vec![1, 1, 1]),
        Ok("zabc".to_string())
    );
}

#[test]
fn an_empty_seed_is_refused() {
    let grammar = fork();
    assert_eq!(
        generate_from_seed(String::new(), &grammar, 4, &vec![1, 1, 1, 1]),
        Err(BpeError::EmptySeed)
    );
    assert_eq!(
        generate_from_seed(String::new(), &grammar, 4, &vec![]),
        Err(BpeError::EmptySeed)
    );
}
