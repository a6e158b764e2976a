//! The stored form of a grammar: records of little-endian 32-bit words.
//!
//! A character is stored as its scalar value in one word. A merge is stored
//! as a zero word followed by its id. A rule is its left token, its right
//! token and its frequency; a grammar is its rules one after the other, with
//! nothing before, between or behind them.

use vstd::prelude::*;
use crate::decode::{rule_points_back, token_below};
use crate::error::BpeError;
use crate::text::is_scalar_value;
use crate::token::{Token, TokenGrammar};

verus! {

/// The words that store the token `t`.
pub open spec fn token_words(t: Token) -> Seq<u32> {
    match t {
        Token::Char(c) => seq![c as u32],
        Token::Pair(i) => seq![0u32, i],
    }
}

/// The words that store `rule`.
pub open spec fn rule_words(rule: (Token, Token, u32)) -> Seq<u32> {
    token_words(rule.0) + token_words(rule.1) + seq![rule.2]
}

/// The words that store the rules `g`.
pub open spec fn grammar_words(g: Seq<(Token, Token, u32)>) -> Seq<u32>
    decreases g.len(),
{
    if g.len() == 0 {
        Seq::empty()
    } else {
        rule_words(g[0]) + grammar_words(g.skip(1))
    }
}

/// The four bytes of `w`, lowest first.
pub open spec fn word_bytes(w: u32) -> Seq<u8> {
    seq![
        (w % 256) as u8,
        (w / 256 % 256) as u8,
        (w / 65536 % 256) as u8,
        (w / 16777216) as u8,
    ]
}

/// The word with the bytes `b0` to `b3`, lowest first.
pub open spec fn word_of(b0: u8, b1: u8, b2: u8, b3: u8) -> u32 {
    (b0 as int + b1 as int * 256 + b2 as int * 65536 + b3 as int * 16777216) as u32
}

/// The bytes of the words `ws`, word after word.
pub open spec fn words_bytes(ws: Seq<u32>) -> Seq<u8>
    decreases ws.len(),
{
    if ws.len() == 0 {
        Seq::empty()
    } else {
        word_bytes(ws[0]) + words_bytes(ws.skip(1))
    }
}

/// The words that `bs` holds, four bytes each; bytes behind the last whole
/// word are left out.
pub open spec fn bytes_words(bs: Seq<u8>) -> Seq<u32> {
    Seq::new(
        (bs.len() / 4) as nat,
        |i: int| word_of(bs[4 * i], bs[4 * i + 1], bs[4 * i + 2], bs[4 * i + 3]),
    )
}

/// The bytes that store the rules `g`.
pub open spec fn grammar_bytes(g: Seq<(Token, Token, u32)>) -> Seq<u8> {
    words_bytes(grammar_words(g))
}

/// The token at the head of `ws`, read for the rule with id `id`, and the
/// number of words it takes.
///
/// No word, or a zero word with nothing behind it, is `Truncated`. A merge
/// whose id is not below `id` is `ForwardReference`. A word other than zero
/// that is no Unicode scalar value is `InvalidScalar`.
pub open spec fn parsed_token(ws: Seq<u32>, id: int) -> Result<(Token, nat), BpeError> {
    if ws.len() == 0 {
        Err(BpeError::Truncated)
    } else if ws[0] == 0 {
        if ws.len() < 2 {
            Err(BpeError::Truncated)
        } else if ws[1] as int >= id {
            Err(BpeError::ForwardReference)
        } else {
            Ok((Token::Pair(ws[1]), 2nat))
        }
    } else if !is_scalar_value(ws[0]) {
        Err(BpeError::InvalidScalar)
    } else {
        Ok((Token::Char(ws[0] as char), 1nat))
    }
}

/// The rules read from `ws`, behind the rules `rules` that were read before.
///
/// Words that end where a rule ends give the rules. Words that end inside a
/// rule are `Truncated`. The first failure in the order of the words decides.
pub open spec fn parsed_rules(ws: Seq<u32>, rules: Seq<(Token, Token, u32)>) -> Result<
    Seq<(Token, Token, u32)>,
    BpeError,
>
    decreases ws.len(),
{
    if ws.len() == 0 {
        Ok(rules)
    } else {
        match parsed_token(ws, rules.len() as int) {
            Err(e) => Err(e),
            Ok((left, n)) => match parsed_token(ws.skip(n as int), rules.len() as int) {
                Err(e) => Err(e),
                Ok((right, m)) => {
                    let behind = ws.skip(n as int).skip(m as int);
                    if behind.len() == 0 {
                        Err(BpeError::Truncated)
                    } else {
                        parsed_rules(behind.skip(1), rules.push((left, right, behind[0])))
                    }
                },
            },
        }
    }
}

/// The grammar that the words `ws` store.
pub open spec fn parsed_grammar(ws: Seq<u32>) -> Result<Seq<(Token, Token, u32)>, BpeError> {
    parsed_rules(ws, Seq::empty())
}

/// The grammar that the bytes `bs` store. Bytes that do not make whole words
/// are `Truncated`.
pub open spec fn loaded_grammar(bs: Seq<u8>) -> Result<Seq<(Token, Token, u32)>, BpeError> {
    if bs.len() % 4 != 0 {
        Err(BpeError::Truncated)
    } else {
        parsed_grammar(bytes_words(bs))
    }
}

/// Reads the token at `words[at..]` for the rule with id `id`.
fn read_token(words: &[u32], at: usize, id: usize) -> (r: Result<(Token, usize), BpeError>)
    requires
        at <= words@.len(),
    ensures
        match r {
            Ok((t, n)) => parsed_token(words@.skip(at as int), id as int) == Ok::<
                (Token, nat),
                BpeError,
            >((t, n as nat)) && at + n <= words@.len(),
            Err(e) => parsed_token(words@.skip(at as int), id as int) == Err::<
                (Token, nat),
                BpeError,
            >(e),
        },
{
    if at >= words.len() {
        return Err(BpeError::Truncated);
    }
    let first = words[at];
    if first == 0 {
        if at + 1 >= words.len() {
            return Err(BpeError::Truncated);
        }
        let merge = words[at + 1];
        if merge as usize >= id {
            return Err(BpeError::ForwardReference);
        }
        Ok((Token::Pair(merge), 2))
    } else {
        match char::from_u32(first) {
            None => Err(BpeError::InvalidScalar),
            Some(c) => Ok((Token::leaf(c), 1)),
        }
    }
}

/// Read a token grammar from a slice of 32-bit words.
///
/// The grammar is given only if every merge in it refers to an earlier rule.
pub fn read_tokens(words: &[u32]) -> (r: Result<TokenGrammar, BpeError>)
    ensures
        match r {
            Ok(g) => parsed_grammar(words@) == Ok::<Seq<(Token, Token, u32)>, BpeError>(g@),
            Err(e) => parsed_grammar(words@) == Err::<Seq<(Token, Token, u32)>, BpeError>(e),
        },
        r matches Ok(g) ==> well_formed(g@) && grammar_words(g@) == words@,
{
    let mut grammar: TokenGrammar = Vec::new();
    let mut at: usize = 0;
    assert(words@.skip(0) =~= words@);
    while at < words.len()
        invariant
            at <= words@.len(),
            parsed_rules(words@.skip(at as int), grammar@) == parsed_grammar(words@),
        decreases words@.len() - at,
    {
        let ghost ws = words@.skip(at as int);
        let id = grammar.len();
        let (left, n) = match read_token(words, at, id) {
            Ok(found) => found,
            Err(e) => {
                return Err(e);
            },
        };
        assert(ws.skip(n as int) =~= words@.skip(at + n));
        let (right, m) = match read_token(words, at + n, id) {
            Ok(found) => found,
            Err(e) => {
                return Err(e);
            },
        };
        assert(ws.skip(n as int).skip(m as int) =~= words@.skip(at + n + m));
        if at + n + m >= words.len() {
            return Err(BpeError::Truncated);
        }
        let frequency = words[at + n + m];
        assert(words@.skip(at + n + m).skip(1) =~= words@.skip(at + n + m + 1));
        grammar.push((left, right, frequency));
        at = at + n + m + 1;
    }
    proof {
        lemma_read_grammar_was_stored(words@, grammar@);
    }
    Ok(grammar)
}

/// The word made of four bytes, lowest first.
fn word_from_bytes(b0: u8, b1: u8, b2: u8, b3: u8) -> (w: u32)
    ensures
        w == word_of(b0, b1, b2, b3),
{
    b0 as u32 + b1 as u32 * 256 + b2 as u32 * 65536 + b3 as u32 * 16777216
}

/// Appends the four bytes of `w` to `out`, lowest first.
fn push_word(out: &mut Vec<u8>, w: u32)
    ensures
        final(out)@ == old(out)@ + word_bytes(w),
{
    out.push((w % 256) as u8);
    out.push((w / 256 % 256) as u8);
    out.push((w / 65536 % 256) as u8);
    out.push((w / 16777216) as u8);
    assert(out@ =~= old(out)@ + word_bytes(w));
}

/// Appends the bytes that store `token` to `out`.
fn push_token(out: &mut Vec<u8>, token: Token)
    ensures
        final(out)@ == old(out)@ + words_bytes(token_words(token)),
{
    match token {
        Token::Char(c) => {
            push_word(out, c as u32);
            proof {
                lemma_bytes_of_one_word(c as u32);
            }
        },
        Token::Pair(i) => {
            push_word(out, 0);
            push_word(out, i);
            proof {
                lemma_bytes_of_one_word(0);
                lemma_bytes_of_one_word(i);
                lemma_bytes_of_concat(seq![0u32], seq![i]);
                assert(seq![0u32] + seq![i] =~= seq![0u32, i]);
                assert(old(out)@ + word_bytes(0) + word_bytes(i) =~= old(out)@ + (word_bytes(0)
                    + word_bytes(i)));
            }
        },
    }
}

/// The bytes of a single word.
pub proof fn lemma_bytes_of_one_word(w: u32)
    ensures
        words_bytes(seq![w]) == word_bytes(w),
{
    let one = seq![w];
    assert(one.skip(1) =~= Seq::<u32>::empty());
    assert(words_bytes(one.skip(1)) =~= Seq::<u8>::empty());
    assert(word_bytes(w) + Seq::<u8>::empty() =~= word_bytes(w));
}

/// The bytes of words put together are the bytes of each put together.
pub proof fn lemma_bytes_of_concat(a: Seq<u32>, b: Seq<u32>)
    ensures
        words_bytes(a + b) == words_bytes(a) + words_bytes(b),
    decreases a.len(),
{
    if a.len() == 0 {
        assert(a + b =~= b);
        assert(Seq::<u8>::empty() + words_bytes(b) =~= words_bytes(b));
    } else {
        assert((a + b).skip(1) =~= a.skip(1) + b);
        lemma_bytes_of_concat(a.skip(1), b);
        assert(word_bytes(a[0]) + (words_bytes(a.skip(1)) + words_bytes(b)) =~= (word_bytes(a[0])
            + words_bytes(a.skip(1))) + words_bytes(b));
    }
}

/// Encode a token grammar as bytes.
///
/// Characters are written as they are, merges behind a zero word.
pub fn write_tokens(token_grammar: &TokenGrammar) -> (bytes: Vec<u8>)
    ensures
        bytes@ == grammar_bytes(token_grammar@),
{
    let mut out: Vec<u8> = Vec::new();
    let mut i: usize = 0;
    proof {
        assert(token_grammar@.skip(0) =~= token_grammar@);
        assert(out@ + grammar_bytes(token_grammar@) =~= grammar_bytes(token_grammar@));
    }
    while i < token_grammar.len()
        invariant
            i <= token_grammar.len(),
            out@ + grammar_bytes(token_grammar@.skip(i as int)) == grammar_bytes(token_grammar@),
        decreases token_grammar.len() - i,
    {
        let ghost before = out@;
        let ghost ahead = token_grammar@.skip(i as int);
        let left: Token = token_grammar[i].0;
        let right: Token = token_grammar[i].1;
        let frequency: u32 = token_grammar[i].2;
        push_token(&mut out, left);
        push_token(&mut out, right);
        push_word(&mut out, frequency);
        proof {
            let l = token_words(left);
            let r = token_words(right);
            let f = seq![frequency];
            assert(ahead[0] == token_grammar@[i as int]);
            assert(ahead.skip(1) =~= token_grammar@.skip(i + 1));
            lemma_bytes_of_one_word(frequency);
            lemma_bytes_of_concat(l, r);
            lemma_bytes_of_concat(l + r, f);
            lemma_bytes_of_concat(rule_words(ahead[0]), grammar_words(ahead.skip(1)));
            assert(before + words_bytes(l) + words_bytes(r) + words_bytes(f) + grammar_bytes(
                ahead.skip(1),
            ) =~= before + ((words_bytes(l) + words_bytes(r) + words_bytes(f)) + grammar_bytes(
                ahead.skip(1),
            )));
        }
        i += 1;
    }
    proof {
        assert(token_grammar@.skip(i as int) =~= Seq::<(Token, Token, u32)>::empty());
        assert(out@ + Seq::<u8>::empty() =~= out@);
    }
    out
}

/// Load a token grammar from the bytes of a grammar file.
pub fn load_tokens(bytes: &[u8]) -> (r: Result<TokenGrammar, BpeError>)
    ensures
        match r {
            Ok(g) => loaded_grammar(bytes@) == Ok::<Seq<(Token, Token, u32)>, BpeError>(g@),
            Err(e) => loaded_grammar(bytes@) == Err::<Seq<(Token, Token, u32)>, BpeError>(e),
        },
        r matches Ok(g) ==> well_formed(g@) && grammar_bytes(g@) == bytes@,
{
    if bytes.len() % 4 != 0 {
        return Err(BpeError::Truncated);
    }
    let mut words: Vec<u32> = Vec::new();
    let mut i: usize = 0;
    while i < bytes.len()
        invariant
            i <= bytes.len(),
            i % 4 == 0,
            bytes.len() % 4 == 0,
            words@.len() == i / 4,
            forall|k: int|
                0 <= k < words@.len() ==> #[trigger] words@[k] == word_of(
                    bytes@[4 * k],
                    bytes@[4 * k + 1],
                    bytes@[4 * k + 2],
                    bytes@[4 * k + 3],
                ),
        decreases bytes.len() - i,
    {
        words.push(word_from_bytes(bytes[i], bytes[i + 1], bytes[i + 2], bytes[i + 3]));
        i += 4;
    }
    assert(words@ =~= bytes_words(bytes@));
    let r = read_tokens(words.as_slice());
    proof {
        if r is Ok {
            lemma_loaded_grammar_was_stored(bytes@, r->Ok_0@);
        }
    }
    r
}

/// Whether the token `t` can be stored: the zero word marks a merge, so the
/// character with the scalar value 0 cannot.
pub open spec fn storable_token(t: Token) -> bool {
    match t {
        Token::Char(c) => c as u32 != 0,
        Token::Pair(_) => true,
    }
}

/// Whether every rule of `g` refers only to rules before it.
pub open spec fn points_back(g: Seq<(Token, Token, u32)>) -> bool {
    forall|i: int| 0 <= i < g.len() ==> rule_points_back(#[trigger] g[i], i)
}

/// Whether every token in the rules of `g` can be stored.
pub open spec fn storable(g: Seq<(Token, Token, u32)>) -> bool {
    forall|i: int|
        0 <= i < g.len() ==> storable_token((#[trigger] g[i]).0) && storable_token(g[i].1)
}

/// Whether `g` is a grammar: its rules refer backwards and can be stored.
pub open spec fn well_formed(g: Seq<(Token, Token, u32)>) -> bool {
    points_back(g) && storable(g)
}

/// Four bytes for each word.
pub proof fn lemma_words_bytes_len(ws: Seq<u32>)
    ensures
        words_bytes(ws).len() == 4 * ws.len(),
    decreases ws.len(),
{
    if ws.len() > 0 {
        lemma_words_bytes_len(ws.skip(1));
    }
}

/// The bytes of the word at `i` stand at `4 * i`.
pub proof fn lemma_words_bytes_at(ws: Seq<u32>, i: int)
    requires
        0 <= i < ws.len(),
    ensures
        words_bytes(ws).len() == 4 * ws.len(),
        words_bytes(ws)[4 * i] == word_bytes(ws[i])[0],
        words_bytes(ws)[4 * i + 1] == word_bytes(ws[i])[1],
        words_bytes(ws)[4 * i + 2] == word_bytes(ws[i])[2],
        words_bytes(ws)[4 * i + 3] == word_bytes(ws[i])[3],
    decreases ws.len(),
{
    lemma_words_bytes_len(ws);
    lemma_words_bytes_len(ws.skip(1));
    if i > 0 {
        lemma_words_bytes_at(ws.skip(1), i - 1);
        assert(ws.skip(1)[i - 1] == ws[i]);
    }
}

/// A word comes back from its four bytes.
pub proof fn lemma_word_survives_bytes(w: u32)
    ensures
        word_of(word_bytes(w)[0], word_bytes(w)[1], word_bytes(w)[2], word_bytes(w)[3]) == w,
        word_bytes(w).len() == 4,
{
    let b0 = w as int % 256;
    let b1 = w as int / 256 % 256;
    let b2 = w as int / 65536 % 256;
    let b3 = w as int / 16777216;
    assert(b0 + b1 * 256 + b2 * 65536 + b3 * 16777216 == w as int);
}

/// Words come back from their bytes.
pub proof fn lemma_words_survive_bytes(ws: Seq<u32>)
    ensures
        bytes_words(words_bytes(ws)) == ws,
        words_bytes(ws).len() % 4 == 0,
{
    lemma_words_bytes_len(ws);
    let back = bytes_words(words_bytes(ws));
    assert(back.len() == ws.len());
    assert forall|i: int| 0 <= i < ws.len() implies back[i] == ws[i] by {
        lemma_words_bytes_at(ws, i);
        lemma_word_survives_bytes(ws[i]);
    }
    assert(back =~= ws);
}

/// A stored token is read back, whatever words follow it.
pub proof fn lemma_token_is_read_back(t: Token, behind: Seq<u32>, id: int)
    requires
        storable_token(t),
        token_below(t, id),
    ensures
        parsed_token(token_words(t) + behind, id) == Ok::<(Token, nat), BpeError>(
            (t, token_words(t).len()),
        ),
{
    let ws = token_words(t) + behind;
    match t {
        Token::Char(c) => {
            assert(ws[0] == c as u32);
            assert(is_scalar_value(c as u32));
            assert((c as u32) as char == c);
        },
        Token::Pair(i) => {
            assert(ws[0] == 0);
            assert(ws[1] == i);
        },
    }
}

/// The words of rules that refer backwards and can be stored are read back
/// behind any rules read before.
pub proof fn lemma_rules_are_read_back(
    before: Seq<(Token, Token, u32)>,
    rules: Seq<(Token, Token, u32)>,
)
    requires
        forall|j: int|
            0 <= j < rules.len() ==> rule_points_back(#[trigger] rules[j], before.len() + j),
        storable(rules),
    ensures
        parsed_rules(grammar_words(rules), before) == Ok::<Seq<(Token, Token, u32)>, BpeError>(
            before + rules,
        ),
    decreases rules.len(),
{
    if rules.len() == 0 {
        assert(before + rules =~= before);
    } else {
        let rule = rules[0];
        let rest = rules.skip(1);
        let tail = grammar_words(rest);
        let l = token_words(rule.0);
        let r = token_words(rule.1);
        let f = seq![rule.2];
        let ws = grammar_words(rules);
        let id = before.len() as int;
        assert(rule_points_back(rule, id + 0));
        assert(ws =~= l + (r + f + tail));
        lemma_token_is_read_back(rule.0, r + f + tail, id);
        assert(ws.skip(l.len() as int) =~= r + (f + tail));
        lemma_token_is_read_back(rule.1, f + tail, id);
        let behind = ws.skip(l.len() as int).skip(r.len() as int);
        assert(behind =~= f + tail);
        assert(behind[0] == rule.2);
        assert(behind.skip(1) =~= tail);
        assert forall|j: int| 0 <= j < rest.len() implies rule_points_back(
            #[trigger] rest[j],
            before.push(rule).len() + j,
        ) by {
            assert(rest[j] == rules[j + 1]);
        }
        assert forall|j: int| 0 <= j < rest.len() implies storable_token((#[trigger] rest[j]).0)
            && storable_token(rest[j].1) by {
            assert(rest[j] == rules[j + 1]);
        }
        lemma_rules_are_read_back(before.push(rule), rest);
        assert(before.push(rule) + rest =~= before + rules);
        assert((rule.0, rule.1, rule.2) == rule);
    }
}

/// A grammar comes back from its stored form: what `write_tokens` gives,
/// `load_tokens` reads as the same rules, and so does `read_tokens` with the
/// words of the grammar.
pub proof fn lemma_stored_grammar_is_read_back(g: Seq<(Token, Token, u32)>)
    requires
        well_formed(g),
    ensures
        parsed_grammar(grammar_words(g)) == Ok::<Seq<(Token, Token, u32)>, BpeError>(g),
        loaded_grammar(grammar_bytes(g)) == Ok::<Seq<(Token, Token, u32)>, BpeError>(g),
{
    lemma_rules_are_read_back(Seq::empty(), g);
    assert(Seq::<(Token, Token, u32)>::empty() + g =~= g);
    lemma_words_survive_bytes(grammar_words(g));
}

/// A token that was read stands at the head of the words as it is stored,
/// can be stored, and refers backwards.
pub proof fn lemma_read_token_was_stored(ws: Seq<u32>, id: int)
    requires
        parsed_token(ws, id) is Ok,
    ensures
        ({
            let (t, n) = parsed_token(ws, id)->Ok_0;
            &&& n <= ws.len()
            &&& ws.take(n as int) == token_words(t)
            &&& storable_token(t)
            &&& token_below(t, id)
        }),
{
    let (t, n) = parsed_token(ws, id)->Ok_0;
    if ws[0] == 0 {
        assert(ws.take(2) =~= seq![0u32, ws[1]]);
    } else {
        assert((ws[0] as char) as u32 == ws[0]);
        assert(ws.take(1) =~= seq![ws[0]]);
    }
}

/// Words split into a first part, a second part, one word and the rest.
proof fn lemma_words_split(ws: Seq<u32>, n: int, m: int)
    requires
        0 <= n,
        0 <= m,
        n + m < ws.len(),
    ensures
        ws == ws.take(n) + ws.skip(n).take(m) + seq![ws.skip(n).skip(m)[0]] + ws.skip(n).skip(
            m,
        ).skip(1),
{
    assert(ws =~= ws.take(n) + ws.skip(n).take(m) + seq![ws.skip(n).skip(m)[0]] + ws.skip(n).skip(
        m,
    ).skip(1));
}

/// Rules that extend `longer`, itself `before` and one rule, extend `before`.
proof fn lemma_rules_extend(
    before: Seq<(Token, Token, u32)>,
    rule: (Token, Token, u32),
    g: Seq<(Token, Token, u32)>,
)
    requires
        before.len() < g.len(),
        g.take(before.len() as int + 1) == before.push(rule),
    ensures
        g.take(before.len() as int) == before,
        g[before.len() as int] == rule,
        g.skip(before.len() as int)[0] == rule,
        g.skip(before.len() as int).skip(1) == g.skip(before.len() as int + 1),
{
    let id = before.len() as int;
    let longer = before.push(rule);
    assert(g.take(id + 1)[id] == g[id]);
    assert(longer[id] == rule);
    assert forall|j: int| 0 <= j < id implies g[j] == before[j] by {
        assert(g.take(id + 1)[j] == g[j]);
        assert(longer[j] == before[j]);
    }
    assert(g.take(id) =~= before);
    assert(g.skip(id).skip(1) =~= g.skip(id + 1));
}

/// Rules that were read are what the words store: the words are those of
/// the rules read from them, and each of these rules refers backwards and
/// can be stored.
pub proof fn lemma_read_rules_were_stored(
    ws: Seq<u32>,
    before: Seq<(Token, Token, u32)>,
    g: Seq<(Token, Token, u32)>,
)
    requires
        parsed_rules(ws, before) == Ok::<Seq<(Token, Token, u32)>, BpeError>(g),
    ensures
        before.len() <= g.len(),
        g.take(before.len() as int) == before,
        grammar_words(g.skip(before.len() as int)) == ws,
        forall|j: int| before.len() <= j < g.len() ==> rule_points_back(#[trigger] g[j], j),
        forall|j: int|
            before.len() <= j < g.len() ==> storable_token((#[trigger] g[j]).0) && storable_token(
                g[j].1,
            ),
    decreases ws.len(),
{
    let id = before.len() as int;
    if ws.len() == 0 {
        assert(g.take(id) =~= before);
        assert(g.skip(id) =~= Seq::<(Token, Token, u32)>::empty());
        assert(ws =~= Seq::<u32>::empty());
    } else {
        let (left, n) = parsed_token(ws, id)->Ok_0;
        let ws1 = ws.skip(n as int);
        let (right, m) = parsed_token(ws1, id)->Ok_0;
        let ws2 = ws1.skip(m as int);
        let rule = (left, right, ws2[0]);
        let longer = before.push(rule);
        lemma_read_token_was_stored(ws, id);
        lemma_read_token_was_stored(ws1, id);
        lemma_read_rules_were_stored(ws2.skip(1), longer, g);
        lemma_rules_extend(before, rule, g);
        lemma_words_split(ws, n as int, m as int);
        let tail = g.skip(id);
        assert(grammar_words(tail) == rule_words(rule) + grammar_words(tail.skip(1)));
        assert(rule_words(rule) == ws.take(n as int) + ws1.take(m as int) + seq![ws2[0]]);
        assert forall|j: int| id <= j < g.len() implies rule_points_back(#[trigger] g[j], j) by {
            if j == id {
                assert(rule_points_back(rule, id));
            }
        }
        assert forall|j: int| id <= j < g.len() implies storable_token((#[trigger] g[j]).0)
            && storable_token(g[j].1) by {
            if j == id {
                assert(storable_token(rule.0) && storable_token(rule.1));
            }
        }
    }
}

/// Words are read as a grammar exactly when they are the stored form of one:
/// of rules that refer backwards and can be stored.
pub proof fn lemma_read_grammar_was_stored(ws: Seq<u32>, g: Seq<(Token, Token, u32)>)
    ensures
        parsed_grammar(ws) == Ok::<Seq<(Token, Token, u32)>, BpeError>(g) <==> (well_formed(g)
            && grammar_words(g) == ws),
{
    if parsed_grammar(ws) == Ok::<Seq<(Token, Token, u32)>, BpeError>(g) {
        lemma_read_rules_were_stored(ws, Seq::empty(), g);
        assert(g.skip(0) =~= g);
    }
    if well_formed(g) && grammar_words(g) == ws {
        lemma_stored_grammar_is_read_back(g);
    }
}

/// Four bytes come back from the word they make.
pub proof fn lemma_bytes_survive_word(b0: u8, b1: u8, b2: u8, b3: u8)
    ensures
        word_bytes(word_of(b0, b1, b2, b3)) == seq![b0, b1, b2, b3],
{
    let w = b0 as int + b1 as int * 256 + b2 as int * 65536 + b3 as int * 16777216;
    assert(w % 256 == b0);
    assert(w / 256 % 256 == b1);
    assert(w / 65536 % 256 == b2);
    assert(w / 16777216 == b3);
    assert(word_bytes(word_of(b0, b1, b2, b3)) =~= seq![b0, b1, b2, b3]);
}

/// Bytes that make whole words come back from these words.
pub proof fn lemma_bytes_survive_words(bs: Seq<u8>)
    requires
        bs.len() % 4 == 0,
    ensures
        words_bytes(bytes_words(bs)) == bs,
{
    let ws = bytes_words(bs);
    let back = words_bytes(ws);
    lemma_words_bytes_len(ws);
    assert forall|k: int| 0 <= k < bs.len() implies back[k] == bs[k] by {
        let i = k / 4;
        lemma_words_bytes_at(ws, i);
        lemma_bytes_survive_word(bs[4 * i], bs[4 * i + 1], bs[4 * i + 2], bs[4 * i + 3]);
    }
    assert(back =~= bs);
}

/// Bytes are loaded as a grammar exactly when they are the stored form of
/// one: of rules that refer backwards and can be stored.
pub proof fn lemma_loaded_grammar_was_stored(bs: Seq<u8>, g: Seq<(Token, Token, u32)>)
    ensures
        loaded_grammar(bs) == Ok::<Seq<(Token, Token, u32)>, BpeError>(g) <==> (well_formed(g)
            && grammar_bytes(g) == bs),
{
    if loaded_grammar(bs) == Ok::<Seq<(Token, Token, u32)>, BpeError>(g) {
        lemma_read_grammar_was_stored(bytes_words(bs), g);
        lemma_bytes_survive_words(bs);
    }
    if well_formed(g) && grammar_bytes(g) == bs {
        lemma_stored_grammar_is_read_back(g);
    }
}

} // verus!
