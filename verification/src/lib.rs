//! Byte-pair vocabularies: learning merge rules from text, storing them,
//! segmenting text with them and walking them to produce new text.

pub mod codec;
pub mod counts;
pub mod decode;
pub mod error;
pub mod generate;
pub mod report;
pub mod sample;
pub mod text;
pub mod token;
pub mod tokenize;
pub mod train;

pub use codec::{load_tokens, read_tokens, write_tokens};
pub use decode::{token_to_chars, tokens_to_string};
pub use error::BpeError;
pub use generate::{
    find_valid_tokens,
    generate_along,
    generate_from_seed,
    generate_gibberish,
    weighted_continuations,
};
pub use report::debug_grammar;
pub use token::{Token, TokenGrammar};
pub use tokenize::tokenize;
pub use train::parse_bpe;
