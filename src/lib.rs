//! A token-stream adapter over a lazy tokenizer, shaped as the input of a
//! parser-combinator engine, and leaf parsers built on it.

mod cursor;
mod iter;
mod parsers;
mod tokens;
mod window;

pub use cursor::{Span, Tokenizer};
pub use iter::{IndexIterator, SpannedIter};
pub use parsers::{parse_token, parse_token_with, parse_variant, parse_variant_with, NoMatch};
pub use tokens::{NeedMore, Tokens};
