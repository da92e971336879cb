//! Command-line option parsing: flag descriptors, a parser that sorts the
//! tokens of an argument list into flag matches and positional arguments,
//! column-aligned help text, and closest-match suggestions for misspelled
//! flags. Every function carries a contract over sequences of characters.

pub mod help;
pub mod opt;
pub mod parser;
pub mod result;
pub mod scan;
pub mod scan_proofs;
pub mod suggest;
pub mod text;

pub use opt::Opt;
pub use parser::OptionParser;
pub use result::{OptMatch, ParseResult, ParseStatus};
pub use text::word_wrap_str;
