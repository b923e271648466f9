//! A truecasing library: it learns statistical casing patterns from example
//! sentences and uses them to restore the conventional letter-casing of
//! lowercase or arbitrarily-cased text.
//!
//! Text is handled as UTF-8 bytes; casing decisions act on ASCII letters,
//! and all non-ASCII bytes pass through every operation unchanged.

pub mod bytes;
pub mod codec;
pub mod model;
pub mod tokenizer;
pub mod trainer;
