//! Candidate-word suggestions for a Russian five-letter word game.
//!
//! Patterns in a small mixed notation are normalized and validated, turned
//! into a corpus filter (an SQL query or an in-memory predicate), the
//! results of several patterns are intersected, and the survivors are ranked
//! by a letter-frequency score.

pub mod text;

pub mod letters;

pub use letters::{
    append_chars_to_comma_delimited_str, convert_latin_to_cyrillic, convert_ye_to_yo,
    process_rejects,
};

pub mod pattern;

pub use pattern::{is_valid_pattern, parse_pattern};

pub mod query;

pub use query::{WordleQuery, WordleQueryError};

pub mod rank;

pub use rank::Wordle;

pub mod pipeline;

pub use pipeline::{prepare_queries, Search};
