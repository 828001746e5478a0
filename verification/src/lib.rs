use vstd::prelude::*;
pub mod word_id;
pub mod csv_source;
pub mod error;
pub mod text;
pub mod numbers;
pub mod parse;
pub mod primitives;
pub mod pos;
pub mod entry;
pub mod record;
pub mod lexicon;
pub mod laws;
pub mod dump;
pub mod field_laws;
