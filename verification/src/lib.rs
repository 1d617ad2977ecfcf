//! Building and searching a word index over a text corpus: character
//! normalisation, a short-prefix hash, base-255 number encoding, the on-disk
//! bucket format, and the lookup that reads it back.

pub mod hash_func;
pub mod map_latin_one;
pub mod text;
pub mod base255;
pub mod token_table;
pub mod bucket_file;
pub mod list_file;
pub mod index_values;
pub mod context;
pub mod lookup;
