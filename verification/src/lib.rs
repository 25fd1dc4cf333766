//! Preparation of the keyboard databases: parsing of the source text files
//! and computation of every row that the databases hold.

pub mod codes;
pub mod error;
pub mod text;
pub mod plan;
pub mod maps;
pub mod words;
pub mod lexicon;
pub mod app_tables;
pub mod generator;
pub mod ime_lexicons;
pub mod cangjie;
pub mod strokes;
pub mod text_tables;
pub mod variants;
pub mod code_laws;
pub mod text_index;
