//! Word-matching engine of a source-code spell checker: a prefix-tree
//! dictionary, a line tokenizer, identifier decomposition and the
//! checking pipeline that classifies words as correct or as typos.
pub mod spell_checker;
pub mod trie;
mod text;
