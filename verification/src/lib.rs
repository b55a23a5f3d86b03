//! YANG statement parsing and grammar checking, with the atom table, the
//! argument validators and the `if-feature` expression parser they rely on.

pub mod atoms;
pub mod check;
pub mod core_grammar;
pub mod core_table;
pub mod core_types;
pub mod errors;
pub mod grammar;
pub mod grammar_text;
pub mod if_feature;
pub mod parser;
pub mod regex;
pub mod terms;
pub mod text;
pub mod validators;
