//! Reader for a small s-expression language: a lexer that turns source text
//! into tokens, a reader that turns tokens into values, and a symbol table
//! that collects the definitions, imports and exports among those values.

pub mod error;
pub mod names;
pub mod strings;
pub mod symbol_table;
pub mod syntax;
pub mod token;
pub mod tokens;
pub mod typing;
pub mod value;
pub mod values;
