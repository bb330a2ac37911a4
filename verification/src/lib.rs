//! Front end of a compiler for an indentation-delimited language: an
//! indentation-aware lexer that reconstructs block structure from leading
//! whitespace, a token-stream cursor, and a recursive-descent parser that
//! builds a span-annotated abstract syntax tree with unique node ids.

pub mod source_file;
pub mod text;
pub mod node_id;
pub mod ast;
pub mod token;
pub mod lexer;
pub mod tokens;
pub mod parse_session;
pub mod frontend;
pub mod parser;
