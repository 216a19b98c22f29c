pub mod combinators;
pub mod combinator_laws;
pub mod lexer;
pub mod ast;
pub mod ast_laws;
pub mod lexer_laws;
