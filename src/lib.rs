pub mod laws;
pub mod lexer;
pub mod scan;
pub mod text;
pub mod tokens;

pub use lexer::Lexer;
