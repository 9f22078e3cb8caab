//! A block-level scanner for a small markdown dialect: it cuts the input into
//! headers, paragraphs, unordered and ordered list items, and ends every scan
//! with one end-of-input token.
pub mod boundary;
pub mod laws;
pub mod lexer;
pub mod marky;
pub mod model;
pub mod token;

pub use lexer::Lexer;
pub use marky::marky_str;
pub use token::{Token, TokenType};
