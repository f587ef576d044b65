//! A tokenizer and a parser for sums of integers such as `1+2+3`.
//!
//! The tokenizer turns text into positioned tokens and records every lexeme
//! that it cannot turn into a token as a diagnostic. The parser folds the
//! tokens into a left-leaning tree of additions.

pub mod expr;
pub mod laws;
pub mod lexeme;
pub mod lexer;
pub mod numeral;
pub mod parser;
pub mod scanner;
pub mod stream;
pub mod token;

pub use expr::Expr;
pub use lexer::Lexer;
pub use parser::{parse_str, ExprParser, FatalParseError};
pub use scanner::Scanner;
pub use token::{Error, IntError, LogosToken, Span, Token};
