pub mod error;
pub mod laws;
pub mod lexer;
pub mod parser;
pub mod syntax;

pub use error::{ErrorKind, ParseError};
pub use parser::parse;
pub use syntax::{Comp, Expr, Fml, Op, Quant};
