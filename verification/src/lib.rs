//! A minimal stack-based virtual machine.
//!
//! A plain-text program is tokenized into whitespace-delimited words, each
//! carrying a source location; the words are parsed into a flat sequence of
//! operations (label references resolve to absolute instruction indices); and
//! the operation sequence is executed against a byte-addressable operand
//! stack plus a return-address stack.

pub mod machine;
pub mod parser;
pub mod text;
pub mod tokenizer;

pub use machine::{run, Operation, Output, RunResult, Stack, StackError, StackErrorType};
pub use parser::{parse_program, parse_tokens, ParseError, ParseErrorType, Parser};
pub use text::Location;
pub use tokenizer::{tokenize, Token, Tokenizer};
