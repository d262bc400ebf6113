//! Building blocks for hand-written lexers whose tokens carry their UTF-8
//! length, as rowan's syntax trees expect.
pub use rowan;

pub mod text;
pub mod lexer;
