//! An assembler for the Nox instruction set: source text in, a 64 KiB image out.
//!
//! The pipeline runs in passes: the lexer turns each line into tokens, the
//! address assigner walks the lines and places every emitted token, labels are
//! resolved once all addresses are known, and the tokens are written into the
//! image. Each pass is stated as a spec function and each executable function
//! is proved to compute it.
pub mod assembler;
pub mod encoder;
pub mod error;
pub mod laws;
pub mod lemmas;
pub mod lexer;
pub mod token;

pub use assembler::{Assembler, IMAGE_SIZE};
pub use encoder::{Operand, encode};
pub use error::AsmError;
pub use token::{Flag, Mnemonic, Reg, Token, TokenKind};
