//! Dendritic Calculus: a language that manipulates one tree, a dendron, an
//! ordinal below epsilon-zero written in Cantor normal form.
pub mod natural;
pub mod cnf;
pub mod dendrons;
pub mod division;
pub mod text;
pub mod syntax;
pub mod parsing;
pub mod interpreter;
pub mod listing;
pub mod program;

pub use dendrons::Dendron;
pub use natural::Natural;
pub use parsing::{CodeBlock, Instruction, CompilationError, Error, parse_dc_source, parse_literal_source};
pub use interpreter::{Interpreter, ExecutionError};
pub use program::{DendriticProgram, DendronValue, compile};
pub mod product_laws;
pub mod loop_laws;
pub mod notation_laws;
pub mod order_laws;
pub mod string_laws;
pub mod tex_laws;
pub mod ws_laws;
