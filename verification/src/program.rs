//! A compiled program as a value of its own: compile once, list it, run it on zero.
use vstd::prelude::*;
use crate::cnf::{Cnf, cnf_zero};
use crate::dendrons::Dendron;
use crate::syntax::Op;
use crate::parsing::{CodeBlock, CompilationError, compile_spec, parse_dc_source};
use crate::listing::block_listing;
use crate::interpreter::{Interpreter, ExecutionError, run_block};
use crate::text::display;

verus! {

/// A compiled Dendritic Calculus program.
pub struct DendriticProgram {
    code_block: CodeBlock,
}

/// A dendron that a program produced.
pub struct DendronValue(Dendron);

impl DendriticProgram {
    /// The compiled instructions.
    pub closed spec fn code(&self) -> Seq<Op> {
        self.code_block@
    }

    /// The listing of the compiled program (its instructions joined by ", ").
    pub fn as_assembly(&self) -> (r: String)
        ensures
            r@ == block_listing(self.code()),
    {
        self.code_block.to_string()
    }

    /// Runs the program on zero: the value it ends with, or why it stopped.
    pub fn run_on_zero(&self) -> (r: Result<DendronValue, ExecutionError>)
        ensures
            ({
                let run = run_block(cnf_zero(), self.code(), u64::MAX as nat);
                match r {
                    Ok(v) => run.error is None && v.value() == run.xi,
                    Err(e) => run.error == Some(e),
                }
            }),
    {
        let mut interp = Interpreter::new();
        interp.set_xi(Dendron::zero());
        let res = interp.execute(&self.code_block);
        match res {
            Ok(()) => Ok(DendronValue(interp.get_xi().duplicate())),
            Err(e) => Err(e),
        }
    }
}

impl DendronValue {
    /// The dendron.
    pub closed spec fn value(&self) -> Cnf {
        self.0@
    }

    /// Its plain notation.
    pub fn to_string(&self) -> (r: String)
        ensures
            r@ == display(self.value()),
    {
        self.0.to_string()
    }
}

/// Compiles a source into a program.
pub fn compile(source: String) -> (r: Result<DendriticProgram, CompilationError>)
    ensures
        match (r, compile_spec(source@)) {
            (Ok(p), Ok(m)) => p.code() == m,
            (Err(e), Err(f)) => e == f,
            _ => false,
        },
{
    match parse_dc_source(source.as_str()) {
        Ok(code_block) => Ok(DendriticProgram { code_block }),
        Err(e) => Err(e),
    }
}

} // verus!
