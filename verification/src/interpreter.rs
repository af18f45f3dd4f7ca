//! Running a program on the value `xi`.
//!
//! The language is Turing-complete, so a run need not end; every iteration of a
//! prune loop is counted against a budget of steps, and a run that exhausts it
//! stops with `StepLimitReached`.
use vstd::prelude::*;
use crate::cnf::{Cnf, cnf_zero, cnf_nat, cnf_add, cnf_sub, cnf_floor, cnf_scale, cnf_finite, coeff};
use crate::division::cnf_divsub;
use crate::dendrons::Dendron;
use crate::natural::Natural;
use crate::syntax::Op;
use crate::parsing::{CodeBlock, Instruction, instruction_wf};

verus! {

/// Why a run stopped before the end of the program.
#[derive(PartialEq, Eq, Structural, Debug, Clone, Copy)]
pub enum ExecutionError {
    /// The program entered a loop that never ends.
    InfiniteLoop,
    /// A division met a piece of the divisor that does not fit even once.
    DivisionDoesNotFit,
    /// The budget of loop iterations ran out.
    StepLimitReached,
}

/// Where a run stops: the value `xi`, the budget left, and the error if it stopped early.
pub struct Run {
    pub xi: Cnf,
    pub fuel: nat,
    pub error: Option<ExecutionError>,
}

pub open spec fn run_ok(xi: Cnf, fuel: nat) -> Run {
    Run { xi, fuel, error: None }
}

/// One instruction.
pub open spec fn run_op(xi: Cnf, op: Op, fuel: nat) -> Run
    decreases fuel, op,
{
    match op {
        Op::Add(k) => run_ok(cnf_add(xi, k), fuel),
        Op::Divsub(d, r) => match cnf_divsub(xi, d, r) {
            Some(x) => run_ok(x, fuel),
            None => Run { xi, fuel, error: Some(ExecutionError::DivisionDoesNotFit) },
        },
        Op::MoveFinite(d) => run_ok(cnf_add(cnf_floor(xi), cnf_scale(d, cnf_finite(xi))), fuel),
        Op::InfLoopNZ => if cnf_finite(xi) >= 1 {
            Run { xi: cnf_sub(xi, cnf_nat(1)).unwrap(), fuel, error: Some(ExecutionError::InfiniteLoop) }
        } else {
            run_ok(xi, fuel)
        },
        Op::Prune(body) => run_prune(xi, body, fuel),
    }
}

/// A prune loop: while `xi` has a finite part, one is taken from it (costing one
/// step of the budget) and the body runs.
pub open spec fn run_prune(xi: Cnf, body: Seq<Op>, fuel: nat) -> Run
    decreases fuel, body,
{
    if cnf_finite(xi) == 0 {
        run_ok(xi, fuel)
    } else if fuel == 0 {
        Run { xi, fuel, error: Some(ExecutionError::StepLimitReached) }
    } else {
        let r = run_block(cnf_sub(xi, cnf_nat(1)).unwrap(), body, (fuel - 1) as nat);
        if r.error is Some {
            r
        } else if r.fuel < fuel {
            run_prune(r.xi, body, r.fuel)
        } else {
            r
        }
    }
}

/// The instructions of a block in turn, stopping at the first error.
pub open spec fn run_block(xi: Cnf, b: Seq<Op>, fuel: nat) -> Run
    decreases fuel, b,
{
    if b.len() == 0 {
        run_ok(xi, fuel)
    } else {
        let r = run_op(xi, b[0], fuel);
        if r.error is Some {
            r
        } else if r.fuel <= fuel {
            run_block(r.xi, b.drop_first(), r.fuel)
        } else {
            r
        }
    }
}

/// A run never gains budget.
pub proof fn lemma_run_fuel(xi: Cnf, b: Seq<Op>, fuel: nat)
    ensures
        run_block(xi, b, fuel).fuel <= fuel,
    decreases fuel, b,
{
    if b.len() > 0 {
        lemma_run_op_fuel(xi, b[0], fuel);
        let r = run_op(xi, b[0], fuel);
        if r.error is None {
            lemma_run_fuel(r.xi, b.drop_first(), r.fuel);
        }
    }
}

pub proof fn lemma_run_op_fuel(xi: Cnf, op: Op, fuel: nat)
    ensures
        run_op(xi, op, fuel).fuel <= fuel,
    decreases fuel, op,
{
    if let Op::Prune(body) = op {
        lemma_run_prune_fuel(xi, body, fuel);
    }
}

pub proof fn lemma_run_prune_fuel(xi: Cnf, body: Seq<Op>, fuel: nat)
    ensures
        run_prune(xi, body, fuel).fuel <= fuel,
    decreases fuel, body,
{
    if cnf_finite(xi) != 0 && fuel != 0 {
        let x = cnf_sub(xi, cnf_nat(1)).unwrap();
        lemma_run_fuel(x, body, (fuel - 1) as nat);
        let r = run_block(x, body, (fuel - 1) as nat);
        if r.error is None && r.fuel < fuel {
            lemma_run_prune_fuel(r.xi, body, r.fuel);
        }
    }
}

/// The same stop with `extra` more budget left.
pub open spec fn with_more_fuel(r: Run, extra: nat) -> Run {
    Run { xi: r.xi, fuel: r.fuel + extra, error: r.error }
}

/// Law: a run that does not run out of budget ends in the same value and the same
/// outcome under any larger budget (and leaves the extra budget unused).
pub proof fn law_more_budget(xi: Cnf, b: Seq<Op>, fuel: nat, extra: nat)
    requires
        run_block(xi, b, fuel).error != Some(ExecutionError::StepLimitReached),
    ensures
        run_block(xi, b, fuel + extra) == with_more_fuel(run_block(xi, b, fuel), extra),
    decreases fuel, b,
{
    if b.len() > 0 {
        let r = run_op(xi, b[0], fuel);
        lemma_run_op_more_budget(xi, b[0], fuel, extra);
        if r.error is None && r.fuel <= fuel {
            law_more_budget(r.xi, b.drop_first(), r.fuel, extra);
        }
    }
}

/// `law_more_budget` for one instruction.
pub proof fn lemma_run_op_more_budget(xi: Cnf, op: Op, fuel: nat, extra: nat)
    requires
        run_op(xi, op, fuel).error != Some(ExecutionError::StepLimitReached),
    ensures
        run_op(xi, op, fuel + extra) == with_more_fuel(run_op(xi, op, fuel), extra),
    decreases fuel, op,
{
    if let Op::Prune(body) = op {
        lemma_run_prune_more_budget(xi, body, fuel, extra);
    }
}

/// `law_more_budget` for a prune loop.
pub proof fn lemma_run_prune_more_budget(xi: Cnf, body: Seq<Op>, fuel: nat, extra: nat)
    requires
        run_prune(xi, body, fuel).error != Some(ExecutionError::StepLimitReached),
    ensures
        run_prune(xi, body, fuel + extra) == with_more_fuel(run_prune(xi, body, fuel), extra),
    decreases fuel, body,
{
    if cnf_finite(xi) != 0 && fuel != 0 {
        let x = cnf_sub(xi, cnf_nat(1)).unwrap();
        let r = run_block(x, body, (fuel - 1) as nat);
        law_more_budget(x, body, (fuel - 1) as nat, extra);
        assert((fuel + extra - 1) as nat == (fuel - 1) as nat + extra);
        if r.error is None && r.fuel < fuel {
            lemma_run_prune_more_budget(r.xi, body, r.fuel, extra);
        }
    }
}

/// The result of a run as the program sees it: done, or the error.
pub open spec fn run_result(r: Run) -> Result<(), ExecutionError> {
    match r.error {
        None => Ok(()),
        Some(e) => Err(e),
    }
}

/// An interpreter: the value `xi` that a program works on.
pub struct Interpreter {
    xi: Dendron,
}

impl Interpreter {
    /// The value that the next program starts from.
    pub closed spec fn value(&self) -> Cnf {
        self.xi@
    }

    /// An interpreter whose value is zero.
    pub fn new() -> (r: Interpreter)
        ensures
            r.value() == cnf_zero(),
    {
        Interpreter { xi: Dendron::zero() }
    }

    /// Sets the value.
    pub fn set_xi(&mut self, xi: Dendron)
        ensures
            final(self).value() == xi@,
    {
        self.xi = xi;
    }

    /// The value.
    pub fn get_xi(&self) -> (r: &Dendron)
        ensures
            r@ == self.value(),
    {
        &self.xi
    }

    /// Runs the block with a budget of `fuel` loop iterations; gives the result and
    /// the budget left.
    fn run_block_exec(&mut self, block: &CodeBlock, fuel: u64) -> (r: (Result<(), ExecutionError>, u64))
        ensures
            final(self).value() == run_block(old(self).value(), block@, fuel as nat).xi,
            r.1 == run_block(old(self).value(), block@, fuel as nat).fuel,
            r.0 == run_result(run_block(old(self).value(), block@, fuel as nat)),
        decreases fuel, block@, 2int,
    {
        let v = block.instructions();
        let n = v.len();
        let ghost b = block@;
        let ghost start = self.value();
        let mut i: usize = 0;
        let mut left: u64 = fuel;
        proof {
            assert(b.skip(0) =~= b);
        }
        while i < n
            invariant
                n == v@.len(),
                n == b.len(),
                b == block@,
                start == old(self).value(),
                i <= n,
                left <= fuel,
                forall|j: int| 0 <= j < v@.len() ==> (#[trigger] v@[j])@ == b[j] && instruction_wf(v@[j]),
                run_block(start, b, fuel as nat) == run_block(self.value(), b.skip(i as int), left as nat),
            decreases n - i,
        {
            let ghost before = self.value();
            let ghost t = b.skip(i as int);
            proof {
                assert(t[0] == b[i as int]);
                assert(t.drop_first() =~= b.skip(i + 1));
                lemma_run_op_fuel(before, b[i as int], left as nat);
                if left == fuel {
                    assert(decreases_to!(b => b[i as int]));
                }
            }
            let (res, rest) = self.run_instruction(&v[i], left);
            match res {
                Err(e) => {
                    proof {
                        assert(run_block(before, t, left as nat) == run_op(before, b[i as int], left as nat));
                    }
                    return (Err(e), rest);
                },
                Ok(()) => {},
            }
            left = rest;
            i = i + 1;
        }
        proof {
            assert(b.skip(n as int) =~= Seq::<Op>::empty());
        }
        (Ok(()), left)
    }

    /// Runs one instruction with a budget of `fuel` loop iterations.
    fn run_instruction(&mut self, ins: &Instruction, fuel: u64) -> (r: (Result<(), ExecutionError>, u64))
        requires
            instruction_wf(*ins),
        ensures
            final(self).value() == run_op(old(self).value(), ins@, fuel as nat).xi,
            r.1 == run_op(old(self).value(), ins@, fuel as nat).fuel,
            r.0 == run_result(run_op(old(self).value(), ins@, fuel as nat)),
        decreases fuel, ins@, 1int,
    {
        match ins {
            Instruction::Add(k) => {
                proof {
                    assert(ins@ == Op::Add(k@));
                }
                self.xi.add_assign(k);
                (Ok(()), fuel)
            },
            Instruction::Divsub { divisor, replacement } => {
                proof {
                    assert(ins@ == Op::Divsub(divisor@, replacement@));
                }
                if self.xi.try_divsub(divisor, replacement) {
                    (Ok(()), fuel)
                } else {
                    (Err(ExecutionError::DivisionDoesNotFit), fuel)
                }
            },
            Instruction::MoveFinite(d) => {
                proof {
                    assert(ins@ == Op::MoveFinite(d@));
                }
                self.xi.move_finite(d);
                (Ok(()), fuel)
            },
            Instruction::InfLoopNZ => {
                proof {
                    assert(ins@ == Op::InfLoopNZ);
                }
                match self.xi.try_decrement() {
                    Some(()) => (Err(ExecutionError::InfiniteLoop), fuel),
                    None => (Ok(()), fuel),
                }
            },
            Instruction::Prune(body) => {
                proof {
                    assert(ins@ == Op::Prune(body@));
                    assert(decreases_to!(ins@ => ins@->Prune_0));
                }
                self.run_prune_exec(body, fuel)
            },
        }
    }

    /// Runs a prune loop with a budget of `fuel` loop iterations.
    fn run_prune_exec(&mut self, body: &CodeBlock, fuel: u64) -> (r: (Result<(), ExecutionError>, u64))
        ensures
            final(self).value() == run_prune(old(self).value(), body@, fuel as nat).xi,
            r.1 == run_prune(old(self).value(), body@, fuel as nat).fuel,
            r.0 == run_result(run_prune(old(self).value(), body@, fuel as nat)),
        decreases fuel, body@, 0int,
    {
        let ghost start = self.value();
        let mut left: u64 = fuel;
        loop
            invariant
                left <= fuel,
                start == old(self).value(),
                run_prune(start, body@, fuel as nat) == run_prune(self.value(), body@, left as nat),
            ensures
                run_prune(start, body@, fuel as nat) == run_ok(self.value(), left as nat),
            decreases left,
        {
            let finite = self.xi.finite_part();
            if finite.is_zero() {
                break;
            }
            if left == 0 {
                proof {
                    assert(run_prune(self.value(), body@, 0) == Run { xi: self.value(), fuel: 0, error: Some(ExecutionError::StepLimitReached) });
                }
                return (Err(ExecutionError::StepLimitReached), 0);
            }
            let ghost before = self.value();
            let taken = self.xi.try_decrement();
            proof {
                lemma_run_fuel(self.value(), body@, (left - 1) as nat);
            }
            let (res, rest) = self.run_block_exec(body, left - 1);
            match res {
                Err(e) => {
                    proof {
                        assert(run_prune(before, body@, left as nat) == run_block(cnf_sub(before, cnf_nat(1)).unwrap(), body@, (left - 1) as nat));
                    }
                    return (Err(e), rest);
                },
                Ok(()) => {},
            }
            left = rest;
        }
        (Ok(()), left)
    }

    /// Runs the block on the value, with a budget of `steps` loop iterations.
    pub fn execute_bounded(&mut self, block: &CodeBlock, steps: u64) -> (r: Result<(), ExecutionError>)
        ensures
            final(self).value() == run_block(old(self).value(), block@, steps as nat).xi,
            r == run_result(run_block(old(self).value(), block@, steps as nat)),
    {
        let (res, _) = self.run_block_exec(block, steps);
        res
    }

    /// Runs the block on the value (with a budget of `u64::MAX` loop iterations, more
    /// than any run can use up in practice).
    pub fn execute(&mut self, block: &CodeBlock) -> (r: Result<(), ExecutionError>)
        ensures
            final(self).value() == run_block(old(self).value(), block@, u64::MAX as nat).xi,
            r == run_result(run_block(old(self).value(), block@, u64::MAX as nat)),
    {
        self.execute_bounded(block, u64::MAX)
    }
}

} // verus!
