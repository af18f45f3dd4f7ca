//! Laws that justify the optimisation of prune loops: where the simpler
//! instruction stands for the loop, both end in the same value; and so the
//! optimised program means what the program as written means.
use vstd::prelude::*;
use crate::cnf::{
    Cnf, cnf_zero, cnf_nat, wf, coeff, cnf_add, cnf_sub, cnf_floor, cnf_scale, cnf_finite,
    lemma_add_wf, lemma_sub_wf, lemma_scale_wf, lemma_floor_wf, lemma_canonical,
    lemma_subtracts_pointwise, law_add_zero,
};
use crate::syntax::{
    Op, optimize_block, optimize_op, optimize_prune, block_wf, op_wf, parse_program_text,
    lemma_parse_block_wf,
};
use crate::parsing::compile_spec;
use crate::interpreter::{
    run_op, run_prune, run_block, run_ok, ExecutionError, Run, law_more_budget,
    lemma_run_prune_more_budget, lemma_run_fuel, lemma_run_op_fuel, lemma_run_prune_fuel,
    lemma_run_op_more_budget,
};
use crate::division::{cnf_divsub, lemma_divsub_loop_conserves};

verus! {

/// What is left after taking one from a positive finite part.
proof fn lemma_take_one(xi: Cnf)
    requires
        wf(xi),
        cnf_finite(xi) >= 1,
    ensures
        cnf_sub(xi, cnf_nat(1)) is Some,
        wf(cnf_sub(xi, cnf_nat(1)).unwrap()),
        forall|g: Cnf| #[trigger] coeff(cnf_sub(xi, cnf_nat(1)).unwrap(), g) == if g == cnf_zero() { coeff(xi, g) - 1 } else { coeff(xi, g) as int },
{
    let one = cnf_nat(1);
    assert(wf(one)) by {
        assert(wf(cnf_zero()));
    }
    assert forall|g: Cnf| #[trigger] coeff(one, g) == if g == cnf_zero() { 1nat } else { 0nat } by {
        crate::division::lemma_monomial_coeff(cnf_zero(), 1, g);
        assert(one == crate::cnf::cnf_monomial(cnf_zero(), 1));
    }
    lemma_subtracts_pointwise(xi, one);
    lemma_sub_wf(xi, one);
}

/// Law: a prune loop with an empty body, given a budget of at least the finite
/// part, ends in the value's floor, as the move of the finite part onto zero does.
pub proof fn law_prune_empty(xi: Cnf, fuel: nat)
    requires
        wf(xi),
        fuel >= cnf_finite(xi),
    ensures
        run_prune(xi, Seq::empty(), fuel).error is None,
        run_prune(xi, Seq::empty(), fuel).xi == run_op(xi, Op::MoveFinite(cnf_zero()), fuel).xi,
    decreases cnf_finite(xi),
{
    let z = cnf_zero();
    assert(wf(z));
    lemma_floor_wf(xi);
    assert(cnf_scale(z, cnf_finite(xi)).terms =~= z.terms);
    law_add_zero(cnf_floor(xi));
    if cnf_finite(xi) == 0 {
        assert forall|g: Cnf| coeff(cnf_floor(xi), g) == coeff(xi, g) by {}
        lemma_canonical(cnf_floor(xi), xi);
    } else {
        lemma_take_one(xi);
        let x1 = cnf_sub(xi, cnf_nat(1)).unwrap();
        assert(run_block(x1, Seq::empty(), (fuel - 1) as nat) == run_ok(x1, (fuel - 1) as nat));
        law_prune_empty(x1, (fuel - 1) as nat);
        lemma_floor_wf(x1);
        assert forall|g: Cnf| coeff(cnf_floor(x1), g) == coeff(cnf_floor(xi), g) by {}
        lemma_canonical(cnf_floor(x1), cnf_floor(xi));
        assert(cnf_scale(z, cnf_finite(x1)).terms =~= z.terms);
        law_add_zero(cnf_floor(x1));
    }
}

/// Law: a prune loop whose body adds `k`, where `k` has no finite part, given a
/// budget of at least the finite part, ends where moving the finite part onto `k` ends.
pub proof fn law_prune_add(xi: Cnf, k: Cnf, fuel: nat)
    requires
        wf(xi),
        wf(k),
        cnf_finite(k) == 0,
        fuel >= cnf_finite(xi),
    ensures
        run_prune(xi, seq![Op::Add(k)], fuel).error is None,
        run_prune(xi, seq![Op::Add(k)], fuel).xi == run_op(xi, Op::MoveFinite(k), fuel).xi,
    decreases cnf_finite(xi),
{
    let n = cnf_finite(xi);
    let body = seq![Op::Add(k)];
    lemma_floor_wf(xi);
    lemma_scale_wf(k, n);
    if n == 0 {
        assert forall|g: Cnf| coeff(cnf_floor(xi), g) == coeff(xi, g) by {}
        lemma_canonical(cnf_floor(xi), xi);
        assert(cnf_scale(k, 0).terms =~= cnf_zero().terms);
        law_add_zero(xi);
    } else {
        lemma_take_one(xi);
        let x1 = cnf_sub(xi, cnf_nat(1)).unwrap();
        let x2 = cnf_add(x1, k);
        lemma_add_wf(x1, k);
        assert(body.drop_first() =~= Seq::<Op>::empty());
        assert(run_block(x1, body, (fuel - 1) as nat) == run_ok(x2, (fuel - 1) as nat)) by {
            let f = (fuel - 1) as nat;
            assert(body[0] == Op::Add(k));
            assert(run_op(x1, body[0], f) == run_ok(x2, f));
            assert(run_block(x2, body.drop_first(), f) == run_ok(x2, f));
            assert(run_block(x1, body, f) == run_block(x2, body.drop_first(), f));
        }
        assert(cnf_finite(x2) == n - 1);
        law_prune_add(x2, k, (fuel - 1) as nat);
        // floor(x2) + k * (n - 1) == floor(xi) + k * n
        lemma_floor_wf(x2);
        lemma_scale_wf(k, (n - 1) as nat);
        lemma_add_wf(cnf_floor(x2), cnf_scale(k, (n - 1) as nat));
        lemma_add_wf(cnf_floor(xi), cnf_scale(k, n));
        assert forall|g: Cnf| coeff(cnf_add(cnf_floor(x2), cnf_scale(k, (n - 1) as nat)), g) == coeff(cnf_add(cnf_floor(xi), cnf_scale(k, n)), g) by {
            let c = coeff(k, g);
            assert(c * (n - 1) + c == c * n) by (nonlinear_arith)
                requires
                    n >= 1,
            ;
            if g == cnf_zero() {
                assert(c * (n - 1) == 0 && c * n == 0) by (nonlinear_arith)
                    requires
                        c == 0,
                ;
            }
        }
        lemma_canonical(cnf_add(cnf_floor(x2), cnf_scale(k, (n - 1) as nat)), cnf_add(cnf_floor(xi), cnf_scale(k, n)));
    }
}

/// Law: a prune loop whose body adds `k`, where `k` has a finite part, never ends
/// once entered: whatever the budget, the run stops only because the budget ran out.
pub proof fn law_prune_add_diverges(xi: Cnf, k: Cnf, fuel: nat)
    requires
        wf(xi),
        wf(k),
        cnf_finite(k) >= 1,
        cnf_finite(xi) >= 1,
    ensures
        run_prune(xi, seq![Op::Add(k)], fuel).error == Some(ExecutionError::StepLimitReached),
    decreases fuel,
{
    let body = seq![Op::Add(k)];
    if fuel > 0 {
        lemma_take_one(xi);
        let x1 = cnf_sub(xi, cnf_nat(1)).unwrap();
        let x2 = cnf_add(x1, k);
        lemma_add_wf(x1, k);
        assert(body.drop_first() =~= Seq::<Op>::empty());
        assert(run_block(x1, body, (fuel - 1) as nat) == run_ok(x2, (fuel - 1) as nat)) by {
            let f = (fuel - 1) as nat;
            assert(body[0] == Op::Add(k));
            assert(run_op(x1, body[0], f) == run_ok(x2, f));
            assert(run_block(x2, body.drop_first(), f) == run_ok(x2, f));
            assert(run_block(x1, body, f) == run_block(x2, body.drop_first(), f));
        }
        law_prune_add_diverges(x2, k, (fuel - 1) as nat);
    }
}

// ------------------------------------------------------------------
// The optimised program.
// ------------------------------------------------------------------

/// A run of a well-formed block keeps the value in normal form.
proof fn lemma_run_wf(xi: Cnf, b: Seq<Op>, fuel: nat)
    requires
        wf(xi),
        block_wf(b),
    ensures
        wf(run_block(xi, b, fuel).xi),
    decreases fuel, b,
{
    if b.len() > 0 {
        lemma_op_wf(xi, b[0], fuel);
        let r = run_op(xi, b[0], fuel);
        if r.error is None && r.fuel <= fuel {
            lemma_run_wf(r.xi, b.drop_first(), r.fuel);
        }
    }
}

proof fn lemma_op_wf(xi: Cnf, op: Op, fuel: nat)
    requires
        wf(xi),
        op_wf(op),
    ensures
        wf(run_op(xi, op, fuel).xi),
    decreases fuel, op,
{
    match op {
        Op::Add(k) => {
            lemma_add_wf(xi, k);
        },
        Op::Divsub(d, r) => {
            assert(wf(cnf_zero()));
            if cnf_divsub(xi, d, r) is Some {
                lemma_divsub_loop_conserves(xi, cnf_zero(), d);
                let (rho, psi) = crate::division::divsub_loop(xi, cnf_zero(), d).unwrap();
                crate::cnf::lemma_mul_wf(psi, r);
                lemma_add_wf(rho, crate::cnf::cnf_mul(psi, r));
            }
        },
        Op::MoveFinite(d) => {
            lemma_floor_wf(xi);
            lemma_scale_wf(d, cnf_finite(xi));
            lemma_add_wf(cnf_floor(xi), cnf_scale(d, cnf_finite(xi)));
        },
        Op::InfLoopNZ => {
            if cnf_finite(xi) >= 1 {
                lemma_take_one(xi);
            }
        },
        Op::Prune(body) => {
            lemma_prune_wf(xi, body, fuel);
        },
    }
}

proof fn lemma_prune_wf(xi: Cnf, body: Seq<Op>, fuel: nat)
    requires
        wf(xi),
        block_wf(body),
    ensures
        wf(run_prune(xi, body, fuel).xi),
    decreases fuel, body,
{
    if cnf_finite(xi) != 0 && fuel != 0 {
        lemma_take_one(xi);
        let x = cnf_sub(xi, cnf_nat(1)).unwrap();
        lemma_run_wf(x, body, (fuel - 1) as nat);
        let r = run_block(x, body, (fuel - 1) as nat);
        if r.error is None && r.fuel < fuel {
            lemma_prune_wf(r.xi, body, r.fuel);
        }
    }
}

/// A prune loop with an empty body that does not run out of budget had a budget
/// of at least the finite part.
proof fn lemma_prune_empty_budget(xi: Cnf, fuel: nat)
    requires
        wf(xi),
        run_prune(xi, Seq::empty(), fuel).error != Some(ExecutionError::StepLimitReached),
    ensures
        fuel >= cnf_finite(xi),
    decreases fuel,
{
    if cnf_finite(xi) != 0 && fuel != 0 {
        lemma_take_one(xi);
        let x1 = cnf_sub(xi, cnf_nat(1)).unwrap();
        assert(run_block(x1, Seq::empty(), (fuel - 1) as nat) == run_ok(x1, (fuel - 1) as nat));
        lemma_prune_empty_budget(x1, (fuel - 1) as nat);
    }
}

/// A prune loop with body `+= k`, `k` without finite part, that does not run out
/// of budget had a budget of at least the finite part.
proof fn lemma_prune_add_budget(xi: Cnf, k: Cnf, fuel: nat)
    requires
        wf(xi),
        wf(k),
        cnf_finite(k) == 0,
        run_prune(xi, seq![Op::Add(k)], fuel).error != Some(ExecutionError::StepLimitReached),
    ensures
        fuel >= cnf_finite(xi),
    decreases fuel,
{
    let body = seq![Op::Add(k)];
    if cnf_finite(xi) != 0 && fuel != 0 {
        lemma_take_one(xi);
        let x1 = cnf_sub(xi, cnf_nat(1)).unwrap();
        let x2 = cnf_add(x1, k);
        lemma_add_wf(x1, k);
        assert(body.drop_first() =~= Seq::<Op>::empty());
        assert(run_block(x1, body, (fuel - 1) as nat) == run_ok(x2, (fuel - 1) as nat)) by {
            let f = (fuel - 1) as nat;
            assert(body[0] == Op::Add(k));
            assert(run_op(x1, body[0], f) == run_ok(x2, f));
            assert(run_block(x2, body.drop_first(), f) == run_ok(x2, f));
            assert(run_block(x1, body, f) == run_block(x2, body.drop_first(), f));
        }
        assert(cnf_finite(x2) == cnf_finite(xi) - 1);
        lemma_prune_add_budget(x2, k, (fuel - 1) as nat);
    }
}

/// The optimised run ends in the same value with the same outcome, with at least
/// as much budget left.
pub open spec fn same_outcome(optimised: Run, written: Run) -> bool {
    &&& optimised.xi == written.xi
    &&& optimised.error == written.error
    &&& optimised.fuel >= written.fuel
}

/// Law: the optimisation that compiling applies keeps the meaning of a program.
/// On a value in normal form, a run of the program as written that does not run
/// out of budget ends, when the optimised program is run with the same budget, in
/// the same value and with the same outcome, using no more of the budget.
pub proof fn law_optimize_keeps_meaning(xi: Cnf, b: Seq<Op>, fuel: nat)
    requires
        wf(xi),
        block_wf(b),
        run_block(xi, b, fuel).error != Some(ExecutionError::StepLimitReached),
    ensures
        same_outcome(run_block(xi, optimize_block(b), fuel), run_block(xi, b, fuel)),
    decreases fuel, b,
{
    let ob = optimize_block(b);
    if b.len() == 0 {
        assert(ob.len() == 0);
    } else {
        assert(ob[0] == optimize_op(b[0]));
        assert(ob.drop_first() =~= optimize_block(b.drop_first()));
        let r = run_op(xi, b[0], fuel);
        let ro = run_op(xi, ob[0], fuel);
        lemma_run_op_fuel(xi, b[0], fuel);
        lemma_run_op_fuel(xi, ob[0], fuel);
        lemma_op_keeps_meaning(xi, b[0], fuel);
        if r.error is None {
            lemma_op_wf(xi, b[0], fuel);
            let rest = b.drop_first();
            law_optimize_keeps_meaning(r.xi, rest, r.fuel);
            law_more_budget(r.xi, optimize_block(rest), r.fuel, (ro.fuel - r.fuel) as nat);
        }
    }
}

proof fn lemma_op_keeps_meaning(xi: Cnf, op: Op, fuel: nat)
    requires
        wf(xi),
        op_wf(op),
        run_op(xi, op, fuel).error != Some(ExecutionError::StepLimitReached),
    ensures
        same_outcome(run_op(xi, optimize_op(op), fuel), run_op(xi, op, fuel)),
    decreases fuel, op,
{
    if let Op::Prune(body) = op {
        lemma_run_prune_fuel(xi, body, fuel);
        if body.len() == 0 {
            assert(body =~= Seq::<Op>::empty());
            lemma_prune_empty_budget(xi, fuel);
            law_prune_empty(xi, fuel);
        } else if body.len() == 1 && body[0] is Add {
            let k = body[0]->Add_0;
            assert(body =~= seq![Op::Add(k)]);
            assert(op_wf(body[0]));
            assert(wf(k));
            if cnf_finite(k) >= 1 {
                if cnf_finite(xi) >= 1 {
                    law_prune_add_diverges(xi, k, fuel);
                }
            } else {
                lemma_prune_add_budget(xi, k, fuel);
                law_prune_add(xi, k, fuel);
            }
        } else {
            assert(optimize_prune(body) == Op::Prune(optimize_block(body)));
            lemma_prune_keeps_meaning(xi, body, fuel);
        }
    }
}

proof fn lemma_prune_keeps_meaning(xi: Cnf, body: Seq<Op>, fuel: nat)
    requires
        wf(xi),
        block_wf(body),
        run_prune(xi, body, fuel).error != Some(ExecutionError::StepLimitReached),
    ensures
        same_outcome(run_prune(xi, optimize_block(body), fuel), run_prune(xi, body, fuel)),
    decreases fuel, body,
{
    let ob = optimize_block(body);
    if cnf_finite(xi) != 0 && fuel != 0 {
        lemma_take_one(xi);
        let x = cnf_sub(xi, cnf_nat(1)).unwrap();
        let f = (fuel - 1) as nat;
        let r = run_block(x, body, f);
        let ro = run_block(x, ob, f);
        lemma_run_fuel(x, body, f);
        lemma_run_fuel(x, ob, f);
        law_optimize_keeps_meaning(x, body, f);
        if r.error is None {
            lemma_run_wf(x, body, f);
            lemma_prune_keeps_meaning(r.xi, body, r.fuel);
            lemma_run_prune_more_budget(r.xi, ob, r.fuel, (ro.fuel - r.fuel) as nat);
        }
    }
}

/// Law: compiling keeps the meaning of the source. On a value in normal form, a
/// run of the program as written in `src` that does not run out of budget ends,
/// when the compiled program is run with the same budget, in the same value and
/// with the same outcome, using no more of the budget.
pub proof fn law_compile_keeps_meaning(src: Seq<char>, xi: Cnf, fuel: nat)
    requires
        wf(xi),
        parse_program_text(src) is Ok,
        run_block(xi, parse_program_text(src)->Ok_0, fuel).error != Some(ExecutionError::StepLimitReached),
    ensures
        compile_spec(src) matches Ok(m) ==> same_outcome(run_block(xi, m, fuel), run_block(xi, parse_program_text(src)->Ok_0, fuel)),
{
    assert(block_wf(Seq::<Op>::empty()));
    lemma_parse_block_wf(src, 0, Seq::empty());
    law_optimize_keeps_meaning(xi, parse_program_text(src)->Ok_0, fuel);
}

// ------------------------------------------------------------------
// Runs that do not end.
// ------------------------------------------------------------------

/// The run stops neither for want of budget nor at a loop that cannot end.
pub open spec fn ends(r: Run) -> bool {
    r.error != Some(ExecutionError::StepLimitReached) && r.error != Some(ExecutionError::InfiniteLoop)
}

/// Two runs of a block that both do not run out of budget end alike.
proof fn lemma_two_budgets(xi: Cnf, b: Seq<Op>, f: nat, g: nat)
    requires
        run_block(xi, b, f).error != Some(ExecutionError::StepLimitReached),
        run_block(xi, b, g).error != Some(ExecutionError::StepLimitReached),
    ensures
        run_block(xi, b, f).xi == run_block(xi, b, g).xi,
        run_block(xi, b, f).error == run_block(xi, b, g).error,
{
    if f <= g {
        law_more_budget(xi, b, f, (g - f) as nat);
    } else {
        law_more_budget(xi, b, g, (f - g) as nat);
    }
}

proof fn lemma_two_budgets_op(xi: Cnf, op: Op, f: nat, g: nat)
    requires
        run_op(xi, op, f).error != Some(ExecutionError::StepLimitReached),
        run_op(xi, op, g).error != Some(ExecutionError::StepLimitReached),
    ensures
        run_op(xi, op, f).xi == run_op(xi, op, g).xi,
        run_op(xi, op, f).error == run_op(xi, op, g).error,
{
    if f <= g {
        lemma_run_op_more_budget(xi, op, f, (g - f) as nat);
    } else {
        lemma_run_op_more_budget(xi, op, g, (f - g) as nat);
    }
}

/// Where the optimised block ends, the block as written ends too, given budget `f`.
proof fn lemma_written_ends(xi: Cnf, b: Seq<Op>, fo: nat) -> (f: nat)
    requires
        wf(xi),
        block_wf(b),
        ends(run_block(xi, optimize_block(b), fo)),
    ensures
        run_block(xi, b, f).error != Some(ExecutionError::StepLimitReached),
    decreases fo, b,
{
    let ob = optimize_block(b);
    if b.len() == 0 {
        0
    } else {
        assert(ob[0] == optimize_op(b[0]));
        assert(ob.drop_first() =~= optimize_block(b.drop_first()));
        let ro = run_op(xi, ob[0], fo);
        lemma_run_op_fuel(xi, ob[0], fo);
        let f1 = lemma_op_written_ends(xi, b[0], fo);
        // the instruction as written, with budget f1, ends as the optimised one did
        lemma_op_keeps_meaning(xi, b[0], f1);
        lemma_two_budgets_op(xi, ob[0], f1, fo);
        let r1 = run_op(xi, b[0], f1);
        lemma_run_op_fuel(xi, b[0], f1);
        if ro.error is Some {
            f1
        } else {
            lemma_op_wf(xi, b[0], f1);
            let rest = b.drop_first();
            let f2 = lemma_written_ends(ro.xi, rest, ro.fuel);
            lemma_run_op_more_budget(xi, b[0], f1, f2);
            law_more_budget(ro.xi, rest, f2, r1.fuel);
            assert(r1.fuel + f2 == f2 + r1.fuel);
            f1 + f2
        }
    }
}

proof fn lemma_op_written_ends(xi: Cnf, op: Op, fo: nat) -> (f: nat)
    requires
        wf(xi),
        op_wf(op),
        ends(run_op(xi, optimize_op(op), fo)),
    ensures
        run_op(xi, op, f).error != Some(ExecutionError::StepLimitReached),
    decreases fo, op,
{
    if let Op::Prune(body) = op {
        if body.len() == 0 {
            assert(body =~= Seq::<Op>::empty());
            law_prune_empty(xi, cnf_finite(xi));
            cnf_finite(xi)
        } else if body.len() == 1 && body[0] is Add {
            let k = body[0]->Add_0;
            assert(body =~= seq![Op::Add(k)]);
            assert(op_wf(body[0]));
            if cnf_finite(k) >= 1 {
                assert(cnf_finite(xi) == 0);
                0
            } else {
                law_prune_add(xi, k, cnf_finite(xi));
                cnf_finite(xi)
            }
        } else {
            assert(optimize_prune(body) == Op::Prune(optimize_block(body)));
            lemma_prune_written_ends(xi, body, fo)
        }
    } else {
        fo
    }
}

proof fn lemma_prune_written_ends(xi: Cnf, body: Seq<Op>, fo: nat) -> (f: nat)
    requires
        wf(xi),
        block_wf(body),
        ends(run_prune(xi, optimize_block(body), fo)),
    ensures
        run_prune(xi, body, f).error != Some(ExecutionError::StepLimitReached),
    decreases fo, body,
{
    let ob = optimize_block(body);
    if cnf_finite(xi) == 0 {
        0
    } else {
        assert(fo != 0);
        lemma_take_one(xi);
        let x = cnf_sub(xi, cnf_nat(1)).unwrap();
        let ro = run_block(x, ob, (fo - 1) as nat);
        lemma_run_fuel(x, ob, (fo - 1) as nat);
        let f1 = lemma_written_ends(x, body, (fo - 1) as nat);
        law_optimize_keeps_meaning(x, body, f1);
        lemma_two_budgets(x, ob, f1, (fo - 1) as nat);
        let r1 = run_block(x, body, f1);
        lemma_run_fuel(x, body, f1);
        if ro.error is Some {
            assert((f1 + 1 - 1) as nat == f1);
            f1 + 1
        } else {
            lemma_run_wf(x, body, f1);
            let f2 = lemma_prune_written_ends(ro.xi, body, ro.fuel);
            law_more_budget(x, body, f1, f2);
            lemma_run_prune_more_budget(ro.xi, body, f2, r1.fuel);
            assert(r1.fuel + f2 == f2 + r1.fuel);
            assert((f1 + f2 + 1 - 1) as nat == f1 + f2);
            f1 + f2 + 1
        }
    }
}

/// Law: a program as written that never ends (whatever the budget, the run stops
/// only because the budget ran out) does not end once optimised either: whatever
/// the budget, the optimised run stops because the budget ran out or at a loop
/// that cannot end.
pub proof fn law_optimize_keeps_divergence(xi: Cnf, b: Seq<Op>)
    requires
        wf(xi),
        block_wf(b),
        forall|f: nat| #[trigger] run_block(xi, b, f).error == Some(ExecutionError::StepLimitReached),
    ensures
        forall|f: nat| !ends(#[trigger] run_block(xi, optimize_block(b), f)),
{
    assert forall|f: nat| !ends(#[trigger] run_block(xi, optimize_block(b), f)) by {
        if ends(run_block(xi, optimize_block(b), f)) {
            let g = lemma_written_ends(xi, b, f);
            assert(run_block(xi, b, g).error == Some(ExecutionError::StepLimitReached));
        }
    }
}

} // verus!
