use dentritic_calculus::{
    compile, parse_dc_source, parse_literal_source, CompilationError, Dendron, ExecutionError,
    Instruction, Interpreter, Natural,
};

fn lit(s: &str) -> Dendron {
    parse_literal_source(s).unwrap()
}

fn run(program: &str, input: &str) -> Result<String, ExecutionError> {
    let block = parse_dc_source(program).unwrap();
    let mut interp = Interpreter::new();
    interp.set_xi(lit(input));
    interp.execute(&block)?;
    Ok(interp.get_xi().to_string())
}

#[test]
fn literals_read_and_print() {
    assert_eq!(lit("5[[1]]+7").to_string(), "5[[1]]+7");
    assert_eq!(lit(" 7 + 5[[1]] ").to_string(), "5[[1]]+7");
    assert_eq!(lit("[]").to_string(), "1");
    assert_eq!(lit("[0]").to_string(), "1");
    assert_eq!(lit("0").to_string(), "0");
    assert_eq!(lit("2[1]+[1]+3").to_string(), "3[1]+3");
    assert_eq!(lit("4 [2]").to_string(), "4[2]");
    assert_eq!(lit("[[1]+1]+2[[1]]+3[1]+6").to_string(), "[[1]+1]+2[[1]]+3[1]+6");
    assert_eq!(lit("123456789012345678901234567890").to_string(), "123456789012345678901234567890");
}

#[test]
fn literal_errors() {
    assert_eq!(
        parse_literal_source("[1").err(),
        Some(CompilationError::SyntaxError { position: 2 })
    );
    assert_eq!(
        parse_literal_source("").err(),
        Some(CompilationError::SyntaxError { position: 0 })
    );
    assert_eq!(
        parse_literal_source("1 2").err(),
        Some(CompilationError::SyntaxError { position: 2 })
    );
    assert_eq!(
        parse_literal_source("x").err(),
        Some(CompilationError::SyntaxError { position: 0 })
    );
}

#[test]
fn program_errors() {
    assert_eq!(
        parse_dc_source("+= [1").err(),
        Some(CompilationError::SyntaxError { position: 5 })
    );
    assert_eq!(parse_dc_source("/ 0 > 1").err(), Some(CompilationError::DivisionByZero));
    assert_eq!(parse_dc_source("{/ 0 > 1}").err(), Some(CompilationError::DivisionByZero));
    assert_eq!(
        parse_dc_source("+= 1 }").err(),
        Some(CompilationError::SyntaxError { position: 5 })
    );
    assert_eq!(
        parse_dc_source("{+= 1").err(),
        Some(CompilationError::SyntaxError { position: 5 })
    );
}

#[test]
fn add_one() {
    assert_eq!(run("+= 1", "5[[1]]+7"), Ok("5[[1]]+8".to_string()));
    assert_eq!(run("+= 1 += [1]", "0"), Ok("[1]+1".to_string()));
    assert_eq!(run("", "[2]"), Ok("[2]".to_string()));
}

#[test]
fn optimised_loops() {
    let block = parse_dc_source("{}, {+= [1]}, {+= 2}, {+= 1, += 0}").unwrap();
    let ins = block.instructions();
    assert_eq!(ins.len(), 4);
    assert!(matches!(&ins[0], Instruction::MoveFinite(d) if d.is_zero()));
    assert!(matches!(&ins[1], Instruction::MoveFinite(d) if d.to_string() == "[1]"));
    assert!(matches!(&ins[2], Instruction::InfLoopNZ));
    assert!(matches!(&ins[3], Instruction::Prune(_)));
    assert_eq!(block.to_string(), "mvf(0), mvf([1]), lnz, {+= 1, += 0}");
}

#[test]
fn loops_run() {
    // the finite part moves onto omega
    assert_eq!(run("{+= [1]}", "3"), Ok("3[1]".to_string()));
    // the finite part is cleared
    assert_eq!(run("{}", "[1]+5"), Ok("[1]".to_string()));
    // a loop whose body adds back a finite part never ends
    assert_eq!(run("{+= 2}", "1"), Err(ExecutionError::InfiniteLoop));
    assert_eq!(run("{+= 2}", "[1]"), Ok("[1]".to_string()));
    // a loop that is run as written
    assert_eq!(run("{+= [1], += [2]}", "2"), Ok("2[2]+2[1]".to_string()));
}

#[test]
fn divisions_run() {
    assert_eq!(run("/ [1] > 2", "3[1]+1"), Ok("7".to_string()));
    assert_eq!(run("/ 1 > [1]", "3"), Ok("3[1]".to_string()));
    assert_eq!(run("/ [1]+1 > 0", "[1]"), Err(ExecutionError::DivisionDoesNotFit));
}

#[test]
fn step_budget() {
    let block = parse_dc_source("{+= 1, += 0}").unwrap();
    let mut interp = Interpreter::new();
    interp.set_xi(lit("1"));
    assert_eq!(interp.execute_bounded(&block, 10), Err(ExecutionError::StepLimitReached));
    let mut interp = Interpreter::new();
    interp.set_xi(lit("0"));
    assert_eq!(interp.execute_bounded(&block, 0), Ok(()));
}

#[test]
fn listings() {
    let block = parse_dc_source("+= 1, / [1] > 2, {+= [1], += 1}").unwrap();
    assert_eq!(block.to_string(), "+= 1, / [1] > 2, {+= [1], += 1}");
    let tex = block.as_tex();
    assert_eq!(
        tex,
        "* $\\xi \\leftarrow \\xi + 1$\n* $\\xi \\leftarrow \\xi \\Big/ \\left(\\omega \\rightarrow 2\\right) $\n* while $\\xi = \\alpha + 1$: do $\\xi \\leftarrow \\alpha$ \n    * $\\xi \\leftarrow \\xi + \\omega$\n    * $\\xi \\leftarrow \\xi + 1$"
    );
    let by_one = parse_dc_source("/ 1 > [1]").unwrap();
    assert_eq!(by_one.as_tex(), "* $\\xi \\leftarrow (\\xi \\cdot \\omega)$");
    let moves = parse_dc_source("{}, {+= [1]}, {+= 1}").unwrap();
    assert_eq!(
        moves.as_tex_inner(1),
        "    * $\\xi \\leftarrow \\lfloor \\xi \\rfloor$\n    * \\xi \\leftarrow \\lfloor \\xi \\rfloor + \\operatorname{finite}(\\xi) \\cdot \\left(\\omega\\right)$\n    * if $\\xi = \\alpha + 1$, infinite loop"
    );
}

#[test]
fn compiled_programs() {
    let program = compile("+= [1], += 2".to_string()).ok().unwrap();
    assert_eq!(program.as_assembly(), "+= [1], += 2");
    assert_eq!(program.run_on_zero().ok().unwrap().to_string(), "[1]+2");
    assert!(matches!(compile("/ 0 > 0".to_string()), Err(CompilationError::DivisionByZero)));
    let looping = compile("{+= 1}, += 1, {+= 1}".to_string()).ok().unwrap();
    assert!(matches!(looping.run_on_zero(), Err(ExecutionError::InfiniteLoop)));
    let _ = Natural::zero();
}

#[test]
fn more_budget_same_result() {
    let block = parse_dc_source("{+= [1], += [2]}, += 3").unwrap();
    let mut small = Interpreter::new();
    small.set_xi(lit("4"));
    assert_eq!(small.execute_bounded(&block, 4), Ok(()));
    let mut large = Interpreter::new();
    large.set_xi(lit("4"));
    assert_eq!(large.execute_bounded(&block, 1000), Ok(()));
    assert_eq!(small.get_xi(), large.get_xi());
    assert_eq!(small.get_xi().to_string(), "4[2]+4[1]+3");
    let mut short = Interpreter::new();
    short.set_xi(lit("4"));
    assert_eq!(short.execute_bounded(&block, 3), Err(ExecutionError::StepLimitReached));
}

#[test]
fn printed_dendrons_read_back() {
    for s in ["0", "7", "[1]", "3[[1]+2]+[2]+4", "[[[1]]]+[1]+1", "18446744073709551616[5]"] {
        let d = lit(s);
        assert_eq!(parse_literal_source(&d.to_string()).unwrap(), d);
        assert_eq!(d.to_string(), s);
    }
}

fn run_bounded(program: &str, input: &str, steps: u64) -> (Result<(), ExecutionError>, String) {
    let block = parse_dc_source(program).unwrap();
    let mut interp = Interpreter::new();
    interp.set_xi(lit(input));
    let r = interp.execute_bounded(&block, steps);
    (r, interp.get_xi().to_string())
}

#[test]
fn optimisation_keeps_meaning() {
    // "+= 0" does nothing, but a second instruction keeps the loop from being optimised
    for input in ["0", "5", "[1]+3", "2[[1]]+[2]+7"] {
        assert_eq!(run_bounded("{}", input, 100), run_bounded("{+= 0, += 0}", input, 100));
        assert_eq!(run_bounded("{+= [1]}", input, 100), run_bounded("{+= [1], += 0}", input, 100));
        assert_eq!(run_bounded("{+= 3[2]}", input, 100), run_bounded("{+= 3[2], += 0}", input, 100));
    }
    // a loop that adds back a finite part: without a finite part both leave the value
    assert_eq!(run_bounded("{+= 2}", "[1]", 100), run_bounded("{+= 2, += 0}", "[1]", 100));
    // with one the written loop runs until the budget is gone; the optimised one stops at once
    assert_eq!(run_bounded("{+= 2, += 0}", "1", 100).0, Err(ExecutionError::StepLimitReached));
    assert_eq!(run_bounded("{+= 2}", "1", 100).0, Err(ExecutionError::InfiniteLoop));
}

#[test]
fn triangular_numbers() {
    // For input n: each round takes one from the counter k, copies k onto w and w^w,
    // adds one more w^w, and shifts the w copy back into the counter (dividing by w
    // leaves w^w alone); at the end w^w is turned into a finite number.
    let program = "{{+= [1]+[[1]]}, += [[1]], / [1] > 1}, / [[1]] > 1";
    assert_eq!(run(program, "8"), Ok("36".to_string()));
    assert_eq!(run(program, "1"), Ok("1".to_string()));
    assert_eq!(run(program, "0"), Ok("0".to_string()));
    assert_eq!(run(program, "100"), Ok("5050".to_string()));
}

#[test]
fn nesting_depth() {
    let block = parse_dc_source("+= 1, {{+= 1, += 0}, += 0}, {}").unwrap();
    assert!(block.depth_at_most(2));
    assert!(!block.depth_at_most(1));
    assert!(block.tex_fits(0));
    assert!(!block.tex_fits(usize::MAX / 4));
    assert!(parse_dc_source("+= 1").unwrap().depth_at_most(0));
}
