//! The parser: source text to dendrons and programs, following the grammar in
//! `syntax`.
use vstd::prelude::*;
use crate::cnf::{Cnf, cnf_zero, cnf_nat, cnf_exp, cnf_add, cnf_mul, cnf_finite, wf};
use crate::natural::{Natural, is_decimal};
use crate::dendrons::Dendron;
use crate::text::chars_to_string;
use crate::syntax::{
    is_space, is_digit, at, term_start, skip_ws, digits_end, lemma_skip_ws, lemma_digits_end,
    parse_literal, parse_more_terms, parse_term, parse_exp, parse_literal_text, Op, parse_block,
    parse_instruction, parse_program_text, has_zero_divisor, op_has_zero_divisor, optimize_block,
    optimize_op, optimize_prune, op_wf, block_wf, lemma_block_wf, lemma_block_wf_elems,
};

verus! {

/// The characters of the string.
pub(crate) fn str_chars(s: &str) -> (r: Vec<char>)
    ensures
        r@ == s@,
{
    broadcast use vstd::string::axiom_spec_iter;
    let mut v: Vec<char> = Vec::new();
    for c in iter: s.chars()
        invariant
            v@ == iter.seq().take(iter.index() as int),
    {
        v.push(c);
    }
    v
}

fn exec_skip_ws(s: &Vec<char>, p: usize) -> (r: usize)
    requires
        p <= s@.len(),
    ensures
        r == skip_ws(s@, p as int),
        p <= r <= s@.len(),
{
    proof {
        lemma_skip_ws(s@, p as int);
    }
    let mut q = p;
    while q < s.len() && (s[q] == ' ' || s[q] == '\t' || s[q] == '\n' || s[q] == '\r')
        invariant
            p <= q <= s@.len(),
            skip_ws(s@, q as int) == skip_ws(s@, p as int),
        decreases s@.len() - q,
    {
        q = q + 1;
    }
    q
}

fn exec_digits_end(s: &Vec<char>, p: usize) -> (r: usize)
    requires
        p <= s@.len(),
    ensures
        r == digits_end(s@, p as int),
{
    let mut q = p;
    while q < s.len() && '0' <= s[q] && s[q] <= '9'
        invariant
            p <= q <= s@.len(),
            digits_end(s@, q as int) == digits_end(s@, p as int),
        decreases s@.len() - q,
    {
        q = q + 1;
    }
    q
}

fn char_at(s: &Vec<char>, p: usize, c: char) -> (r: bool)
    ensures
        r == at(s@, p as int, c),
        s@.len() <= usize::MAX,
{
    let n = s.len();
    p < n && s[p] == c
}

fn exec_term_start(s: &Vec<char>, p: usize) -> (r: bool)
    ensures
        r == term_start(s@, p as int),
{
    p < s.len() && (('0' <= s[p] && s[p] <= '9') || s[p] == '[')
}

/// The decimal value of the digits `s[p..q]`.
fn exec_decimal(s: &Vec<char>, p: usize, q: usize) -> (r: Natural)
    requires
        p < q <= s@.len(),
        forall|i: int| p <= i < q ==> is_digit(#[trigger] s@[i]),
    ensures
        r@ == crate::natural::decimal_value(s@.subrange(p as int, q as int)),
{
    let mut v: Vec<char> = Vec::new();
    let mut i = p;
    while i < q
        invariant
            p <= i <= q <= s@.len(),
            v@ == s@.subrange(p as int, i as int),
        decreases q - i,
    {
        v.push(s[i]);
        i = i + 1;
        proof {
            assert(v@ =~= s@.subrange(p as int, i as int));
        }
    }
    let text = chars_to_string(&v);
    proof {
        assert(is_decimal(text@)) by {
            assert forall|k: int| 0 <= k < text@.len() implies '0' <= #[trigger] text@[k] <= '9' by {
                assert(text@[k] == s@[p + k]);
            }
        }
    }
    Natural::from_decimal(text.as_str())
}

/// `literal` at `p`.
fn literal_at(s: &Vec<char>, p: usize) -> (r: Result<(Dendron, usize), usize>)
    requires
        p <= s@.len(),
    ensures
        match r {
            Ok((v, q)) => parse_literal(s@, p as int) == Ok::<_, int>((v@, q as int)),
            Err(e) => parse_literal(s@, p as int) == Err::<(crate::cnf::Cnf, int), int>(e as int),
        },
        r matches Ok((_, q)) ==> p <= q <= s@.len(),
    decreases s@.len() - p, 3int,
{
    match term_at(s, p) {
        Err(e) => Err(e),
        Ok((v, q)) => {
            if p < q && q <= s.len() {
                more_terms_at(s, q, v)
            } else {
                Err(p)
            }
        },
    }
}

/// The rest `("+" term)*` of a literal at `p`, the terms so far summing to `acc`.
fn more_terms_at(s: &Vec<char>, p: usize, acc: Dendron) -> (r: Result<(Dendron, usize), usize>)
    requires
        p <= s@.len(),
    ensures
        match r {
            Ok((v, q)) => parse_more_terms(s@, p as int, acc@) == Ok::<_, int>((v@, q as int)),
            Err(e) => parse_more_terms(s@, p as int, acc@) == Err::<(crate::cnf::Cnf, int), int>(e as int),
        },
        r matches Ok((_, q)) ==> p <= q <= s@.len(),
    decreases s@.len() - p, 4int,
{
    let q = exec_skip_ws(s, p);
    if char_at(s, q, '+') {
        let q2 = exec_skip_ws(s, q + 1);
        if exec_term_start(s, q2) {
            match term_at(s, q2) {
                Err(e) => Err(e),
                Ok((v, q3)) => {
                    if q2 < q3 && q3 <= s.len() {
                        let sum = Dendron::add(&acc, &v);
                        more_terms_at(s, q3, sum)
                    } else {
                        Err(q2)
                    }
                },
            }
        } else {
            Ok((acc, p))
        }
    } else {
        proof {
            lemma_skip_ws(s@, p as int);
        }
        Ok((acc, p))
    }
}

/// `term` at `p`.
fn term_at(s: &Vec<char>, p: usize) -> (r: Result<(Dendron, usize), usize>)
    requires
        p <= s@.len(),
    ensures
        match r {
            Ok((v, q)) => parse_term(s@, p as int) == Ok::<_, int>((v@, q as int)),
            Err(e) => parse_term(s@, p as int) == Err::<(crate::cnf::Cnf, int), int>(e as int),
        },
        r matches Ok((_, q)) ==> p <= q <= s@.len(),
    decreases s@.len() - p, 2int,
{
    if p < s.len() && '0' <= s[p] && s[p] <= '9' {
        let q = exec_digits_end(s, p);
        proof {
            lemma_digits_end(s@, p as int);
        }
        let n = exec_decimal(s, p, q);
        let q2 = exec_skip_ws(s, q);
        if char_at(s, q2, '[') {
            match exp_at(s, q2) {
                Err(e) => Err(e),
                Ok((e, q3)) => {
                    let m = Dendron::mul(Dendron::from_int(n), e);
                    Ok((m, q3))
                },
            }
        } else {
            Ok((Dendron::from_int(n), q))
        }
    } else if char_at(s, p, '[') {
        exp_at(s, p)
    } else {
        Err(p)
    }
}

/// `exp` at `p`.
fn exp_at(s: &Vec<char>, p: usize) -> (r: Result<(Dendron, usize), usize>)
    requires
        p <= s@.len(),
    ensures
        match r {
            Ok((v, q)) => parse_exp(s@, p as int) == Ok::<_, int>((v@, q as int)),
            Err(e) => parse_exp(s@, p as int) == Err::<(crate::cnf::Cnf, int), int>(e as int),
        },
        r matches Ok((_, q)) ==> p <= q <= s@.len(),
    decreases s@.len() - p, 1int,
{
    if !char_at(s, p, '[') {
        return Err(p);
    }
    let p1 = exec_skip_ws(s, p + 1);
    if char_at(s, p1, ']') {
        return Ok((Dendron::exp(Dendron::zero()), p1 + 1));
    }
    match literal_at(s, p1) {
        Err(e) => Err(e),
        Ok((v, p2)) => {
            let p3 = exec_skip_ws(s, p2);
            if char_at(s, p3, ']') {
                Ok((Dendron::exp(v), p3 + 1))
            } else {
                Err(p3)
            }
        },
    }
}


// ------------------------------------------------------------------
// Programs.
// ------------------------------------------------------------------

/// Why a source does not compile.
#[derive(PartialEq, Eq, Structural, Debug, Clone, Copy)]
pub enum CompilationError {
    /// The source does not follow the grammar; `position` is the index (in
    /// characters) where the parse failed.
    SyntaxError { position: usize },
    /// A division instruction whose divisor is zero.
    DivisionByZero,
}

/// The error type of compilation.
pub type Error = CompilationError;

/// One instruction of a program; the value it works on is called `xi`.
#[derive(Debug)]
pub enum Instruction {
    /// `xi <- xi + k` (natural sum)
    Add(Dendron),
    /// `xi <- xi / (divisor > replacement)`
    Divsub { divisor: Dendron, replacement: Dendron },
    /// While `xi` has a finite part, take one from it and run the block.
    Prune(CodeBlock),
    /// Move the finite part of `xi` onto the dendron (which has no finite part).
    MoveFinite(Dendron),
    /// When `xi` has a finite part the program cannot end.
    InfLoopNZ,
}

/// A compiled sequence of instructions.
#[derive(Debug)]
pub struct CodeBlock(Vec<Instruction>);

impl Instruction {
    pub open spec fn model(&self) -> Op
        decreases self,
    {
        match self {
            Instruction::Add(k) => Op::Add(k@),
            Instruction::Divsub { divisor, replacement } => Op::Divsub(divisor@, replacement@),
            Instruction::Prune(b) => Op::Prune(b.model()),
            Instruction::MoveFinite(d) => Op::MoveFinite(d@),
            Instruction::InfLoopNZ => Op::InfLoopNZ,
        }
    }
}

spec fn ops_model(v: Seq<Instruction>) -> Seq<Op>
    decreases v,
{
    if v.len() == 0 {
        Seq::empty()
    } else {
        ops_model(v.drop_last()).push(v.last().model())
    }
}

proof fn lemma_ops_model(v: Seq<Instruction>)
    ensures
        ops_model(v).len() == v.len(),
        forall|i: int| 0 <= i < v.len() ==> #[trigger] ops_model(v)[i] == v[i].model(),
    decreases v.len(),
{
    if v.len() > 0 {
        lemma_ops_model(v.drop_last());
        assert forall|i: int| 0 <= i < v.len() implies #[trigger] ops_model(v)[i] == v[i].model() by {
            if i < v.len() - 1 {
                assert(v.drop_last()[i] == v[i]);
            }
        }
    }
}

proof fn lemma_ops_model_eq(v: Seq<Instruction>, m: Seq<Op>)
    requires
        v.len() == m.len(),
        forall|i: int| 0 <= i < v.len() ==> #[trigger] v[i].model() == m[i],
    ensures
        ops_model(v) == m,
{
    lemma_ops_model(v);
    assert(ops_model(v) =~= m);
}

/// Every dendron of the instruction is in normal form, and a move-finite
/// instruction moves onto a dendron without finite part.
pub open spec fn instruction_wf(i: Instruction) -> bool {
    op_wf(i@)
}

impl CodeBlock {
    pub closed spec fn model(&self) -> Seq<Op>
        decreases self,
    {
        ops_model(self.0@)
    }

    #[verifier::type_invariant]
    spec fn inv(self) -> bool {
        forall|i: int| 0 <= i < self.0@.len() ==> instruction_wf(#[trigger] self.0@[i])
    }

    /// The instructions of the block.
    pub fn instructions(&self) -> (r: &Vec<Instruction>)
        ensures
            r@.len() == self@.len(),
            forall|i: int| 0 <= i < r@.len() ==> (#[trigger] r@[i])@ == self@[i] && instruction_wf(r@[i]),
    {
        proof {
            use_type_invariant(self);
            lemma_ops_model(self.0@);
        }
        &self.0
    }
}

impl View for Instruction {
    type V = Op;

    open spec fn view(&self) -> Op {
        self.model()
    }
}

impl View for CodeBlock {
    type V = Seq<Op>;

    open spec fn view(&self) -> Seq<Op> {
        self.model()
    }
}

/// `block` at `p`, after the instructions `acc`.
fn block_at(s: &Vec<char>, p: usize, acc: Vec<Instruction>) -> (r: Result<(Vec<Instruction>, usize), usize>)
    requires
        p <= s@.len(),
        forall|i: int| 0 <= i < acc@.len() ==> instruction_wf(#[trigger] acc@[i]),
    ensures
        match r {
            Ok((v, q)) => parse_block(s@, p as int, ops_model(acc@)) == Ok::<_, int>((ops_model(v@), q as int)),
            Err(e) => parse_block(s@, p as int, ops_model(acc@)) == Err::<(Seq<Op>, int), int>(e as int),
        },
        r matches Ok((v, q)) ==> q <= s@.len() && forall|i: int| 0 <= i < v@.len() ==> instruction_wf(#[trigger] v@[i]),
    decreases s@.len() - p, 2int,
{
    let q = exec_skip_ws(s, p);
    if q == s.len() || char_at(s, q, '}') {
        return Ok((acc, q));
    }
    match instruction_at(s, q) {
        Err(e) => Err(e),
        Ok((op, q2)) => {
            if q < q2 && q2 <= s.len() {
                let q3 = exec_skip_ws(s, q2);
                let q4 = if char_at(s, q3, ',') { q3 + 1 } else { q2 };
                let mut acc = acc;
                let ghost old_acc = acc@;
                acc.push(op);
                proof {
                    assert(acc@.drop_last() =~= old_acc);
                }
                block_at(s, q4, acc)
            } else {
                Err(q)
            }
        },
    }
}

/// `instruction` at `p`.
fn instruction_at(s: &Vec<char>, p: usize) -> (r: Result<(Instruction, usize), usize>)
    requires
        p <= s@.len(),
    ensures
        match r {
            Ok((op, q)) => parse_instruction(s@, p as int) == Ok::<_, int>((op@, q as int)),
            Err(e) => parse_instruction(s@, p as int) == Err::<(Op, int), int>(e as int),
        },
        r matches Ok((op, q)) ==> q <= s@.len() && instruction_wf(op),
    decreases s@.len() - p, 1int,
{
    if char_at(s, p, '+') && char_at(s, p + 1, '=') {
        let q = exec_skip_ws(s, p + 2);
        match literal_at(s, q) {
            Err(e) => Err(e),
            Ok((k, q1)) => {
                k.in_normal_form();
                Ok((Instruction::Add(k), q1))
            },
        }
    } else if char_at(s, p, '/') {
        let q = exec_skip_ws(s, p + 1);
        match literal_at(s, q) {
            Err(e) => Err(e),
            Ok((d, q1)) => {
                let q2 = exec_skip_ws(s, q1);
                if char_at(s, q2, '>') {
                    let q3 = exec_skip_ws(s, q2 + 1);
                    match literal_at(s, q3) {
                        Err(e) => Err(e),
                        Ok((rep, q4)) => {
                            d.in_normal_form();
                            rep.in_normal_form();
                            Ok((Instruction::Divsub { divisor: d, replacement: rep }, q4))
                        },
                    }
                } else {
                    Err(q2)
                }
            },
        }
    } else if char_at(s, p, '{') {
        let empty: Vec<Instruction> = Vec::new();
        proof {
            assert(ops_model(empty@) =~= Seq::<Op>::empty());
        }
        match block_at(s, p + 1, empty) {
            Err(e) => Err(e),
            Ok((b, q)) => {
                if char_at(s, q, '}') {
                    proof {
                        lemma_ops_model(b@);
                        lemma_block_wf(ops_model(b@));
                    }
                    let block = CodeBlock(b);
                    Ok((Instruction::Prune(block), q + 1))
                } else {
                    Err(q)
                }
            },
        }
    } else {
        Err(p)
    }
}

/// Whether some division of the block, at any depth, has the divisor zero.
fn block_has_zero_divisor(b: &CodeBlock) -> (r: bool)
    ensures
        r == has_zero_divisor(b@),
    decreases b@,
{
    let v = b.instructions();
    let n = v.len();
    let mut i: usize = 0;
    proof {
        assert(b@.skip(0) =~= b@);
    }
    while i < n
        invariant
            n == v@.len(),
            n == b@.len(),
            i <= n,
            forall|j: int| 0 <= j < v@.len() ==> (#[trigger] v@[j])@ == b@[j],
            has_zero_divisor(b@) == has_zero_divisor(b@.skip(i as int)),
        decreases n - i,
    {
        proof {
            assert(b@.skip(i as int)[0] == b@[i as int]);
            assert(b@.skip(i as int).drop_first() =~= b@.skip(i + 1));
        }
        match &v[i] {
            Instruction::Divsub { divisor, replacement } => {
                proof {
                    assert(v@[i as int]@ == Op::Divsub(divisor@, replacement@));
                    assert(b@[i as int] == Op::Divsub(divisor@, replacement@));
                }
                if divisor.is_zero() {
                    proof {
                        assert(op_has_zero_divisor(b@[i as int]));
                    }
                    return true;
                }
            },
            Instruction::Prune(inner) => {
                proof {
                    assert(v@[i as int]@ == Op::Prune(inner@));
                    assert(b@[i as int] == Op::Prune(inner@));
                    assert(decreases_to!(b@ => b@[i as int]));
                    assert(decreases_to!(b@[i as int] => b@[i as int]->Prune_0));
                }
                if block_has_zero_divisor(inner) {
                    proof {
                        assert(op_has_zero_divisor(b@[i as int]));
                    }
                    return true;
                }
            },
            Instruction::Add(k) => {
                proof {
                    assert(v@[i as int]@ == Op::Add(k@));
                }
            },
            Instruction::MoveFinite(k) => {
                proof {
                    assert(v@[i as int]@ == Op::MoveFinite(k@));
                }
            },
            Instruction::InfLoopNZ => {
                proof {
                    assert(v@[i as int]@ == Op::InfLoopNZ);
                }
            },
        }
        proof {
            assert(!op_has_zero_divisor(b@[i as int]));
            let t = b@.skip(i as int);
            assert(t.len() > 0);
            assert(has_zero_divisor(t) == (op_has_zero_divisor(t[0]) || has_zero_divisor(t.drop_first())));
        }
        i = i + 1;
    }
    proof {
        assert(b@.skip(n as int) =~= Seq::<Op>::empty());
    }
    false
}

/// A prune loop with body `inner`, optimised.
fn optimize_prune_exec(inner: CodeBlock) -> (r: Instruction)
    ensures
        r@ == optimize_prune(inner@),
        instruction_wf(r),
    decreases inner@, 2int,
{
    let n = inner.instructions().len();
    if n == 0 {
        let z = Dendron::zero();
        proof {
            assert(cnf_finite(z@) == 0);
            assert(wf(cnf_zero()));
        }
        return Instruction::MoveFinite(z);
    }
    if n == 1 {
        let is_add = match &inner.instructions()[0] {
            Instruction::Add(_) => true,
            _ => false,
        };
        if is_add {
            let k = match &inner.instructions()[0] {
                Instruction::Add(k) => k.duplicate(),
                _ => Dendron::zero(),
            };
            k.in_normal_form();
            let mut probe = k.duplicate();
            let has_finite = probe.try_decrement().is_some();
            if has_finite {
                return Instruction::InfLoopNZ;
            } else {
                return Instruction::MoveFinite(k);
            }
        }
    }
    let b = optimize_block_exec(inner);
    let ins = b.instructions();
    proof {
        assert forall|i: int| 0 <= i < b@.len() implies op_wf(#[trigger] b@[i]) by {
            assert(instruction_wf(ins@[i]));
        }
        lemma_block_wf(b@);
    }
    Instruction::Prune(b)
}

/// An instruction, optimised.
fn optimize_instruction(i: Instruction) -> (r: Instruction)
    requires
        instruction_wf(i),
    ensures
        r@ == optimize_op(i@),
        instruction_wf(r),
    decreases i@, 1int,
{
    match i {
        Instruction::Prune(inner) => {
            proof {
                assert(decreases_to!(i@ => inner@));
            }
            optimize_prune_exec(inner)
        },
        other => other,
    }
}

/// Every instruction of the block, optimised.
fn optimize_block_exec(b: CodeBlock) -> (r: CodeBlock)
    ensures
        r@ == optimize_block(b@),
    decreases b@, 1int,
{
    proof {
        use_type_invariant(&b);
        lemma_ops_model(b.0@);
    }
    let ghost bm = b@;
    proof {
        lemma_optimize_block(bm);
    }
    let CodeBlock(mut v) = b;
    let n = v.len();
    let mut out: Vec<Instruction> = Vec::new();
    let mut i: usize = 0;
    while i < n
        invariant
            n == bm.len(),
            bm == b@,
            i <= n,
            v@.len() == n - i,
            forall|j: int| 0 <= j < v@.len() ==> (#[trigger] v@[j])@ == bm[i + j] && instruction_wf(v@[j]),
            out@.len() == i,
            forall|j: int| 0 <= j < i ==> (#[trigger] out@[j])@ == optimize_block(bm)[j] && instruction_wf(out@[j]),
            optimize_block(bm).len() == n,
            forall|j: int| 0 <= j < n ==> #[trigger] optimize_block(bm)[j] == optimize_op(bm[j]),
        decreases n - i,
    {
        let first = v.remove(0);
        proof {
            assert(first@ == bm[i as int]);
            assert(decreases_to!(bm => bm[i as int]));
        }
        let o = optimize_instruction(first);
        out.push(o);
        i = i + 1;
    }
    proof {
        lemma_optimize_block(bm);
        lemma_ops_model_eq(out@, optimize_block(bm));
    }
    CodeBlock(out)
}

proof fn lemma_optimize_block(b: Seq<Op>)
    ensures
        optimize_block(b).len() == b.len(),
        forall|j: int| 0 <= j < b.len() ==> #[trigger] optimize_block(b)[j] == optimize_op(b[j]),
    decreases b.len(),
{
    if b.len() > 0 {
        lemma_optimize_block(b.drop_first());
        assert forall|j: int| 0 <= j < b.len() implies #[trigger] optimize_block(b)[j] == optimize_op(b[j]) by {
            if j > 0 {
                assert(b.drop_first()[j - 1] == b[j]);
            }
        }
    }
}

/// What compiling a source gives: its program, optimised, or why it does not compile.
pub open spec fn compile_spec(s: Seq<char>) -> Result<Seq<Op>, CompilationError> {
    match parse_program_text(s) {
        Err(e) => Err(CompilationError::SyntaxError { position: e as usize }),
        Ok(b) => if has_zero_divisor(b) {
            Err(CompilationError::DivisionByZero)
        } else {
            Ok(optimize_block(b))
        },
    }
}

/// What reading a literal source gives: its value, or the position where it fails.
pub open spec fn literal_spec(s: Seq<char>) -> Result<Cnf, CompilationError> {
    match parse_literal_text(s) {
        Err(e) => Err(CompilationError::SyntaxError { position: e as usize }),
        Ok(v) => Ok(v),
    }
}

/// Reads a source that is one literal (white space around it allowed).
pub fn parse_literal_source(src: &str) -> (r: Result<Dendron, CompilationError>)
    ensures
        match (r, literal_spec(src@)) {
            (Ok(d), Ok(v)) => d@ == v,
            (Err(e), Err(f)) => e == f,
            _ => false,
        },
{
    let s = str_chars(src);
    let p0 = exec_skip_ws(&s, 0);
    match literal_at(&s, p0) {
        Err(e) => Err(CompilationError::SyntaxError { position: e }),
        Ok((v, q)) => {
            let q2 = exec_skip_ws(&s, q);
            if q2 == s.len() {
                Ok(v)
            } else {
                Err(CompilationError::SyntaxError { position: q2 })
            }
        },
    }
}

/// Compiles a program: parses it, rejects a division by zero, and optimises it.
pub fn parse_dc_source(src: &str) -> (r: Result<CodeBlock, CompilationError>)
    ensures
        match (r, compile_spec(src@)) {
            (Ok(b), Ok(m)) => b@ == m,
            (Err(e), Err(f)) => e == f,
            _ => false,
        },
{
    let s = str_chars(src);
    let empty: Vec<Instruction> = Vec::new();
    proof {
        assert(ops_model(empty@) =~= Seq::<Op>::empty());
    }
    match block_at(&s, 0, empty) {
        Err(e) => Err(CompilationError::SyntaxError { position: e }),
        Ok((v, q)) => {
            if q != s.len() {
                return Err(CompilationError::SyntaxError { position: q });
            }
            let block = CodeBlock(v);
            if block_has_zero_divisor(&block) {
                return Err(CompilationError::DivisionByZero);
            }
            Ok(optimize_block_exec(block))
        },
    }
}

} // verus!
