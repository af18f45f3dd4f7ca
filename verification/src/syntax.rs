//! The grammar of Dendritic Calculus, as functions on the characters of the source.
//!
//! ```text
//! literal     = term ("+" term)*
//! term        = nat exp | exp | nat        (nat exp is the product nat * exp)
//! exp         = "[" literal? "]"          (omega to the power of the literal; "[]" is one)
//! nat         = digit+
//! program     = block
//! block       = (instruction ","?)*
//! instruction = "+=" literal | "/" literal ">" literal | "{" block "}"
//! ```
//! Spaces, tabs and line breaks may stand between tokens; a literal is the
//! natural sum of its terms.
use vstd::prelude::*;
use crate::cnf::{Cnf, cnf_zero, cnf_nat, cnf_exp, cnf_add, cnf_mul, wf, cnf_finite};
use crate::natural::decimal_value;

verus! {

pub open spec fn is_space(c: char) -> bool {
    c == ' ' || c == '\t' || c == '\n' || c == '\r'
}

pub open spec fn is_digit(c: char) -> bool {
    '0' <= c <= '9'
}

/// The character at `p` is `c`.
pub open spec fn at(s: Seq<char>, p: int, c: char) -> bool {
    0 <= p < s.len() && s[p] == c
}

/// A term can start at `p`.
pub open spec fn term_start(s: Seq<char>, p: int) -> bool {
    0 <= p < s.len() && (is_digit(s[p]) || s[p] == '[')
}

/// The first position from `p` on that holds no white space.
pub open spec fn skip_ws(s: Seq<char>, p: int) -> int
    decreases s.len() - p,
{
    if 0 <= p < s.len() && is_space(s[p]) {
        skip_ws(s, p + 1)
    } else {
        p
    }
}

/// The first position from `p` on that holds no digit.
pub open spec fn digits_end(s: Seq<char>, p: int) -> int
    decreases s.len() - p,
{
    if 0 <= p < s.len() && is_digit(s[p]) {
        digits_end(s, p + 1)
    } else {
        p
    }
}

pub proof fn lemma_skip_ws(s: Seq<char>, p: int)
    requires
        0 <= p <= s.len(),
    ensures
        p <= skip_ws(s, p) <= s.len(),
        skip_ws(s, p) < s.len() ==> !is_space(s[skip_ws(s, p)]),
    decreases s.len() - p,
{
    if p < s.len() && is_space(s[p]) {
        lemma_skip_ws(s, p + 1);
    }
}

pub proof fn lemma_digits_end(s: Seq<char>, p: int)
    requires
        0 <= p <= s.len(),
    ensures
        p <= digits_end(s, p) <= s.len(),
        forall|i: int| p <= i < digits_end(s, p) ==> is_digit(#[trigger] s[i]),
        digits_end(s, p) < s.len() ==> !is_digit(s[digits_end(s, p)]),
    decreases s.len() - p,
{
    if p < s.len() && is_digit(s[p]) {
        lemma_digits_end(s, p + 1);
    }
}

// ------------------------------------------------------------------
// Literals. A successful parse gives the value and the position after it;
// a failed one the position where it failed.
// ------------------------------------------------------------------

/// `literal` at `p`.
pub open spec fn parse_literal(s: Seq<char>, p: int) -> Result<(Cnf, int), int>
    decreases s.len() - p, 3int,
{
    if p < 0 || p > s.len() {
        Err(p)
    } else {
        match parse_term(s, p) {
            Err(e) => Err(e),
            Ok((v, q)) => if p < q <= s.len() {
                parse_more_terms(s, q, v)
            } else {
                Err(p)
            },
        }
    }
}

/// The rest `("+" term)*` of a literal at `p`, the terms so far summing to `acc`.
pub open spec fn parse_more_terms(s: Seq<char>, p: int, acc: Cnf) -> Result<(Cnf, int), int>
    decreases s.len() - p, 4int,
{
    if p < 0 || p > s.len() {
        Err(p)
    } else {
        let q = skip_ws(s, p);
        let q2 = skip_ws(s, q + 1);
        if at(s, q, '+') && term_start(s, q2) {
            proof {
                lemma_skip_ws(s, p);
                lemma_skip_ws(s, q + 1);
            }
            match parse_term(s, q2) {
                Err(e) => Err(e),
                Ok((v, q3)) => if q2 < q3 <= s.len() {
                    parse_more_terms(s, q3, cnf_add(acc, v))
                } else {
                    Err(q2)
                },
            }
        } else {
            Ok((acc, p))
        }
    }
}

/// `term` at `p`.
pub open spec fn parse_term(s: Seq<char>, p: int) -> Result<(Cnf, int), int>
    decreases s.len() - p, 2int,
{
    if p < 0 || p > s.len() {
        Err(p)
    } else if 0 <= p < s.len() && is_digit(s[p]) {
        let q = digits_end(s, p);
        let n = decimal_value(s.subrange(p, q));
        let q2 = skip_ws(s, q);
        proof {
            lemma_digits_end(s, p);
            lemma_skip_ws(s, q);
        }
        if at(s, q2, '[') {
            match parse_exp(s, q2) {
                Err(e) => Err(e),
                Ok((e, q3)) => Ok((cnf_mul(cnf_nat(n), e), q3)),
            }
        } else {
            Ok((cnf_nat(n), q))
        }
    } else if at(s, p, '[') {
        parse_exp(s, p)
    } else {
        Err(p)
    }
}

/// `exp` at `p`.
pub open spec fn parse_exp(s: Seq<char>, p: int) -> Result<(Cnf, int), int>
    decreases s.len() - p, 1int,
{
    if !at(s, p, '[') {
        Err(p)
    } else {
        let p1 = skip_ws(s, p + 1);
        proof {
            lemma_skip_ws(s, p + 1);
        }
        if at(s, p1, ']') {
            Ok((cnf_exp(cnf_zero()), p1 + 1))
        } else {
            match parse_literal(s, p1) {
                Err(e) => Err(e),
                Ok((v, p2)) => {
                    let p3 = skip_ws(s, p2);
                    if at(s, p3, ']') {
                        Ok((cnf_exp(v), p3 + 1))
                    } else {
                        Err(p3)
                    }
                },
            }
        }
    }
}

/// A whole source that is one literal, white space around it allowed.
pub open spec fn parse_literal_text(s: Seq<char>) -> Result<Cnf, int> {
    match parse_literal(s, skip_ws(s, 0)) {
        Err(e) => Err(e),
        Ok((v, q)) => if skip_ws(s, q) == s.len() {
            Ok(v)
        } else {
            Err(skip_ws(s, q))
        },
    }
}

// ------------------------------------------------------------------
// Programs.
// ------------------------------------------------------------------

/// The model of an instruction.
pub enum Op {
    /// `xi <- xi + k` (natural sum)
    Add(Cnf),
    /// `xi <- xi / (divisor > replacement)`
    Divsub(Cnf, Cnf),
    /// while `xi` has a finite part, take one from it and run the block
    Prune(Seq<Op>),
    /// move the finite part of `xi` onto the given dendron
    MoveFinite(Cnf),
    /// if `xi` has a finite part, the program would loop forever
    InfLoopNZ,
}

/// `block` at `p`, the instructions so far being `acc`; it ends before a "}" or
/// at the end of the source.
pub open spec fn parse_block(s: Seq<char>, p: int, acc: Seq<Op>) -> Result<(Seq<Op>, int), int>
    decreases s.len() - p, 2int,
{
    if p < 0 || p > s.len() {
        Err(p)
    } else {
        let q = skip_ws(s, p);
        proof {
            lemma_skip_ws(s, p);
        }
        if q == s.len() || at(s, q, '}') {
            Ok((acc, q))
        } else {
            match parse_instruction(s, q) {
                Err(e) => Err(e),
                Ok((op, q2)) => if q < q2 <= s.len() {
                    let q3 = skip_ws(s, q2);
                    let q4 = if at(s, q3, ',') { q3 + 1 } else { q2 };
                    proof {
                        lemma_skip_ws(s, q2);
                    }
                    parse_block(s, q4, acc.push(op))
                } else {
                    Err(q)
                },
            }
        }
    }
}

/// `instruction` at `p`.
pub open spec fn parse_instruction(s: Seq<char>, p: int) -> Result<(Op, int), int>
    decreases s.len() - p, 1int,
{
    if p < 0 || p > s.len() {
        Err(p)
    } else if at(s, p, '+') && at(s, p + 1, '=') {
        match parse_literal(s, skip_ws(s, p + 2)) {
            Err(e) => Err(e),
            Ok((k, q)) => Ok((Op::Add(k), q)),
        }
    } else if at(s, p, '/') {
        match parse_literal(s, skip_ws(s, p + 1)) {
            Err(e) => Err(e),
            Ok((d, q)) => {
                let q2 = skip_ws(s, q);
                if at(s, q2, '>') {
                    match parse_literal(s, skip_ws(s, q2 + 1)) {
                        Err(e) => Err(e),
                        Ok((r, q3)) => Ok((Op::Divsub(d, r), q3)),
                    }
                } else {
                    Err(q2)
                }
            },
        }
    } else if at(s, p, '{') {
        match parse_block(s, p + 1, Seq::empty()) {
            Err(e) => Err(e),
            Ok((b, q)) => if at(s, q, '}') {
                Ok((Op::Prune(b), q + 1))
            } else {
                Err(q)
            },
        }
    } else {
        Err(p)
    }
}

/// A whole source that is a program (its block must reach the end).
pub open spec fn parse_program_text(s: Seq<char>) -> Result<Seq<Op>, int> {
    match parse_block(s, 0, Seq::empty()) {
        Err(e) => Err(e),
        Ok((b, q)) => if q == s.len() {
            Ok(b)
        } else {
            Err(q)
        },
    }
}

/// Every dendron written in the block is in normal form, and every move goes onto
/// a dendron without finite part.
pub open spec fn block_wf(b: Seq<Op>) -> bool
    decreases b,
{
    b.len() == 0 || (op_wf(b[0]) && block_wf(b.drop_first()))
}

pub open spec fn op_wf(op: Op) -> bool
    decreases op,
{
    match op {
        Op::Add(k) => wf(k),
        Op::Divsub(d, r) => wf(d) && wf(r),
        Op::MoveFinite(d) => wf(d) && cnf_finite(d) == 0,
        Op::InfLoopNZ => true,
        Op::Prune(body) => block_wf(body),
    }
}

/// A block each of whose instructions is well-formed is well-formed.
pub proof fn lemma_block_wf(b: Seq<Op>)
    requires
        forall|i: int| 0 <= i < b.len() ==> op_wf(#[trigger] b[i]),
    ensures
        block_wf(b),
    decreases b.len(),
{
    if b.len() > 0 {
        assert forall|i: int| 0 <= i < b.drop_first().len() implies op_wf(#[trigger] b.drop_first()[i]) by {
            assert(b.drop_first()[i] == b[i + 1]);
        }
        lemma_block_wf(b.drop_first());
    }
}

/// The instructions of a well-formed block are well-formed.
pub proof fn lemma_block_wf_elems(b: Seq<Op>)
    requires
        block_wf(b),
    ensures
        forall|i: int| 0 <= i < b.len() ==> op_wf(#[trigger] b[i]),
    decreases b.len(),
{
    if b.len() > 0 {
        lemma_block_wf_elems(b.drop_first());
        assert forall|i: int| 0 <= i < b.len() implies op_wf(#[trigger] b[i]) by {
            if i > 0 {
                assert(b.drop_first()[i - 1] == b[i]);
            }
        }
    }
}

/// Some division in the block, at any depth, has the divisor zero.
pub open spec fn has_zero_divisor(b: Seq<Op>) -> bool
    decreases b,
{
    if b.len() == 0 {
        false
    } else {
        op_has_zero_divisor(b[0]) || has_zero_divisor(b.drop_first())
    }
}

pub open spec fn op_has_zero_divisor(op: Op) -> bool
    decreases op,
{
    match op {
        Op::Divsub(d, _) => d == cnf_zero(),
        Op::Prune(b) => has_zero_divisor(b),
        _ => false,
    }
}


// ------------------------------------------------------------------
// The optimisation applied to a parsed program.
// ------------------------------------------------------------------

/// Each instruction optimised.
pub open spec fn optimize_block(b: Seq<Op>) -> Seq<Op>
    decreases b, 1int,
{
    if b.len() == 0 {
        Seq::empty()
    } else {
        seq![optimize_op(b[0])] + optimize_block(b.drop_first())
    }
}

/// A prune loop is replaced by a simpler instruction where one does the same;
/// other instructions stay.
pub open spec fn optimize_op(op: Op) -> Op
    decreases op, 1int,
{
    match op {
        Op::Prune(body) => optimize_prune(body),
        _ => op,
    }
}

/// A prune loop with body `body`: with an empty body it only clears the finite
/// part (moves it onto zero); with a body `+= k` it moves the finite part onto `k`
/// when `k` has no finite part itself, and loops forever (when entered) when it has one;
/// otherwise the body is optimised.
pub open spec fn optimize_prune(body: Seq<Op>) -> Op
    decreases body, 2int,
{
    if body.len() == 0 {
        Op::MoveFinite(cnf_zero())
    } else if body.len() == 1 {
        match body[0] {
            Op::Add(k) => if crate::cnf::coeff(k, cnf_zero()) >= 1 {
                Op::InfLoopNZ
            } else {
                Op::MoveFinite(k)
            },
            _ => Op::Prune(optimize_block(body)),
        }
    } else {
        Op::Prune(optimize_block(body))
    }
}

// ------------------------------------------------------------------
// What the parser builds is in normal form.
// ------------------------------------------------------------------

proof fn lemma_nat_wf(n: nat)
    ensures
        crate::cnf::wf(cnf_nat(n)),
{
    assert(crate::cnf::wf(cnf_zero()));
}

pub proof fn lemma_parse_literal_wf(s: Seq<char>, p: int)
    ensures
        parse_literal(s, p) matches Ok((v, _)) ==> wf(v),
    decreases s.len() - p, 3int,
{
    if 0 <= p <= s.len() {
        lemma_parse_term_wf(s, p);
        if let Ok((v, q)) = parse_term(s, p) {
            if p < q <= s.len() {
                lemma_parse_more_terms_wf(s, q, v);
            }
        }
    }
}

pub proof fn lemma_parse_more_terms_wf(s: Seq<char>, p: int, acc: Cnf)
    requires
        wf(acc),
    ensures
        parse_more_terms(s, p, acc) matches Ok((v, _)) ==> wf(v),
    decreases s.len() - p, 4int,
{
    if 0 <= p <= s.len() {
        let q = skip_ws(s, p);
        let q2 = skip_ws(s, q + 1);
        if at(s, q, '+') && term_start(s, q2) {
            lemma_skip_ws(s, p);
            lemma_skip_ws(s, q + 1);
            lemma_parse_term_wf(s, q2);
            if let Ok((v, q3)) = parse_term(s, q2) {
                if q2 < q3 <= s.len() {
                    crate::cnf::lemma_add_wf(acc, v);
                    lemma_parse_more_terms_wf(s, q3, cnf_add(acc, v));
                }
            }
        }
    }
}

pub proof fn lemma_parse_term_wf(s: Seq<char>, p: int)
    ensures
        parse_term(s, p) matches Ok((v, _)) ==> wf(v),
    decreases s.len() - p, 2int,
{
    if 0 <= p < s.len() && is_digit(s[p]) {
        let q = digits_end(s, p);
        let n = decimal_value(s.subrange(p, q));
        let q2 = skip_ws(s, q);
        lemma_digits_end(s, p);
        lemma_skip_ws(s, q);
        lemma_nat_wf(n);
        if at(s, q2, '[') {
            lemma_parse_exp_wf(s, q2);
            if let Ok((e, _)) = parse_exp(s, q2) {
                crate::cnf::lemma_mul_wf(cnf_nat(n), e);
            }
        }
    } else if 0 <= p <= s.len() && at(s, p, '[') {
        lemma_parse_exp_wf(s, p);
    }
}

pub proof fn lemma_parse_exp_wf(s: Seq<char>, p: int)
    ensures
        parse_exp(s, p) matches Ok((v, _)) ==> wf(v),
    decreases s.len() - p, 1int,
{
    if at(s, p, '[') {
        let p1 = skip_ws(s, p + 1);
        lemma_skip_ws(s, p + 1);
        assert(wf(cnf_zero()));
        if !at(s, p1, ']') {
            lemma_parse_literal_wf(s, p1);
        }
    }
}

pub proof fn lemma_parse_block_wf(s: Seq<char>, p: int, acc: Seq<Op>)
    requires
        block_wf(acc),
    ensures
        parse_block(s, p, acc) matches Ok((b, _)) ==> block_wf(b),
    decreases s.len() - p, 2int,
{
    if 0 <= p <= s.len() {
        let q = skip_ws(s, p);
        lemma_skip_ws(s, p);
        if !(q == s.len() || at(s, q, '}')) {
            lemma_parse_instruction_wf(s, q);
            if let Ok((op, q2)) = parse_instruction(s, q) {
                if q < q2 <= s.len() {
                    let q3 = skip_ws(s, q2);
                    let q4 = if at(s, q3, ',') { q3 + 1 } else { q2 };
                    lemma_skip_ws(s, q2);
                    let acc2 = acc.push(op);
                    lemma_block_wf_elems(acc);
                    assert forall|i: int| 0 <= i < acc2.len() implies op_wf(#[trigger] acc2[i]) by {
                        if i < acc.len() {
                            assert(acc2[i] == acc[i]);
                        }
                    }
                    lemma_block_wf(acc2);
                    lemma_parse_block_wf(s, q4, acc2);
                }
            }
        }
    }
}

pub proof fn lemma_parse_instruction_wf(s: Seq<char>, p: int)
    ensures
        parse_instruction(s, p) matches Ok((op, _)) ==> op_wf(op),
    decreases s.len() - p, 1int,
{
    if 0 <= p <= s.len() {
        if at(s, p, '+') && at(s, p + 1, '=') {
            lemma_parse_literal_wf(s, skip_ws(s, p + 2));
        } else if at(s, p, '/') {
            lemma_parse_literal_wf(s, skip_ws(s, p + 1));
            if let Ok((d, q)) = parse_literal(s, skip_ws(s, p + 1)) {
                let q2 = skip_ws(s, q);
                lemma_parse_literal_wf(s, skip_ws(s, q2 + 1));
            }
        } else if at(s, p, '{') {
            assert(block_wf(Seq::<Op>::empty()));
            lemma_parse_block_wf(s, p + 1, Seq::empty());
        }
    }
}

} // verus!
