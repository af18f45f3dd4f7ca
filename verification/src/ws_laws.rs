//! White space between tokens: a space, tab, line break or carriage return put
//! between two tokens of a literal or a program changes nothing it reads as.
use vstd::prelude::*;
use crate::cnf::{Cnf, cnf_zero, cnf_nat, cnf_exp, cnf_add, cnf_mul};
use crate::natural::decimal_value;
use crate::syntax::{
    is_digit, at, term_start, skip_ws, digits_end, lemma_skip_ws, lemma_digits_end, parse_literal,
    parse_more_terms, parse_term, parse_exp, parse_literal_text, Op, parse_block, parse_instruction,
    parse_program_text,
};
use crate::parsing::compile_spec;

verus! {

/// A blank: space, tab, line break or carriage return.
pub open spec fn blank(x: char) -> bool {
    x == ' ' || x == '\t' || x == '\n' || x == '\r'
}

/// `s` with `x` put at position `m`.
pub open spec fn insert_char(s: Seq<char>, m: int, x: char) -> Seq<char> {
    s.take(m) + seq![x] + s.skip(m)
}

/// Position `m` is not inside a token: it does not split a number or "+=".
pub open spec fn between_tokens(s: Seq<char>, m: int) -> bool {
    &&& !(0 < m < s.len() && '0' <= s[m - 1] <= '9' && '0' <= s[m] <= '9')
    &&& !(0 < m < s.len() && s[m - 1] == '+' && s[m] == '=')
}

/// Where a position at which something starts moves to.
pub open spec fn st(m: int, q: int) -> int {
    if q < m { q } else { q + 1 }
}

/// Where a position at which something ends moves to.
pub open spec fn en(m: int, q: int) -> int {
    if q <= m { q } else { q + 1 }
}

/// The context of the lemmas: `x` is a blank put between tokens of `s`.
pub open spec fn ctx(s: Seq<char>, m: int, x: char) -> bool {
    &&& 0 <= m <= s.len()
    &&& blank(x)
    &&& between_tokens(s, m)
}

proof fn lemma_chars(s: Seq<char>, m: int, x: char)
    requires
        0 <= m <= s.len(),
    ensures
        insert_char(s, m, x).len() == s.len() + 1,
        insert_char(s, m, x)[m] == x,
        forall|q: int| 0 <= q < s.len() ==> #[trigger] insert_char(s, m, x)[st(m, q)] == s[q],
{
    let t = insert_char(s, m, x);
    assert forall|q: int| 0 <= q < s.len() implies #[trigger] t[st(m, q)] == s[q] by {
        if q < m {
            assert(t[q] == s.take(m)[q]);
        } else {
            assert(t[q + 1] == s.skip(m)[q - m]);
        }
    }
}

proof fn lemma_at(s: Seq<char>, m: int, x: char, q: int, c: char)
    requires
        ctx(s, m, x),
        0 <= q <= s.len(),
        !blank(c),
    ensures
        at(insert_char(s, m, x), st(m, q), c) == at(s, q, c),
{
    lemma_chars(s, m, x);
    if q < s.len() {
        assert(insert_char(s, m, x)[st(m, q)] == s[q]);
    }
}

/// White space is skipped over the blank too.
proof fn lemma_skip(s: Seq<char>, m: int, x: char, p: int)
    requires
        ctx(s, m, x),
        0 <= p <= s.len(),
    ensures
        skip_ws(insert_char(s, m, x), st(m, p)) == st(m, skip_ws(s, p)),
        skip_ws(insert_char(s, m, x), en(m, p)) == st(m, skip_ws(s, p)),
    decreases s.len() - p,
{
    let t = insert_char(s, m, x);
    lemma_chars(s, m, x);
    lemma_skip_ws(s, p);
    if p < s.len() && crate::syntax::is_space(s[p]) {
        lemma_skip(s, m, x, p + 1);
        assert(t[st(m, p)] == s[p]);
        assert(st(m, p) + 1 == en(m, p + 1));
    } else {
        if p < s.len() {
            assert(t[st(m, p)] == s[p]);
        }
    }
    if p == m {
        assert(t[m] == x);
        assert(crate::syntax::is_space(x));
        assert(skip_ws(t, m) == skip_ws(t, m + 1));
        assert(st(m, p) == m + 1);
    }
}

/// A run of digits that starts a term ends where it did, moved.
proof fn lemma_digits(s: Seq<char>, m: int, x: char, p: int)
    requires
        ctx(s, m, x),
        0 <= p < s.len(),
        is_digit(s[p]),
    ensures
        digits_end(insert_char(s, m, x), st(m, p)) == en(m, digits_end(s, p)),
        insert_char(s, m, x).subrange(st(m, p), en(m, digits_end(s, p))) == s.subrange(p, digits_end(s, p)),
    decreases s.len() - p,
{
    let t = insert_char(s, m, x);
    lemma_chars(s, m, x);
    lemma_digits_end(s, p);
    lemma_digits_end(s, p + 1);
    let d = digits_end(s, p);
    assert(t[st(m, p)] == s[p]);
    if p + 1 < s.len() && is_digit(s[p + 1]) {
        lemma_digits(s, m, x, p + 1);
        if p + 1 == m {
            assert(false);
        }
        assert(st(m, p) + 1 == st(m, p + 1));
        assert(t.subrange(st(m, p), en(m, d)) =~= seq![s[p]] + t.subrange(st(m, p + 1), en(m, d)));
        assert(s.subrange(p, d) =~= seq![s[p]] + s.subrange(p + 1, d));
    } else {
        assert(d == p + 1);
        // the run ends at p + 1; in t the next character is the blank or the next of s
        if p + 1 == m {
            assert(t[m] == x);
        } else if p + 1 < s.len() {
            assert(t[st(m, p + 1)] == s[p + 1]);
        }
        assert(st(m, p) + 1 == en(m, p + 1));
        assert(digits_end(t, st(m, p) + 1) == st(m, p) + 1);
        assert(t.subrange(st(m, p), en(m, d)) =~= seq![s[p]]);
        assert(s.subrange(p, d) =~= seq![s[p]]);
    }
}

pub proof fn lemma_literal(s: Seq<char>, m: int, x: char, p: int)
    requires
        ctx(s, m, x),
        0 <= p <= s.len(),
    ensures
        parse_literal(s, p) matches Ok((v, q)) ==> parse_literal(insert_char(s, m, x), st(m, p)) == Ok::<(Cnf, int), int>((v, en(m, q))),
    decreases s.len() - p, 3int,
{
    let t = insert_char(s, m, x);
    lemma_chars(s, m, x);
    lemma_term(s, m, x, p);
    if let Ok((v, q)) = parse_term(s, p) {
        if p < q <= s.len() {
            lemma_more(s, m, x, q, v);
        }
    }
}

pub proof fn lemma_more(s: Seq<char>, m: int, x: char, p: int, acc: Cnf)
    requires
        ctx(s, m, x),
        0 <= p <= s.len(),
    ensures
        parse_more_terms(s, p, acc) matches Ok((v, q)) ==> parse_more_terms(insert_char(s, m, x), en(m, p), acc) == Ok::<(Cnf, int), int>((v, en(m, q))),
    decreases s.len() - p, 4int,
{
    let t = insert_char(s, m, x);
    lemma_chars(s, m, x);
    lemma_skip_ws(s, p);
    lemma_skip(s, m, x, p);
    let q = skip_ws(s, p);
    lemma_at(s, m, x, q, '+');
    if at(s, q, '+') {
        lemma_skip_ws(s, q + 1);
        lemma_skip(s, m, x, q + 1);
        assert(st(m, q) + 1 == en(m, q + 1));
        let q2 = skip_ws(s, q + 1);
        if q2 < s.len() {
            assert(t[st(m, q2)] == s[q2]);
        }
        assert(term_start(t, st(m, q2)) == term_start(s, q2));
        if term_start(s, q2) {
            lemma_term(s, m, x, q2);
            if let Ok((v, q3)) = parse_term(s, q2) {
                if q2 < q3 <= s.len() {
                    lemma_more(s, m, x, q3, cnf_add(acc, v));
                }
            }
        }
    }
}

pub proof fn lemma_term(s: Seq<char>, m: int, x: char, p: int)
    requires
        ctx(s, m, x),
        0 <= p <= s.len(),
    ensures
        parse_term(s, p) matches Ok((v, q)) ==> parse_term(insert_char(s, m, x), st(m, p)) == Ok::<(Cnf, int), int>((v, en(m, q))),
    decreases s.len() - p, 2int,
{
    let t = insert_char(s, m, x);
    lemma_chars(s, m, x);
    if p < s.len() {
        assert(t[st(m, p)] == s[p]);
    }
    if 0 <= p < s.len() && is_digit(s[p]) {
        let d = digits_end(s, p);
        lemma_digits_end(s, p);
        lemma_digits(s, m, x, p);
        lemma_skip_ws(s, d);
        lemma_skip(s, m, x, d);
        let q2 = skip_ws(s, d);
        lemma_at(s, m, x, q2, '[');
        if at(s, q2, '[') {
            lemma_exp(s, m, x, q2);
        }
    } else {
        lemma_at(s, m, x, p, '[');
        if at(s, p, '[') {
            lemma_exp(s, m, x, p);
        }
    }
}

pub proof fn lemma_exp(s: Seq<char>, m: int, x: char, p: int)
    requires
        ctx(s, m, x),
        0 <= p <= s.len(),
    ensures
        parse_exp(s, p) matches Ok((v, q)) ==> parse_exp(insert_char(s, m, x), st(m, p)) == Ok::<(Cnf, int), int>((v, en(m, q))),
    decreases s.len() - p, 1int,
{
    let t = insert_char(s, m, x);
    lemma_chars(s, m, x);
    lemma_at(s, m, x, p, '[');
    if at(s, p, '[') {
        lemma_skip_ws(s, p + 1);
        lemma_skip(s, m, x, p + 1);
        assert(st(m, p) + 1 == en(m, p + 1));
        let p1 = skip_ws(s, p + 1);
        lemma_at(s, m, x, p1, ']');
        assert(st(m, p1) + 1 == en(m, p1 + 1));
        if !at(s, p1, ']') {
            lemma_literal(s, m, x, p1);
            if let Ok((v, p2)) = parse_literal(s, p1) {
                crate::syntax::lemma_parse_literal_wf(s, p1);
                lemma_literal_end(s, p1);
                lemma_skip_ws(s, p2);
                lemma_skip(s, m, x, p2);
                let p3 = skip_ws(s, p2);
                lemma_at(s, m, x, p3, ']');
                assert(st(m, p3) + 1 == en(m, p3 + 1));
            }
        }
    }
}

/// A literal that is read ends within the source.
proof fn lemma_literal_end(s: Seq<char>, p: int)
    requires
        0 <= p <= s.len(),
    ensures
        parse_literal(s, p) matches Ok((_, q)) ==> p < q <= s.len(),
    decreases s.len() - p, 3int,
{
    lemma_term_end(s, p);
    if let Ok((v, q)) = parse_term(s, p) {
        if p < q <= s.len() {
            lemma_more_end(s, q, v);
        }
    }
}

proof fn lemma_more_end(s: Seq<char>, p: int, acc: Cnf)
    requires
        0 <= p <= s.len(),
    ensures
        parse_more_terms(s, p, acc) matches Ok((_, q)) ==> p <= q <= s.len(),
    decreases s.len() - p, 4int,
{
    let q = skip_ws(s, p);
    let q2 = skip_ws(s, q + 1);
    lemma_skip_ws(s, p);
    if at(s, q, '+') && term_start(s, q2) {
        lemma_skip_ws(s, q + 1);
        lemma_term_end(s, q2);
        if let Ok((v, q3)) = parse_term(s, q2) {
            if q2 < q3 <= s.len() {
                lemma_more_end(s, q3, cnf_add(acc, v));
            }
        }
    }
}

proof fn lemma_term_end(s: Seq<char>, p: int)
    requires
        0 <= p <= s.len(),
    ensures
        parse_term(s, p) matches Ok((_, q)) ==> p < q <= s.len(),
    decreases s.len() - p, 2int,
{
    if 0 <= p < s.len() && is_digit(s[p]) {
        let d = digits_end(s, p);
        lemma_digits_end(s, p);
        lemma_digits_end(s, p + 1);
        lemma_skip_ws(s, d);
        let q2 = skip_ws(s, d);
        if at(s, q2, '[') {
            lemma_exp_end(s, q2);
        }
    } else if at(s, p, '[') {
        lemma_exp_end(s, p);
    }
}

proof fn lemma_exp_end(s: Seq<char>, p: int)
    requires
        0 <= p <= s.len(),
    ensures
        parse_exp(s, p) matches Ok((_, q)) ==> p < q <= s.len(),
    decreases s.len() - p, 1int,
{
    if at(s, p, '[') {
        lemma_skip_ws(s, p + 1);
        let p1 = skip_ws(s, p + 1);
        if !at(s, p1, ']') {
            lemma_literal_end(s, p1);
            if let Ok((v, p2)) = parse_literal(s, p1) {
                lemma_skip_ws(s, p2);
            }
        }
    }
}

pub proof fn lemma_block(s: Seq<char>, m: int, x: char, p: int, acc: Seq<Op>)
    requires
        ctx(s, m, x),
        0 <= p <= s.len(),
    ensures
        parse_block(s, p, acc) matches Ok((b, q)) ==> parse_block(insert_char(s, m, x), en(m, p), acc) == Ok::<(Seq<Op>, int), int>((b, st(m, q))),
    decreases s.len() - p, 2int,
{
    let t = insert_char(s, m, x);
    lemma_chars(s, m, x);
    lemma_skip_ws(s, p);
    lemma_skip(s, m, x, p);
    let q = skip_ws(s, p);
    lemma_at(s, m, x, q, '}');
    if !(q == s.len() || at(s, q, '}')) {
        lemma_instruction(s, m, x, q);
        if let Ok((op, q2)) = parse_instruction(s, q) {
            if q < q2 <= s.len() {
                lemma_skip_ws(s, q2);
                lemma_skip(s, m, x, q2);
                let q3 = skip_ws(s, q2);
                lemma_at(s, m, x, q3, ',');
                assert(st(m, q3) + 1 == en(m, q3 + 1));
                let q4 = if at(s, q3, ',') { q3 + 1 } else { q2 };
                lemma_block(s, m, x, q4, acc.push(op));
            }
        }
    }
}

pub proof fn lemma_instruction(s: Seq<char>, m: int, x: char, p: int)
    requires
        ctx(s, m, x),
        0 <= p <= s.len(),
    ensures
        parse_instruction(s, p) matches Ok((op, q)) ==> parse_instruction(insert_char(s, m, x), st(m, p)) == Ok::<(Op, int), int>((op, en(m, q))),
    decreases s.len() - p, 1int,
{
    let t = insert_char(s, m, x);
    lemma_chars(s, m, x);
    lemma_at(s, m, x, p, '+');
    lemma_at(s, m, x, p, '/');
    lemma_at(s, m, x, p, '{');
    if p + 1 <= s.len() {
        lemma_at(s, m, x, p + 1, '=');
    }
    if at(s, p, '+') && at(s, p + 1, '=') {
        // the blank does not stand between "+" and "="
        assert(p + 1 != m);
        assert(st(m, p) + 1 == st(m, p + 1));
        assert(st(m, p) + 2 == en(m, p + 2));
        lemma_skip_ws(s, p + 2);
        lemma_skip(s, m, x, p + 2);
        lemma_literal(s, m, x, skip_ws(s, p + 2));
    } else if at(s, p, '/') {
        if at(s, p, '+') {
            assert(false);
        }
        assert(st(m, p) + 1 == en(m, p + 1));
        lemma_skip_ws(s, p + 1);
        lemma_skip(s, m, x, p + 1);
        let p1 = skip_ws(s, p + 1);
        lemma_literal(s, m, x, p1);
        if let Ok((d, q)) = parse_literal(s, p1) {
            lemma_literal_end(s, p1);
            lemma_skip_ws(s, q);
            lemma_skip(s, m, x, q);
            let q2 = skip_ws(s, q);
            lemma_at(s, m, x, q2, '>');
            if at(s, q2, '>') {
                assert(st(m, q2) + 1 == en(m, q2 + 1));
                lemma_skip_ws(s, q2 + 1);
                lemma_skip(s, m, x, q2 + 1);
                lemma_literal(s, m, x, skip_ws(s, q2 + 1));
            }
        }
    } else if at(s, p, '{') {
        if at(s, p, '+') {
            assert(false);
        }
        assert(st(m, p) + 1 == en(m, p + 1));
        lemma_block(s, m, x, p + 1, Seq::empty());
        if let Ok((b, q)) = parse_block(s, p + 1, Seq::empty()) {
            lemma_block_end(s, p + 1, Seq::empty());
            lemma_at(s, m, x, q, '}');
            assert(st(m, q) + 1 == en(m, q + 1));
        }
    } else {
        if at(s, p, '+') {
            assert(!at(s, p + 1, '='));
            if p + 1 <= s.len() {
                assert(at(t, st(m, p) + 1, '=') == false) by {
                    if p + 1 != m {
                        assert(st(m, p) + 1 == st(m, p + 1));
                    } else {
                        lemma_chars(s, m, x);
                        assert(t[m] == x);
                    }
                }
            }
        }
    }
}

/// A block that is read ends within the source.
proof fn lemma_block_end(s: Seq<char>, p: int, acc: Seq<Op>)
    requires
        0 <= p <= s.len(),
    ensures
        parse_block(s, p, acc) matches Ok((_, q)) ==> p <= q <= s.len(),
    decreases s.len() - p,
{
    lemma_skip_ws(s, p);
    let q = skip_ws(s, p);
    if !(q == s.len() || at(s, q, '}')) {
        if let Ok((op, q2)) = parse_instruction(s, q) {
            if q < q2 <= s.len() {
                lemma_skip_ws(s, q2);
                let q3 = skip_ws(s, q2);
                let q4 = if at(s, q3, ',') { q3 + 1 } else { q2 };
                lemma_block_end(s, q4, acc.push(op));
            }
        }
    }
}

/// Law: a blank (space, tab, line break, carriage return) put between two tokens
/// of a literal that reads changes nothing it reads as; in particular a line break
/// or a space may follow the literal or stand right after "[".
pub proof fn law_literal_blank(s: Seq<char>, m: int, x: char)
    requires
        0 <= m <= s.len(),
        blank(x),
        between_tokens(s, m),
        parse_literal_text(s) is Ok,
    ensures
        parse_literal_text(insert_char(s, m, x)) == parse_literal_text(s),
{
    let t = insert_char(s, m, x);
    lemma_chars(s, m, x);
    lemma_skip_ws(s, 0);
    lemma_skip(s, m, x, 0);
    assert(en(m, 0) == 0);
    let p0 = skip_ws(s, 0);
    lemma_literal(s, m, x, p0);
    if let Ok((v, q)) = parse_literal(s, p0) {
        lemma_literal_end(s, p0);
        lemma_skip_ws(s, q);
        lemma_skip(s, m, x, q);
        assert(st(m, s.len() as int) == t.len());
    }
}

/// Law: a blank (space, tab, line break, carriage return) put between two tokens
/// of a program that parses changes nothing it compiles to; in particular a program
/// file may end with a line break and may span several lines.
pub proof fn law_program_blank(s: Seq<char>, m: int, x: char)
    requires
        0 <= m <= s.len(),
        blank(x),
        between_tokens(s, m),
        parse_program_text(s) is Ok,
    ensures
        compile_spec(insert_char(s, m, x)) == compile_spec(s),
{
    let t = insert_char(s, m, x);
    lemma_chars(s, m, x);
    assert(en(m, 0) == 0);
    lemma_block(s, m, x, 0, Seq::empty());
    lemma_block_end(s, 0, Seq::empty());
    assert(parse_program_text(t) == parse_program_text(s)) by {
        if let Ok((b, q)) = parse_block(s, 0, Seq::empty()) {
            assert(st(m, q) == t.len() <==> q == s.len());
        }
    }
}

} // verus!
