//! Laws of the LaTeX notation: of a dendron, and of a program listing.
use vstd::prelude::*;
use crate::cnf::{Cnf, cnf_zero, cnf_nat, cnf_add, cnf_monomial, cnf_lt, merge, wf, lemma_lt_trans};
use crate::natural::decimal_chars;
use crate::syntax::Op;
use crate::text::{tex, tex_terms, tex_term, tex_power, tex_omega};
use crate::listing::{op_tex, block_tex, spaces};

verus! {

// ------------------------------------------------------------------
// Lines and indentation.
// ------------------------------------------------------------------

/// The text has no line break.
pub open spec fn one_line(x: Seq<char>) -> bool {
    forall|j: int| 0 <= j < x.len() ==> #[trigger] x[j] != '\n'
}

/// The text with four spaces put before each line that is not empty; `start` says
/// whether a line begins at the first character.
pub open spec fn indent_from(t: Seq<char>, start: bool) -> Seq<char>
    decreases t.len(),
{
    if t.len() == 0 {
        Seq::empty()
    } else if start && t[0] != '\n' {
        spaces(4) + seq![t[0]] + indent_from(t.drop_first(), false)
    } else {
        seq![t[0]] + indent_from(t.drop_first(), t[0] == '\n')
    }
}

/// The text with four spaces put before each line that is not empty.
pub open spec fn indent_lines(t: Seq<char>) -> Seq<char> {
    indent_from(t, true)
}

/// Whether a line begins after the text `x`, read from the state `start`.
pub open spec fn line_starts_after(x: Seq<char>, start: bool) -> bool {
    if x.len() == 0 {
        start
    } else {
        x.last() == '\n'
    }
}

proof fn lemma_indent_concat(x: Seq<char>, y: Seq<char>, start: bool)
    ensures
        indent_from(x + y, start) == indent_from(x, start) + indent_from(y, line_starts_after(x, start)),
    decreases x.len(),
{
    if x.len() == 0 {
        assert(x + y =~= y);
    } else {
        let xy = x + y;
        assert(xy[0] == x[0]);
        assert(xy.drop_first() =~= x.drop_first() + y);
        let next = if start && x[0] != '\n' { false } else { x[0] == '\n' };
        lemma_indent_concat(x.drop_first(), y, next);
        if x.len() > 1 {
            assert(x.drop_first().last() == x.last());
        }
        if start && x[0] != '\n' {
            assert(indent_from(xy, start) =~= spaces(4) + seq![x[0]] + indent_from(xy.drop_first(), false));
            assert(indent_from(x, start) =~= spaces(4) + seq![x[0]] + indent_from(x.drop_first(), false));
        } else {
            assert(indent_from(xy, start) =~= seq![x[0]] + indent_from(xy.drop_first(), x[0] == '\n'));
            assert(indent_from(x, start) =~= seq![x[0]] + indent_from(x.drop_first(), x[0] == '\n'));
        }
        assert(indent_from(xy, start) =~= indent_from(x, start) + indent_from(y, line_starts_after(x, start)));
    }
}

/// Inside a line nothing is indented.
proof fn lemma_indent_one_line(x: Seq<char>)
    requires
        one_line(x),
    ensures
        indent_from(x, false) == x,
        line_starts_after(x, false) == false,
    decreases x.len(),
{
    if x.len() > 0 {
        assert(x[0] != '\n');
        assert(one_line(x.drop_first())) by {
            assert forall|j: int| 0 <= j < x.drop_first().len() implies #[trigger] x.drop_first()[j] != '\n' by {
                assert(x.drop_first()[j] == x[j + 1]);
            }
        }
        lemma_indent_one_line(x.drop_first());
        assert(indent_from(x, false) =~= seq![x[0]] + x.drop_first());
        assert(x.last() != '\n');
    }
}

proof fn lemma_one_line_concat(x: Seq<char>, y: Seq<char>)
    requires
        one_line(x),
        one_line(y),
    ensures
        one_line(x + y),
{
    assert forall|j: int| 0 <= j < (x + y).len() implies #[trigger] (x + y)[j] != '\n' by {
        if j < x.len() {
            assert((x + y)[j] == x[j]);
        } else {
            assert((x + y)[j] == y[j - x.len()]);
        }
    }
}

proof fn lemma_decimal_one_line(n: nat)
    ensures
        one_line(decimal_chars(n)),
{
    crate::notation_laws::lemma_decimal_chars(n);
    assert forall|j: int| 0 <= j < decimal_chars(n).len() implies #[trigger] decimal_chars(n)[j] != '\n' by {
        assert(crate::syntax::is_digit(decimal_chars(n)[j]));
    }
}

/// The LaTeX of a dendron is one line.
pub proof fn lemma_tex_one_line(a: Cnf)
    ensures
        one_line(tex(a)),
    decreases a, 1int,
{
    if a.terms.len() > 0 {
        lemma_terms_one_line(a.terms);
    }
}

proof fn lemma_terms_one_line(s: Seq<(Cnf, nat)>)
    ensures
        one_line(tex_terms(s)),
    decreases s, 1int,
{
    if s.len() == 1 {
        lemma_term_one_line(s[0]);
    } else if s.len() > 1 {
        lemma_terms_one_line(s.drop_last());
        lemma_term_one_line(s.last());
        lemma_one_line_concat(tex_terms(s.drop_last()), seq!['+']);
        lemma_one_line_concat(tex_terms(s.drop_last()) + seq!['+'], tex_term(s.last()));
    }
}

proof fn lemma_term_one_line(t: (Cnf, nat))
    ensures
        one_line(tex_term(t)),
    decreases t, 1int,
{
    lemma_decimal_one_line(t.1);
    if t.0 != cnf_zero() {
        lemma_power_one_line(t.0);
        lemma_one_line_concat(decimal_chars(t.1), tex_power(t.0));
    }
}

proof fn lemma_power_one_line(e: Cnf)
    ensures
        one_line(tex_power(e)),
    decreases e, 2int,
{
    if e != cnf_zero() && e != cnf_nat(1) {
        lemma_tex_one_line(e);
        lemma_one_line_concat(tex_omega(), seq!['^', '{']);
        lemma_one_line_concat(tex_omega() + seq!['^', '{'], tex(e));
        lemma_one_line_concat(tex_omega() + seq!['^', '{'] + tex(e), seq!['}']);
    }
}

// ------------------------------------------------------------------
// The LaTeX of a dendron.
// ------------------------------------------------------------------

/// Law: the LaTeX of `c * omega^e` (with `c > 0`) shows the coefficient: it is the
/// decimal digits of `c` when `e` is zero; when `e` is not zero it begins with
/// "\" (the power) when `c` is one, and otherwise with the decimal digits of `c`
/// followed by "\".
pub proof fn law_tex_monomial(e: Cnf, c: nat)
    requires
        c > 0,
    ensures
        e == cnf_zero() ==> tex(cnf_monomial(e, c)) == decimal_chars(c),
        e != cnf_zero() && c == 1 ==> tex(cnf_monomial(e, c))[0] == '\\',
        e != cnf_zero() && c >= 2 ==> ({
            let t = tex(cnf_monomial(e, c));
            let k = decimal_chars(c).len();
            &&& t.len() > k
            &&& t.subrange(0, k as int) == decimal_chars(c)
            &&& t[k as int] == '\\'
        }),
{
    let m = cnf_monomial(e, c);
    assert(m.terms.len() == 1);
    assert(tex(m) == tex_term((e, c)));
    if e != cnf_zero() {
        let p = tex_power(e);
        assert(p.len() > 0 && p[0] == '\\');
        if c >= 2 {
            let d = decimal_chars(c);
            assert(tex(m) == d + p);
            assert((d + p).subrange(0, d.len() as int) =~= d);
            assert((d + p)[d.len() as int] == p[0]);
        }
    }
}

/// Law: the LaTeX of `c * omega^e` shows the exponent: "\\omega" alone for `e = 1`,
/// and otherwise (for `e` neither zero nor one) "\\omega^{", the LaTeX of `e`, "}";
/// in front stand the decimal digits of `c` unless `c` is one.
pub proof fn law_tex_power(e: Cnf, c: nat)
    requires
        c > 0,
        e != cnf_zero(),
    ensures
        ({
            let front = if c == 1 { Seq::<char>::empty() } else { decimal_chars(c) };
            &&& e == cnf_nat(1) ==> tex(cnf_monomial(e, c)) == front + tex_omega()
            &&& e != cnf_nat(1) ==> tex(cnf_monomial(e, c)) == front + tex_omega() + seq!['^', '{'] + tex(e) + seq!['}']
        }),
{
    let m = cnf_monomial(e, c);
    assert(m.terms.len() == 1);
    assert(tex(m) == tex_term((e, c)));
    if c == 1 {
        assert(Seq::<char>::empty() + tex_power(e) =~= tex_power(e));
    }
    if e != cnf_nat(1) {
        let front = if c == 1 { Seq::<char>::empty() } else { decimal_chars(c) };
        assert(front + (tex_omega() + seq!['^', '{'] + tex(e) + seq!['}']) =~= front + tex_omega() + seq!['^', '{'] + tex(e) + seq!['}']);
    }
}

/// Law: zero is written "0".
pub proof fn law_tex_zero()
    ensures
        tex(cnf_zero()) == seq!['0'],
{
}

proof fn lemma_merge_top(s: Seq<(Cnf, nat)>, x: (Cnf, nat))
    requires
        forall|i: int| 0 <= i < s.len() ==> cnf_lt(#[trigger] s[i].0, x.0),
    ensures
        merge(s, seq![x]) == s.push(x),
    decreases s.len(),
{
    if s.len() == 0 {
        assert(seq![x] =~= s.push(x));
    } else {
        assert(cnf_lt(s[0].0, x.0));
        assert forall|i: int| 0 <= i < s.drop_first().len() implies cnf_lt(#[trigger] s.drop_first()[i].0, x.0) by {
            assert(s.drop_first()[i] == s[i + 1]);
        }
        lemma_merge_top(s.drop_first(), x);
        assert(seq![s[0]] + s.drop_first().push(x) =~= s.push(x));
    }
}

/// Law: adding a term above every term of a nonzero dendron appends its LaTeX:
/// the notation of `a + c * omega^e` is that of `a`, then "+", then that of
/// `c * omega^e`; each term is written as it would be alone.
pub proof fn law_tex_add_top(a: Cnf, e: Cnf, c: nat)
    requires
        wf(a),
        a.terms.len() > 0,
        c > 0,
        cnf_lt(a.terms.last().0, e),
    ensures
        tex(cnf_add(a, cnf_monomial(e, c))) == tex(a) + seq!['+'] + tex(cnf_monomial(e, c)),
{
    let s = a.terms;
    assert forall|i: int| 0 <= i < s.len() implies cnf_lt(#[trigger] s[i].0, e) by {
        if i < s.len() - 1 {
            assert(cnf_lt(s[i].0, s[s.len() - 1].0));
            lemma_lt_trans(s[i].0, s.last().0, e);
        }
    }
    lemma_merge_top(s, (e, c));
    let t = s.push((e, c));
    assert(t.drop_last() =~= s);
    assert(cnf_monomial(e, c).terms.len() == 1);
    assert(tex(cnf_monomial(e, c)) == tex_term((e, c)));
}

// ------------------------------------------------------------------
// The listing of a program.
// ------------------------------------------------------------------

/// Every instruction but a prune loop is written on one line.
proof fn lemma_op_one_line(op: Op, indent: nat)
    requires
        !(op is Prune),
    ensures
        one_line(op_tex(op, indent)),
{
    reveal_strlit(r"$\xi \leftarrow \xi + ");
    reveal_strlit("$");
    reveal_strlit(r"$\xi \leftarrow (\xi \cdot ");
    reveal_strlit(")$");
    reveal_strlit(r"$\xi \leftarrow \xi \Big/ \left(");
    reveal_strlit(r" \rightarrow ");
    reveal_strlit(r"\right) $");
    reveal_strlit(r"if $\xi = \alpha + 1$, infinite loop");
    reveal_strlit(r"$\xi \leftarrow \lfloor \xi \rfloor$");
    reveal_strlit(r"\xi \leftarrow \lfloor \xi \rfloor + \operatorname{finite}(\xi) \cdot \left(");
    reveal_strlit(r"\right)$");
    match op {
        Op::Add(k) => {
            lemma_tex_one_line(k);
            lemma_one_line_concat(r"$\xi \leftarrow \xi + "@, tex(k));
            lemma_one_line_concat(r"$\xi \leftarrow \xi + "@ + tex(k), "$"@);
        },
        Op::Divsub(d, r) => {
            lemma_tex_one_line(d);
            lemma_tex_one_line(r);
            if d == cnf_nat(1) {
                lemma_one_line_concat(r"$\xi \leftarrow (\xi \cdot "@, tex(r));
                lemma_one_line_concat(r"$\xi \leftarrow (\xi \cdot "@ + tex(r), ")$"@);
            } else {
                let a = r"$\xi \leftarrow \xi \Big/ \left("@;
                lemma_one_line_concat(a, tex(d));
                lemma_one_line_concat(a + tex(d), r" \rightarrow "@);
                lemma_one_line_concat(a + tex(d) + r" \rightarrow "@, tex(r));
                lemma_one_line_concat(a + tex(d) + r" \rightarrow "@ + tex(r), r"\right) $"@);
            }
        },
        Op::MoveFinite(d) => {
            lemma_tex_one_line(d);
            if d != cnf_zero() {
                let a = r"\xi \leftarrow \lfloor \xi \rfloor + \operatorname{finite}(\xi) \cdot \left("@;
                lemma_one_line_concat(a, tex(d));
                lemma_one_line_concat(a + tex(d), r"\right)$"@);
            }
        },
        _ => {},
    }
}

/// Law: writing a block one level deeper puts four more spaces before each of its
/// lines (and so before each line of every loop body in it, at any depth): the
/// nesting of loops shows in the listing as it stands in the program.
pub proof fn law_block_tex_shift(b: Seq<Op>, indent: nat)
    ensures
        block_tex(b, indent + 1) == indent_lines(block_tex(b, indent)),
    decreases b, 0int,
{
    if b.len() > 0 {
        let p = spaces(indent * 4) + "* "@;
        let o = op_tex(b[0], indent);
        reveal_strlit("* ");
        reveal_strlit("\n");
        // the prefix of the line: four more spaces
        assert(one_line(p.drop_first())) by {
            assert forall|j: int| 0 <= j < p.drop_first().len() implies #[trigger] p.drop_first()[j] != '\n' by {
                assert(p.drop_first()[j] == p[j + 1]);
            }
        }
        lemma_indent_one_line(p.drop_first());
        assert(p[0] != '\n');
        assert(indent_from(p, true) =~= spaces(4) + seq![p[0]] + p.drop_first());
        assert(indent_from(p, true) =~= spaces((indent + 1) * 4) + "* "@) by {
            assert(spaces(4) + seq![p[0]] + p.drop_first() =~= spaces(4) + p);
            assert(spaces(4) + spaces(indent * 4) =~= spaces((indent + 1) * 4));
        }
        assert(line_starts_after(p, true) == false);
        // the instruction itself
        assert(decreases_to!(b => b[0]));
        lemma_op_tex_shift(b[0], indent);
        lemma_indent_concat(p, o, true);
        if b.len() == 1 {
            assert(block_tex(b, indent) == p + o);
        } else {
            let rest = b.drop_first();
            let tail = "\n"@ + block_tex(rest, indent);
            lemma_indent_concat(p + o, tail, true);
            law_block_tex_shift(rest, indent);
            let st = line_starts_after(p + o, true);
            assert(tail[0] == '\n');
            assert(tail.drop_first() =~= block_tex(rest, indent));
            assert(indent_from(tail, st) =~= seq!['\n'] + indent_from(block_tex(rest, indent), true));
            assert(block_tex(b, indent) =~= (p + o) + tail);
            assert(block_tex(b, indent + 1) =~= (spaces((indent + 1) * 4) + "* "@ + op_tex(b[0], indent + 1)) + ("\n"@ + block_tex(rest, indent + 1)));
        }
    }
}

/// One instruction one level deeper: a prune loop's body moves four spaces in.
proof fn lemma_op_tex_shift(op: Op, indent: nat)
    ensures
        op_tex(op, indent + 1) == indent_from(op_tex(op, indent), false),
    decreases op, 1int,
{
    if let Op::Prune(body) = op {
        let h = "while $\\xi = \\alpha + 1$: do $\\xi \\leftarrow \\alpha$ \n"@;
        reveal_strlit("while $\\xi = \\alpha + 1$: do $\\xi \\leftarrow \\alpha$ \n");
        assert(one_line(h.drop_last())) by {
            assert forall|j: int| 0 <= j < h.drop_last().len() implies #[trigger] h.drop_last()[j] != '\n' by {
                assert(h.drop_last()[j] == h[j]);
            }
        }
        lemma_indent_one_line(h.drop_last());
        lemma_indent_concat(h.drop_last(), seq!['\n'], false);
        assert(h.drop_last() + seq!['\n'] =~= h);
        assert(seq!['\n'].drop_first() =~= Seq::<char>::empty());
        assert(indent_from(seq!['\n'], false) =~= seq!['\n'] + indent_from(Seq::<char>::empty(), true));
        assert(indent_from(seq!['\n'], false) =~= seq!['\n']);
        assert(indent_from(h, false) == h);
        assert(line_starts_after(h, false));
        lemma_indent_concat(h, block_tex(body, indent + 1), false);
        law_block_tex_shift(body, indent + 1);
    } else {
        lemma_op_one_line(op, indent);
        lemma_indent_one_line(op_tex(op, indent));
    }
}

/// Law: the body of a prune loop written at nesting `indent` stands one level deeper
/// than the loop: after the loop's own line, each line of the body is the body as
/// written at the loop's nesting, moved four spaces in.
pub proof fn law_prune_tex_nesting(body: Seq<Op>, indent: nat)
    ensures
        op_tex(Op::Prune(body), indent)
            == "while $\\xi = \\alpha + 1$: do $\\xi \\leftarrow \\alpha$ \n"@ + indent_lines(block_tex(body, indent)),
{
    law_block_tex_shift(body, indent);
}

} // verus!
