//! Laws of the natural product, proved through its coefficients.
use vstd::prelude::*;
use crate::cnf::{
    Cnf, cnf_zero, cnf_nat, wf, coeff, terms_coeff, cnf_add, cnf_mul, mul_row, mul_rows,
    cnf_monomial, merge, lemma_add_wf, lemma_monomial_wf, lemma_mul_row_wf, lemma_mul_rows_wf,
    lemma_mul_wf, lemma_canonical, law_add_commutative, law_add_zero, lemma_merge_coeff,
    law_add_associative,
};
use crate::division::lemma_monomial_coeff;

verus! {

/// The product of terms `(e, c)` and `(f, d)` counted at exponent `g`.
pub open spec fn pair_coeff(x: (Cnf, nat), y: (Cnf, nat), g: Cnf) -> nat {
    if cnf_add(x.0, y.0) == g {
        x.1 * y.1
    } else {
        0
    }
}

/// The products of term `x` with every term of `t`, counted at exponent `g`.
pub open spec fn row_coeff(x: (Cnf, nat), t: Seq<(Cnf, nat)>, g: Cnf) -> nat
    decreases t.len(),
{
    if t.len() == 0 {
        0
    } else {
        pair_coeff(x, t[0], g) + row_coeff(x, t.drop_first(), g)
    }
}

/// The products of every term of `s` with every term of `t`, counted at exponent `g`.
pub open spec fn rows_coeff(s: Seq<(Cnf, nat)>, t: Seq<(Cnf, nat)>, g: Cnf) -> nat
    decreases s.len(),
{
    if s.len() == 0 {
        0
    } else {
        row_coeff(s[0], t, g) + rows_coeff(s.drop_first(), t, g)
    }
}

/// All exponents of the terms are in normal form.
pub open spec fn exps_wf(s: Seq<(Cnf, nat)>) -> bool {
    forall|i: int| 0 <= i < s.len() ==> wf(#[trigger] s[i].0)
}

proof fn lemma_exps_wf_drop(s: Seq<(Cnf, nat)>)
    requires
        exps_wf(s),
        s.len() > 0,
    ensures
        exps_wf(s.drop_first()),
        wf(s[0].0),
{
    assert forall|i: int| 0 <= i < s.drop_first().len() implies wf(#[trigger] s.drop_first()[i].0) by {
        assert(s.drop_first()[i] == s[i + 1]);
    }
}

pub proof fn lemma_mul_row_coeff_exact(acc: Cnf, x: (Cnf, nat), t: Seq<(Cnf, nat)>, g: Cnf)
    requires
        wf(acc),
        wf(x.0),
        exps_wf(t),
    ensures
        coeff(mul_row(acc, x.0, x.1, t), g) == coeff(acc, g) + row_coeff(x, t, g),
    decreases t.len(),
{
    if t.len() > 0 {
        lemma_exps_wf_drop(t);
        let m = cnf_monomial(cnf_add(x.0, t[0].0), x.1 * t[0].1);
        lemma_add_wf(x.0, t[0].0);
        lemma_monomial_wf(cnf_add(x.0, t[0].0), x.1 * t[0].1);
        lemma_add_wf(acc, m);
        lemma_monomial_coeff(cnf_add(x.0, t[0].0), x.1 * t[0].1, g);
        lemma_mul_row_coeff_exact(cnf_add(acc, m), x, t.drop_first(), g);
    }
}

pub proof fn lemma_mul_rows_coeff_exact(acc: Cnf, s: Seq<(Cnf, nat)>, t: Seq<(Cnf, nat)>, g: Cnf)
    requires
        wf(acc),
        exps_wf(s),
        exps_wf(t),
    ensures
        coeff(mul_rows(acc, s, t), g) == coeff(acc, g) + rows_coeff(s, t, g),
    decreases s.len(),
{
    if s.len() > 0 {
        lemma_exps_wf_drop(s);
        lemma_mul_row_wf(acc, s[0].0, s[0].1, t);
        lemma_mul_row_coeff_exact(acc, s[0], t, g);
        lemma_mul_rows_coeff_exact(mul_row(acc, s[0].0, s[0].1, t), s.drop_first(), t, g);
    }
}

/// The coefficients of a product.
pub proof fn lemma_mul_coeff(a: Cnf, b: Cnf, g: Cnf)
    requires
        wf(a),
        wf(b),
    ensures
        coeff(cnf_mul(a, b), g) == rows_coeff(a.terms, b.terms, g),
{
    assert(wf(cnf_zero()));
    lemma_mul_rows_coeff_exact(cnf_zero(), a.terms, b.terms, g);
}

proof fn lemma_pair_coeff_symmetric(x: (Cnf, nat), y: (Cnf, nat), g: Cnf)
    requires
        wf(x.0),
        wf(y.0),
    ensures
        pair_coeff(x, y, g) == pair_coeff(y, x, g),
{
    law_add_commutative(x.0, y.0);
    assert(x.1 * y.1 == y.1 * x.1) by (nonlinear_arith);
}

/// The products of every term of `t` with `x`, at `g`.
pub open spec fn col_coeff(t: Seq<(Cnf, nat)>, x: (Cnf, nat), g: Cnf) -> nat
    decreases t.len(),
{
    if t.len() == 0 {
        0
    } else {
        pair_coeff(t[0], x, g) + col_coeff(t.drop_first(), x, g)
    }
}

proof fn lemma_col_row(t: Seq<(Cnf, nat)>, x: (Cnf, nat), g: Cnf)
    requires
        exps_wf(t),
        wf(x.0),
    ensures
        col_coeff(t, x, g) == row_coeff(x, t, g),
    decreases t.len(),
{
    if t.len() > 0 {
        lemma_exps_wf_drop(t);
        lemma_pair_coeff_symmetric(t[0], x, g);
        lemma_col_row(t.drop_first(), x, g);
    }
}

proof fn lemma_rows_split(t: Seq<(Cnf, nat)>, s: Seq<(Cnf, nat)>, g: Cnf)
    requires
        s.len() > 0,
    ensures
        rows_coeff(t, s, g) == col_coeff(t, s[0], g) + rows_coeff(t, s.drop_first(), g),
    decreases t.len(),
{
    if t.len() > 0 {
        lemma_rows_split(t.drop_first(), s, g);
    }
}

proof fn lemma_rows_symmetric(s: Seq<(Cnf, nat)>, t: Seq<(Cnf, nat)>, g: Cnf)
    requires
        exps_wf(s),
        exps_wf(t),
    ensures
        rows_coeff(s, t, g) == rows_coeff(t, s, g),
    decreases s.len(),
{
    if s.len() == 0 {
        lemma_rows_empty(t, g);
        assert(s =~= Seq::<(Cnf, nat)>::empty());
    } else {
        lemma_exps_wf_drop(s);
        lemma_rows_symmetric(s.drop_first(), t, g);
        lemma_rows_split(t, s, g);
        lemma_col_row(t, s[0], g);
    }
}

proof fn lemma_rows_empty(t: Seq<(Cnf, nat)>, g: Cnf)
    ensures
        rows_coeff(t, Seq::empty(), g) == 0,
    decreases t.len(),
{
    if t.len() > 0 {
        lemma_rows_empty(t.drop_first(), g);
    }
}

/// Law: the natural product is commutative.
pub proof fn law_mul_commutative(a: Cnf, b: Cnf)
    requires
        wf(a),
        wf(b),
    ensures
        cnf_mul(a, b) == cnf_mul(b, a),
{
    lemma_mul_wf(a, b);
    lemma_mul_wf(b, a);
    assert forall|g: Cnf| coeff(cnf_mul(a, b), g) == coeff(cnf_mul(b, a), g) by {
        lemma_mul_coeff(a, b, g);
        lemma_mul_coeff(b, a, g);
        lemma_rows_symmetric(a.terms, b.terms, g);
    }
    lemma_canonical(cnf_mul(a, b), cnf_mul(b, a));
}

proof fn lemma_rows_one(s: Seq<(Cnf, nat)>, g: Cnf)
    requires
        exps_wf(s),
    ensures
        rows_coeff(s, cnf_nat(1).terms, g) == terms_coeff(s, g),
    decreases s.len(),
{
    if s.len() > 0 {
        lemma_exps_wf_drop(s);
        let one = cnf_nat(1).terms;
        law_add_zero(s[0].0);
        assert(one.drop_first() =~= Seq::<(Cnf, nat)>::empty());
        assert(row_coeff(s[0], one, g) == pair_coeff(s[0], one[0], g) + row_coeff(s[0], one.drop_first(), g));
        assert(one[0] == (cnf_zero(), 1nat));
        assert(cnf_add(s[0].0, cnf_zero()) == s[0].0);
        assert(s[0].1 * 1 == s[0].1);
        assert(pair_coeff(s[0], one[0], g) == if s[0].0 == g { s[0].1 } else { 0 });
        lemma_rows_one(s.drop_first(), g);
    }
}

/// Law: one is the identity of the natural product.
pub proof fn law_mul_one(a: Cnf)
    requires
        wf(a),
    ensures
        cnf_mul(a, cnf_nat(1)) == a,
        cnf_mul(cnf_nat(1), a) == a,
{
    let one = cnf_nat(1);
    assert(wf(one)) by {
        assert(wf(cnf_zero()));
    }
    lemma_mul_wf(a, one);
    assert forall|g: Cnf| coeff(cnf_mul(a, one), g) == coeff(a, g) by {
        lemma_mul_coeff(a, one, g);
        lemma_rows_one(a.terms, g);
    }
    lemma_canonical(cnf_mul(a, one), a);
    law_mul_commutative(a, one);
}

proof fn lemma_mul_rows_empty(acc: Cnf, s: Seq<(Cnf, nat)>)
    ensures
        mul_rows(acc, s, Seq::empty()) == acc,
    decreases s.len(),
{
    if s.len() > 0 {
        lemma_mul_rows_empty(acc, s.drop_first());
    }
}

/// Law: zero absorbs the natural product.
pub proof fn law_mul_zero(a: Cnf)
    requires
        wf(a),
    ensures
        cnf_mul(a, cnf_zero()) == cnf_zero(),
        cnf_mul(cnf_zero(), a) == cnf_zero(),
{
    lemma_mul_rows_empty(cnf_zero(), a.terms);
    assert(wf(cnf_zero()));
    law_mul_commutative(a, cnf_zero());
}

proof fn lemma_row_merge(x: (Cnf, nat), t: Seq<(Cnf, nat)>, u: Seq<(Cnf, nat)>, g: Cnf)
    requires
        wf(x.0),
        exps_wf(t),
        exps_wf(u),
    ensures
        row_coeff(x, merge(t, u), g) == row_coeff(x, t, g) + row_coeff(x, u, g),
    decreases t.len() + u.len(),
{
    if t.len() == 0 {
    } else if u.len() == 0 {
    } else {
        lemma_exps_wf_drop(t);
        lemma_exps_wf_drop(u);
        let c = crate::cnf::cnf_compare(t[0].0, u[0].0);
        let m = merge(t, u);
        if c < 0 {
            lemma_row_merge(x, t.drop_first(), u, g);
            assert(m.drop_first() =~= merge(t.drop_first(), u));
        } else if c > 0 {
            lemma_row_merge(x, t, u.drop_first(), g);
            assert(m.drop_first() =~= merge(t, u.drop_first()));
        } else {
            crate::cnf::lemma_compare_eq(t[0].0, u[0].0);
            lemma_row_merge(x, t.drop_first(), u.drop_first(), g);
            assert(m.drop_first() =~= merge(t.drop_first(), u.drop_first()));
            let (c1, d1, d2) = (x.1, t[0].1, u[0].1);
            assert(c1 * (d1 + d2) == c1 * d1 + c1 * d2) by (nonlinear_arith);
        }
    }
}

proof fn lemma_rows_merge(s: Seq<(Cnf, nat)>, t: Seq<(Cnf, nat)>, u: Seq<(Cnf, nat)>, g: Cnf)
    requires
        exps_wf(s),
        exps_wf(t),
        exps_wf(u),
    ensures
        rows_coeff(s, merge(t, u), g) == rows_coeff(s, t, g) + rows_coeff(s, u, g),
    decreases s.len(),
{
    if s.len() > 0 {
        lemma_exps_wf_drop(s);
        lemma_row_merge(s[0], t, u, g);
        lemma_rows_merge(s.drop_first(), t, u, g);
    }
}

/// Law: the natural product distributes over the natural sum.
pub proof fn law_mul_distributes(a: Cnf, b: Cnf, c: Cnf)
    requires
        wf(a),
        wf(b),
        wf(c),
    ensures
        cnf_mul(a, cnf_add(b, c)) == cnf_add(cnf_mul(a, b), cnf_mul(a, c)),
{
    lemma_add_wf(b, c);
    lemma_mul_wf(a, cnf_add(b, c));
    lemma_mul_wf(a, b);
    lemma_mul_wf(a, c);
    lemma_add_wf(cnf_mul(a, b), cnf_mul(a, c));
    assert forall|g: Cnf| coeff(cnf_mul(a, cnf_add(b, c)), g) == coeff(cnf_add(cnf_mul(a, b), cnf_mul(a, c)), g) by {
        lemma_mul_coeff(a, cnf_add(b, c), g);
        lemma_mul_coeff(a, b, g);
        lemma_mul_coeff(a, c, g);
        lemma_rows_merge(a.terms, b.terms, c.terms, g);
    }
    lemma_canonical(cnf_mul(a, cnf_add(b, c)), cnf_add(cnf_mul(a, b), cnf_mul(a, c)));
}

/// The lowest term of `a`, taken alone as an ordinal.
pub open spec fn lead(a: Cnf) -> Cnf {
    cnf_monomial(a.terms[0].0, a.terms[0].1)
}

/// `a` without its lowest term.
pub open spec fn rest(a: Cnf) -> Cnf {
    Cnf { terms: a.terms.drop_first() }
}

/// An ordinal is its lowest term plus the rest.
proof fn lemma_split(a: Cnf)
    requires
        wf(a),
        a.terms.len() > 0,
    ensures
        wf(a.terms[0].0),
        a.terms[0].1 > 0,
        wf(lead(a)),
        wf(rest(a)),
        rest(a).terms.len() == a.terms.len() - 1,
        a == cnf_add(lead(a), rest(a)),
{
    let t = a.terms;
    let r = rest(a);
    assert(wf(t[0].0));
    assert(t[0].1 > 0);
    lemma_monomial_wf(t[0].0, t[0].1);
    assert(wf(r)) by {
        assert forall|i: int, j: int| 0 <= i < j < r.terms.len() implies crate::cnf::cnf_lt(#[trigger] r.terms[i].0, #[trigger] r.terms[j].0) by {
            assert(r.terms[i] == t[i + 1]);
            assert(r.terms[j] == t[j + 1]);
            assert(crate::cnf::cnf_lt(t[i + 1].0, t[j + 1].0));
        }
        assert forall|i: int| 0 <= i < r.terms.len() implies #[trigger] r.terms[i].1 > 0 by {
            assert(r.terms[i] == t[i + 1]);
            assert(t[i + 1].1 > 0);
        }
        assert forall|i: int| 0 <= i < r.terms.len() implies wf(#[trigger] r.terms[i].0) by {
            assert(r.terms[i] == t[i + 1]);
            assert(wf(t[i + 1].0));
        }
    }
    lemma_add_wf(lead(a), r);
    assert forall|g: Cnf| coeff(a, g) == coeff(cnf_add(lead(a), r), g) by {
        lemma_monomial_coeff(t[0].0, t[0].1, g);
    }
    lemma_canonical(a, cnf_add(lead(a), r));
}

/// An ordinal with no terms is zero.
proof fn lemma_empty_zero(a: Cnf)
    requires
        a.terms.len() == 0,
    ensures
        a == cnf_zero(),
{
    assert(a.terms =~= cnf_zero().terms);
}

/// The product of two monomials.
pub proof fn lemma_mul_monomials(e: Cnf, c: nat, f: Cnf, d: nat)
    requires
        wf(e),
        wf(f),
        c > 0,
        d > 0,
    ensures
        cnf_mul(cnf_monomial(e, c), cnf_monomial(f, d)) == cnf_monomial(cnf_add(e, f), c * d),
        c * d > 0,
{
    assert(c * d > 0) by (nonlinear_arith)
        requires
            c > 0,
            d > 0,
    ;
    let x = cnf_monomial(e, c);
    let y = cnf_monomial(f, d);
    lemma_monomial_wf(e, c);
    lemma_monomial_wf(f, d);
    lemma_add_wf(e, f);
    lemma_monomial_wf(cnf_add(e, f), c * d);
    lemma_mul_wf(x, y);
    assert forall|g: Cnf| coeff(cnf_mul(x, y), g) == coeff(cnf_monomial(cnf_add(e, f), c * d), g) by {
        lemma_mul_coeff(x, y, g);
        lemma_monomial_coeff(cnf_add(e, f), c * d, g);
        assert(x.terms.drop_first() =~= Seq::<(Cnf, nat)>::empty());
        assert(y.terms.drop_first() =~= Seq::<(Cnf, nat)>::empty());
        assert(rows_coeff(x.terms, y.terms, g) == row_coeff(x.terms[0], y.terms, g) + rows_coeff(x.terms.drop_first(), y.terms, g));
        assert(row_coeff(x.terms[0], y.terms, g) == pair_coeff(x.terms[0], y.terms[0], g) + row_coeff(x.terms[0], y.terms.drop_first(), g));
    }
    lemma_canonical(cnf_mul(x, y), cnf_monomial(cnf_add(e, f), c * d));
}

/// The product distributes over the sum from the right too.
proof fn lemma_distributes_right(a: Cnf, b: Cnf, c: Cnf)
    requires
        wf(a),
        wf(b),
        wf(c),
    ensures
        cnf_mul(cnf_add(a, b), c) == cnf_add(cnf_mul(a, c), cnf_mul(b, c)),
{
    lemma_add_wf(a, b);
    law_mul_commutative(cnf_add(a, b), c);
    law_mul_distributes(c, a, b);
    law_mul_commutative(c, a);
    law_mul_commutative(c, b);
}

/// Associativity on three monomials.
proof fn lemma_assoc_monomials(e: Cnf, c: nat, f: Cnf, d: nat, g: Cnf, q: nat)
    requires
        wf(e),
        wf(f),
        wf(g),
        c > 0,
        d > 0,
        q > 0,
    ensures
        cnf_mul(cnf_mul(cnf_monomial(e, c), cnf_monomial(f, d)), cnf_monomial(g, q))
            == cnf_mul(cnf_monomial(e, c), cnf_mul(cnf_monomial(f, d), cnf_monomial(g, q))),
{
    lemma_mul_monomials(e, c, f, d);
    lemma_mul_monomials(f, d, g, q);
    lemma_add_wf(e, f);
    lemma_add_wf(f, g);
    lemma_mul_monomials(cnf_add(e, f), c * d, g, q);
    lemma_mul_monomials(e, c, cnf_add(f, g), d * q);
    law_add_associative(e, f, g);
    assert((c * d) * q == c * (d * q)) by (nonlinear_arith);
}

/// Associativity with two monomials in front.
proof fn lemma_assoc_two(e: Cnf, c: nat, f: Cnf, d: nat, z: Cnf)
    requires
        wf(e),
        wf(f),
        wf(z),
        c > 0,
        d > 0,
    ensures
        cnf_mul(cnf_mul(cnf_monomial(e, c), cnf_monomial(f, d)), z)
            == cnf_mul(cnf_monomial(e, c), cnf_mul(cnf_monomial(f, d), z)),
    decreases z.terms.len(),
{
    let x = cnf_monomial(e, c);
    let y = cnf_monomial(f, d);
    lemma_monomial_wf(e, c);
    lemma_monomial_wf(f, d);
    lemma_mul_wf(x, y);
    if z.terms.len() == 0 {
        lemma_empty_zero(z);
        law_mul_zero(cnf_mul(x, y));
        law_mul_zero(y);
        law_mul_zero(x);
    } else {
        lemma_split(z);
        let p = lead(z);
        let r = rest(z);
        let (g, q) = z.terms[0];
        lemma_assoc_two(e, c, f, d, r);
        lemma_assoc_monomials(e, c, f, d, g, q);
        law_mul_distributes(cnf_mul(x, y), p, r);
        law_mul_distributes(y, p, r);
        lemma_mul_wf(y, p);
        lemma_mul_wf(y, r);
        law_mul_distributes(x, cnf_mul(y, p), cnf_mul(y, r));
    }
}

/// Associativity with one monomial in front.
proof fn lemma_assoc_one(e: Cnf, c: nat, b: Cnf, z: Cnf)
    requires
        wf(e),
        wf(b),
        wf(z),
        c > 0,
    ensures
        cnf_mul(cnf_mul(cnf_monomial(e, c), b), z) == cnf_mul(cnf_monomial(e, c), cnf_mul(b, z)),
    decreases b.terms.len(),
{
    let x = cnf_monomial(e, c);
    lemma_monomial_wf(e, c);
    if b.terms.len() == 0 {
        lemma_empty_zero(b);
        law_mul_zero(x);
        law_mul_zero(z);
    } else {
        lemma_split(b);
        let n = lead(b);
        let r = rest(b);
        let (f, d) = b.terms[0];
        lemma_assoc_one(e, c, r, z);
        lemma_assoc_two(e, c, f, d, z);
        law_mul_distributes(x, n, r);
        lemma_mul_wf(x, n);
        lemma_mul_wf(x, r);
        lemma_distributes_right(cnf_mul(x, n), cnf_mul(x, r), z);
        lemma_distributes_right(n, r, z);
        lemma_mul_wf(n, z);
        lemma_mul_wf(r, z);
        law_mul_distributes(x, cnf_mul(n, z), cnf_mul(r, z));
    }
}

/// Law: the natural product is associative.
pub proof fn law_mul_associative(a: Cnf, b: Cnf, c: Cnf)
    requires
        wf(a),
        wf(b),
        wf(c),
    ensures
        cnf_mul(cnf_mul(a, b), c) == cnf_mul(a, cnf_mul(b, c)),
    decreases a.terms.len(),
{
    lemma_mul_wf(b, c);
    if a.terms.len() == 0 {
        lemma_empty_zero(a);
        law_mul_zero(b);
        law_mul_zero(c);
        law_mul_zero(cnf_mul(b, c));
    } else {
        lemma_split(a);
        let m = lead(a);
        let r = rest(a);
        let (e, k) = a.terms[0];
        law_mul_associative(r, b, c);
        lemma_assoc_one(e, k, b, c);
        lemma_distributes_right(m, r, b);
        lemma_mul_wf(m, b);
        lemma_mul_wf(r, b);
        lemma_distributes_right(cnf_mul(m, b), cnf_mul(r, b), c);
        lemma_distributes_right(m, r, cnf_mul(b, c));
    }
}

proof fn lemma_rows_nat(s: Seq<(Cnf, nat)>, n: nat, g: Cnf)
    requires
        exps_wf(s),
        n > 0,
    ensures
        rows_coeff(s, cnf_nat(n).terms, g) == terms_coeff(s, g) * n,
    decreases s.len(),
{
    if s.len() > 0 {
        lemma_exps_wf_drop(s);
        let k = cnf_nat(n).terms;
        law_add_zero(s[0].0);
        assert(k.drop_first() =~= Seq::<(Cnf, nat)>::empty());
        assert(row_coeff(s[0], k, g) == pair_coeff(s[0], k[0], g) + row_coeff(s[0], k.drop_first(), g));
        assert(k[0] == (cnf_zero(), n));
        assert(cnf_add(s[0].0, cnf_zero()) == s[0].0);
        lemma_rows_nat(s.drop_first(), n, g);
        let h = if s[0].0 == g { s[0].1 } else { 0nat };
        let r = terms_coeff(s.drop_first(), g);
        assert(pair_coeff(s[0], k[0], g) == h * n);
        assert(terms_coeff(s, g) == h + r);
        assert(rows_coeff(s, k, g) == row_coeff(s[0], k, g) + rows_coeff(s.drop_first(), k, g));
        assert((h + r) * n == h * n + r * n) by (nonlinear_arith);
    } else {
        assert(terms_coeff(s, g) * n == 0) by (nonlinear_arith)
            requires
                terms_coeff(s, g) == 0,
        ;
    }
}

/// Scaling by `n` is multiplying by the finite ordinal `n`.
pub proof fn lemma_scale_is_mul(a: Cnf, n: nat)
    requires
        wf(a),
    ensures
        crate::cnf::cnf_scale(a, n) == cnf_mul(a, cnf_nat(n)),
{
    if n == 0 {
        law_mul_zero(a);
    } else {
        let k = cnf_nat(n);
        assert(wf(k)) by {
            assert(wf(cnf_zero()));
        }
        crate::cnf::lemma_scale_wf(a, n);
        lemma_mul_wf(a, k);
        assert forall|g: Cnf| coeff(crate::cnf::cnf_scale(a, n), g) == coeff(cnf_mul(a, k), g) by {
            lemma_mul_coeff(a, k, g);
            lemma_rows_nat(a.terms, n, g);
        }
        lemma_canonical(crate::cnf::cnf_scale(a, n), cnf_mul(a, k));
    }
}

} // verus!
