//! The division-substitution `xi / (pi > sigma)`: as long as some term of the
//! remainder is a multiple of a shifted copy of `pi`, that copy is taken out as
//! often as it fits and counted in the quotient; at the end the remainder gets
//! the quotient times `sigma` added back.
use vstd::prelude::*;
use crate::cnf::{
    Cnf, cnf_zero, cnf_exp, cnf_nat, wf, coeff, terms_coeff, cnf_add, cnf_mul, mul_row, mul_rows,
    cnf_monomial, cnf_sub, terms_sub, cnf_scale, cnf_fit, monus, lemma_add_wf, lemma_mul_wf,
    lemma_monomial_wf, lemma_sub_wf, lemma_scale_wf, lemma_fit, lemma_subtracts_pointwise,
    lemma_drop_first, terms_positive, law_add_undoes_sub, law_add_commutative, subtracts,
    lemma_mul_row_wf, lemma_terms_sub_coeff, terms_sorted,
};

verus! {

/// Term `i` of `rho` and term `j` of `pi` match: the exponent of the second
/// can be taken from that of the first, and its coefficient is no larger.
pub open spec fn pair_ok(rho: Cnf, pi: Cnf, i: int, j: int) -> bool {
    &&& cnf_sub(rho.terms[i].0, pi.terms[j].0) is Some
    &&& rho.terms[i].1 >= pi.terms[j].1
}

/// The first `j' >= j` for which term `i` of `rho` and term `j'` of `pi` match.
pub open spec fn first_in_row(rho: Cnf, pi: Cnf, i: int, j: int) -> Option<int>
    decreases pi.terms.len() - j,
{
    if j < 0 || j >= pi.terms.len() {
        None
    } else if pair_ok(rho, pi, i, j) {
        Some(j)
    } else {
        first_in_row(rho, pi, i, j + 1)
    }
}

/// The first matching pair `(i', j)` with `i' >= i`, terms of `rho` taken from the
/// lowest, and for each of them the terms of `pi` from the lowest.
pub open spec fn first_pair(rho: Cnf, pi: Cnf, i: int) -> Option<(int, int)>
    decreases rho.terms.len() - i,
{
    if i < 0 || i >= rho.terms.len() {
        None
    } else {
        match first_in_row(rho, pi, i, 0) {
            Some(j) => Some((i, j)),
            None => first_pair(rho, pi, i + 1),
        }
    }
}

/// The sum of the coefficients of a term list.
pub open spec fn coeff_total(s: Seq<(Cnf, nat)>) -> nat
    decreases s.len(),
{
    if s.len() == 0 {
        0
    } else {
        s[0].1 + coeff_total(s.drop_first())
    }
}

/// One step of the division, at the matching pair `(i, j)`: the shift `delta`
/// (exponent of term `i` of `rho` less that of term `j` of `pi`), the piece
/// `bit = pi * omega^delta`, and how often it fits into `rho`.
pub open spec fn step_delta(rho: Cnf, pi: Cnf, i: int, j: int) -> Cnf {
    cnf_sub(rho.terms[i].0, pi.terms[j].0).unwrap()
}

pub open spec fn step_bit(rho: Cnf, pi: Cnf, i: int, j: int) -> Cnf {
    cnf_mul(pi, cnf_exp(step_delta(rho, pi, i, j)))
}

pub open spec fn step_count(rho: Cnf, pi: Cnf, i: int, j: int) -> nat {
    cnf_fit(rho, step_bit(rho, pi, i, j))
}

/// The remainder and quotient at the end of the division loop, starting from
/// remainder `rho` and quotient `psi`; `None` when a step finds a matching pair
/// whose piece does not fit even once (the step cannot proceed).
pub open spec fn divsub_loop(rho: Cnf, psi: Cnf, pi: Cnf) -> Option<(Cnf, Cnf)>
    decreases coeff_total(rho.terms),
{
    match first_pair(rho, pi, 0) {
        None => Some((rho, psi)),
        Some((i, j)) => {
            let delta = step_delta(rho, pi, i, j);
            let bit = step_bit(rho, pi, i, j);
            let n = step_count(rho, pi, i, j);
            if n == 0 {
                None
            } else {
                match cnf_sub(rho, cnf_scale(bit, n)) {
                    Some(rho2) => if coeff_total(rho2.terms) < coeff_total(rho.terms) {
                        divsub_loop(rho2, cnf_add(psi, cnf_scale(cnf_exp(delta), n)), pi)
                    } else {
                        None
                    },
                    None => None,
                }
            }
        },
    }
}

/// `xi / (pi > sigma)`: the remainder of the division of `xi` by `pi` plus the
/// quotient times `sigma`; `None` where the division cannot proceed.
pub open spec fn cnf_divsub(xi: Cnf, pi: Cnf, sigma: Cnf) -> Option<Cnf> {
    match divsub_loop(xi, cnf_zero(), pi) {
        Some((rho, psi)) => Some(cnf_add(rho, cnf_mul(psi, sigma))),
        None => None,
    }
}

// ------------------------------------------------------------------
// Why each step makes progress.
// ------------------------------------------------------------------

pub proof fn lemma_monomial_coeff(e: Cnf, c: nat, g: Cnf)
    ensures
        coeff(cnf_monomial(e, c), g) == if g == e { c } else { 0 },
{
    if c > 0 {
        let t = cnf_monomial(e, c).terms;
        assert(t.drop_first() =~= Seq::<(Cnf, nat)>::empty());
        assert(terms_coeff(t.drop_first(), g) == 0);
        assert(terms_coeff(t, g) == (if t[0].0 == g { t[0].1 } else { 0 }) + terms_coeff(t.drop_first(), g));
    }
}

/// Coefficients only grow along a row of the product, and the product of two
/// terms lands on the sum of their exponents.
pub proof fn lemma_mul_row_coeff(acc: Cnf, e: Cnf, c: nat, t: Seq<(Cnf, nat)>, g: Cnf)
    requires
        wf(acc),
        wf(e),
        forall|i: int| 0 <= i < t.len() ==> wf(#[trigger] t[i].0),
    ensures
        coeff(mul_row(acc, e, c, t), g) >= coeff(acc, g),
        forall|l: int| 0 <= l < t.len() && cnf_add(e, #[trigger] t[l].0) == g ==> coeff(mul_row(acc, e, c, t), g) >= coeff(acc, g) + c * t[l].1,
    decreases t.len(),
{
    if t.len() > 0 {
        let m = cnf_monomial(cnf_add(e, t[0].0), c * t[0].1);
        let acc2 = cnf_add(acc, m);
        lemma_add_wf(e, t[0].0);
        lemma_monomial_wf(cnf_add(e, t[0].0), c * t[0].1);
        lemma_add_wf(acc, m);
        lemma_monomial_coeff(cnf_add(e, t[0].0), c * t[0].1, g);
        assert forall|i: int| 0 <= i < t.drop_first().len() implies wf(#[trigger] t.drop_first()[i].0) by {
            assert(t.drop_first()[i] == t[i + 1]);
        }
        lemma_mul_row_coeff(acc2, e, c, t.drop_first(), g);
        assert forall|l: int| 0 <= l < t.len() && cnf_add(e, #[trigger] t[l].0) == g implies coeff(mul_row(acc, e, c, t), g) >= coeff(acc, g) + c * t[l].1 by {
            if l > 0 {
                assert(t.drop_first()[l - 1] == t[l]);
            }
        }
    }
}

pub proof fn lemma_mul_rows_coeff(acc: Cnf, s: Seq<(Cnf, nat)>, t: Seq<(Cnf, nat)>, g: Cnf)
    requires
        wf(acc),
        forall|i: int| 0 <= i < s.len() ==> wf(#[trigger] s[i].0),
        forall|i: int| 0 <= i < t.len() ==> wf(#[trigger] t[i].0),
    ensures
        coeff(mul_rows(acc, s, t), g) >= coeff(acc, g),
        forall|k: int, l: int| 0 <= k < s.len() && 0 <= l < t.len() && cnf_add(#[trigger] s[k].0, #[trigger] t[l].0) == g
            ==> coeff(mul_rows(acc, s, t), g) >= coeff(acc, g) + s[k].1 * t[l].1,
    decreases s.len(),
{
    if s.len() > 0 {
        let acc2 = mul_row(acc, s[0].0, s[0].1, t);
        lemma_mul_row_wf(acc, s[0].0, s[0].1, t);
        lemma_mul_row_coeff(acc, s[0].0, s[0].1, t, g);
        assert forall|i: int| 0 <= i < s.drop_first().len() implies wf(#[trigger] s.drop_first()[i].0) by {
            assert(s.drop_first()[i] == s[i + 1]);
        }
        lemma_mul_rows_coeff(acc2, s.drop_first(), t, g);
        assert forall|k: int, l: int| 0 <= k < s.len() && 0 <= l < t.len() && cnf_add(#[trigger] s[k].0, #[trigger] t[l].0) == g
            implies coeff(mul_rows(acc, s, t), g) >= coeff(acc, g) + s[k].1 * t[l].1 by {
            if k > 0 {
                assert(s.drop_first()[k - 1] == s[k]);
            }
        }
    }
}

pub proof fn lemma_coeff_total_sub(s: Seq<(Cnf, nat)>, b: Cnf, k: int)
    requires
        0 <= k < s.len(),
        terms_positive(s),
        coeff(b, s[k].0) >= 1,
    ensures
        coeff_total(terms_sub(s, b)) < coeff_total(s),
    decreases s.len(),
{
    lemma_drop_first(s);
    let r = monus(s[0].1, coeff(b, s[0].0));
    let h: Seq<(Cnf, nat)> = if r > 0 { seq![(s[0].0, r)] } else { Seq::empty() };
    let rest = terms_sub(s.drop_first(), b);
    assert(terms_sub(s, b) == h + rest);
    if r > 0 {
        assert((h + rest).drop_first() =~= rest);
    } else {
        assert(h + rest =~= rest);
    }
    if k == 0 {
        lemma_coeff_total_sub_le(s.drop_first(), b);
    } else {
        assert(s.drop_first()[k - 1] == s[k]);
        lemma_coeff_total_sub(s.drop_first(), b, k - 1);
    }
}

pub proof fn lemma_coeff_total_sub_le(s: Seq<(Cnf, nat)>, b: Cnf)
    ensures
        coeff_total(terms_sub(s, b)) <= coeff_total(s),
    decreases s.len(),
{
    if s.len() > 0 {
        let r = monus(s[0].1, coeff(b, s[0].0));
        let h: Seq<(Cnf, nat)> = if r > 0 { seq![(s[0].0, r)] } else { Seq::empty() };
        let rest = terms_sub(s.drop_first(), b);
        assert(terms_sub(s, b) == h + rest);
        if r > 0 {
            assert((h + rest).drop_first() =~= rest);
        } else {
            assert(h + rest =~= rest);
        }
        lemma_coeff_total_sub_le(s.drop_first(), b);
    }
}

pub proof fn lemma_first_in_row(rho: Cnf, pi: Cnf, i: int, j: int)
    ensures
        first_in_row(rho, pi, i, j) matches Some(x) ==> j <= x < pi.terms.len() && 0 <= x && pair_ok(rho, pi, i, x),
    decreases pi.terms.len() - j,
{
    if 0 <= j < pi.terms.len() && !pair_ok(rho, pi, i, j) {
        lemma_first_in_row(rho, pi, i, j + 1);
    }
}

pub proof fn lemma_first_pair(rho: Cnf, pi: Cnf, i: int)
    ensures
        first_pair(rho, pi, i) matches Some((x, y)) ==> 0 <= x < rho.terms.len() && 0 <= y < pi.terms.len() && pair_ok(rho, pi, x, y),
    decreases rho.terms.len() - i,
{
    if 0 <= i < rho.terms.len() {
        lemma_first_in_row(rho, pi, i, 0);
        lemma_first_pair(rho, pi, i + 1);
    }
}

/// At a matching pair, the shift and the piece are in normal form, and the piece
/// has a coefficient at the exponent of term `i` of `rho` (so it is not zero).
pub proof fn lemma_step_bit(rho: Cnf, pi: Cnf, i: int, j: int)
    requires
        wf(rho),
        wf(pi),
        0 <= i < rho.terms.len(),
        0 <= j < pi.terms.len(),
        pair_ok(rho, pi, i, j),
    ensures
        wf(step_delta(rho, pi, i, j)),
        wf(step_bit(rho, pi, i, j)),
        coeff(step_bit(rho, pi, i, j), rho.terms[i].0) >= 1,
        step_bit(rho, pi, i, j).terms.len() > 0,
{
    let (e, c) = rho.terms[i];
    let (p, pc) = pi.terms[j];
    assert(wf(e) && wf(p));
    lemma_sub_wf(e, p);
    let delta = step_delta(rho, pi, i, j);
    let d = cnf_exp(delta);
    assert(wf(d));
    let bit = step_bit(rho, pi, i, j);
    lemma_mul_wf(pi, d);
    law_add_undoes_sub(e, p);
    law_add_commutative(delta, p);
    assert(d.terms[0].0 == delta);
    assert forall|x: int| 0 <= x < pi.terms.len() implies wf(#[trigger] pi.terms[x].0) by {}
    assert forall|x: int| 0 <= x < d.terms.len() implies wf(#[trigger] d.terms[x].0) by {}
    lemma_mul_rows_coeff(cnf_zero(), pi.terms, d.terms, e);
    assert(cnf_add(pi.terms[j].0, d.terms[0].0) == e);
    assert(coeff(bit, e) >= pc * 1);
    assert(pc > 0);
    if bit.terms.len() == 0 {
        assert(coeff(bit, e) == 0);
    }
}

/// At a matching pair, when the piece fits at least once: it can be taken away,
/// what is left and the new quotient are in normal form, and the remainder
/// has a smaller coefficient total (so the loop ends).
pub proof fn lemma_step(rho: Cnf, psi: Cnf, pi: Cnf, i: int, j: int)
    requires
        wf(rho),
        wf(psi),
        wf(pi),
        0 <= i < rho.terms.len(),
        0 <= j < pi.terms.len(),
        pair_ok(rho, pi, i, j),
        step_count(rho, pi, i, j) > 0,
    ensures
        ({
            let delta = step_delta(rho, pi, i, j);
            let bit = step_bit(rho, pi, i, j);
            let n = step_count(rho, pi, i, j);
            &&& cnf_sub(rho, cnf_scale(bit, n)) is Some
            &&& wf(cnf_sub(rho, cnf_scale(bit, n)).unwrap())
            &&& coeff_total(cnf_sub(rho, cnf_scale(bit, n)).unwrap().terms) < coeff_total(rho.terms)
            &&& wf(cnf_add(psi, cnf_scale(cnf_exp(delta), n)))
        }),
{
    let e = rho.terms[i].0;
    lemma_step_bit(rho, pi, i, j);
    let delta = step_delta(rho, pi, i, j);
    let d = cnf_exp(delta);
    let bit = step_bit(rho, pi, i, j);
    let n = step_count(rho, pi, i, j);
    let sb = cnf_scale(bit, n);
    lemma_scale_wf(bit, n);
    lemma_fit(rho, bit.terms);
    assert(subtracts(rho, sb)) by {
        lemma_subtracts_pointwise(rho, sb);
        assert forall|g: Cnf| #[trigger] coeff(sb, g) <= coeff(rho, g) by {
            assert(coeff(sb, g) == coeff(bit, g) * n);
            if crate::cnf::has_exp(bit.terms, g) {
                let x = choose|x: int| 0 <= x < bit.terms.len() && #[trigger] bit.terms[x].0 == g;
                crate::cnf::lemma_coeff_sorted(bit.terms, x);
                assert(n * bit.terms[x].1 <= coeff(rho, bit.terms[x].0));
                assert(coeff(bit, g) * n == n * bit.terms[x].1) by (nonlinear_arith)
                    requires
                        coeff(bit, g) == bit.terms[x].1,
                ;
            } else {
                crate::cnf::lemma_coeff_absent(bit.terms, g);
                assert(coeff(bit, g) * n == 0) by (nonlinear_arith)
                    requires
                        coeff(bit, g) == 0,
                ;
            }
        }
    }
    lemma_sub_wf(rho, sb);
    assert(coeff(sb, e) >= 1) by {
        let cb = coeff(bit, e);
        assert(cb * n >= 1) by (nonlinear_arith)
            requires
                cb >= 1,
                n >= 1,
        ;
    }
    lemma_coeff_total_sub(rho.terms, sb, i);
    lemma_scale_wf(d, n);
    lemma_add_wf(psi, cnf_scale(d, n));
}


// ------------------------------------------------------------------
// Dividing by one.
// ------------------------------------------------------------------

proof fn lemma_sub_zero(a: Cnf)
    requires
        wf(a),
    ensures
        cnf_sub(a, cnf_zero()) == Some(a),
{
    assert(crate::cnf::subtracts(a, cnf_zero()));
    lemma_sub_wf(a, cnf_zero());
    assert(wf(cnf_zero()));
    crate::cnf::lemma_canonical(cnf_sub(a, cnf_zero()).unwrap(), a);
}

/// With divisor one, the division loop moves the remainder term by term into the quotient.
proof fn lemma_divsub_loop_by_one(rho: Cnf, psi: Cnf)
    requires
        wf(rho),
        wf(psi),
    ensures
        divsub_loop(rho, psi, cnf_nat(1)) == Some((cnf_zero(), cnf_add(psi, rho))),
    decreases rho.terms.len(),
{
    let one = cnf_nat(1);
    assert(wf(one)) by {
        assert(wf(cnf_zero()));
    }
    if rho.terms.len() == 0 {
        assert(rho == cnf_zero()) by {
            assert(rho.terms =~= cnf_zero().terms);
        }
        crate::cnf::law_add_zero(psi);
    } else {
        let (e0, c0) = rho.terms[0];
        assert(wf(e0));
        lemma_sub_zero(e0);
        assert(one.terms[0].0 == cnf_zero());
        assert(pair_ok(rho, one, 0, 0));
        assert(first_in_row(rho, one, 0, 0) == Some(0int));
        assert(first_pair(rho, one, 0) == Some((0int, 0int)));
        let delta = step_delta(rho, one, 0, 0);
        assert(delta == e0);
        let d = cnf_exp(e0);
        assert(wf(d));
        crate::product_laws::law_mul_one(d);
        let bit = step_bit(rho, one, 0, 0);
        assert(bit == d);
        let n = step_count(rho, one, 0, 0);
        crate::cnf::lemma_coeff_sorted(rho.terms, 0);
        assert(d.terms.len() == 1);
        assert(n == coeff(rho, e0) / 1);
        assert(n == c0);
        assert(c0 > 0);
        lemma_step(rho, psi, one, 0, 0);
        let m = cnf_scale(d, n);
        assert(m.terms =~= seq![(e0, c0)]) by {
            assert(m.terms.len() == 1);
            assert(m.terms[0] == (e0, 1 * c0));
        }
        let rho2 = cnf_sub(rho, m).unwrap();
        let rest = Cnf { terms: rho.terms.drop_first() };
        // what is left is the rest of the terms
        lemma_drop_first(rho.terms);
        assert(wf(rest)) by {
            assert forall|i: int| 0 <= i < rest.terms.len() implies wf(#[trigger] rest.terms[i].0) by {
                assert(rest.terms[i] == rho.terms[i + 1]);
            }
        }
        lemma_scale_wf(d, n);
        lemma_sub_wf(rho, m);
        lemma_monomial_coeff(e0, c0, e0);
        assert(m == cnf_monomial(e0, c0));
        assert forall|g: Cnf| coeff(rho2, g) == coeff(rest, g) by {
            lemma_monomial_coeff(e0, c0, g);
            assert(terms_coeff(rho.terms, g) == (if rho.terms[0].0 == g { c0 } else { 0 }) + terms_coeff(rest.terms, g));
        }
        crate::cnf::lemma_canonical(rho2, rest);
        let psi2 = cnf_add(psi, m);
        lemma_add_wf(psi, m);
        lemma_divsub_loop_by_one(rest, psi2);
        // and the quotient has gained exactly the term taken away
        lemma_monomial_wf(e0, c0);
        lemma_add_wf(m, rest);
        assert forall|g: Cnf| coeff(cnf_add(m, rest), g) == coeff(rho, g) by {
            lemma_monomial_coeff(e0, c0, g);
            assert(terms_coeff(rho.terms, g) == (if rho.terms[0].0 == g { c0 } else { 0 }) + terms_coeff(rest.terms, g));
        }
        crate::cnf::lemma_canonical(cnf_add(m, rest), rho);
        crate::cnf::law_add_associative(psi, m, rest);
    }
}

/// Law: dividing by one with replacement `sigma` multiplies by `sigma`.
pub proof fn law_divsub_by_one(xi: Cnf, sigma: Cnf)
    requires
        wf(xi),
        wf(sigma),
    ensures
        cnf_divsub(xi, cnf_nat(1), sigma) == Some(cnf_mul(xi, sigma)),
{
    assert(wf(cnf_zero()));
    lemma_divsub_loop_by_one(xi, cnf_zero());
    crate::cnf::law_add_zero(xi);
    lemma_mul_wf(xi, sigma);
    crate::cnf::law_add_zero(cnf_mul(xi, sigma));
}


// ------------------------------------------------------------------
// What the division keeps.
// ------------------------------------------------------------------

/// Along the division loop, remainder plus quotient times `pi` stays the same.
pub proof fn lemma_divsub_loop_conserves(rho: Cnf, psi: Cnf, pi: Cnf)
    requires
        wf(rho),
        wf(psi),
        wf(pi),
        divsub_loop(rho, psi, pi) is Some,
    ensures
        wf(divsub_loop(rho, psi, pi).unwrap().0),
        wf(divsub_loop(rho, psi, pi).unwrap().1),
        cnf_add(divsub_loop(rho, psi, pi).unwrap().0, cnf_mul(divsub_loop(rho, psi, pi).unwrap().1, pi))
            == cnf_add(rho, cnf_mul(psi, pi)),
        first_pair(divsub_loop(rho, psi, pi).unwrap().0, pi, 0) is None,
    decreases coeff_total(rho.terms),
{
    if let Some((i, j)) = first_pair(rho, pi, 0) {
        lemma_first_pair(rho, pi, 0);
        let delta = step_delta(rho, pi, i, j);
        let d = cnf_exp(delta);
        let bit = step_bit(rho, pi, i, j);
        let n = step_count(rho, pi, i, j);
        lemma_step(rho, psi, pi, i, j);
        let sb = cnf_scale(bit, n);
        let rho2 = cnf_sub(rho, sb).unwrap();
        let dn = cnf_scale(d, n);
        let psi2 = cnf_add(psi, dn);
        lemma_divsub_loop_conserves(rho2, psi2, pi);
        // the quotient's new part times `pi` is the piece taken away
        lemma_step_bit(rho, pi, i, j);
        assert(wf(d));
        let k = cnf_nat(n);
        assert(wf(k)) by {
            assert(wf(cnf_zero()));
        }
        crate::product_laws::lemma_scale_is_mul(d, n);
        crate::product_laws::lemma_scale_is_mul(bit, n);
        lemma_mul_wf(d, k);
        lemma_mul_wf(pi, d);
        crate::product_laws::law_mul_commutative(cnf_mul(d, k), pi);
        crate::product_laws::law_mul_associative(pi, d, k);
        assert(cnf_mul(dn, pi) == sb);
        // so remainder plus quotient times `pi` is unchanged
        lemma_scale_wf(d, n);
        lemma_scale_wf(bit, n);
        lemma_mul_wf(psi, pi);
        crate::product_laws::law_mul_commutative(psi2, pi);
        crate::product_laws::law_mul_distributes(pi, psi, dn);
        crate::product_laws::law_mul_commutative(pi, psi);
        crate::product_laws::law_mul_commutative(pi, dn);
        assert(cnf_mul(psi2, pi) == cnf_add(cnf_mul(psi, pi), sb));
        crate::cnf::law_add_associative(rho2, cnf_mul(psi, pi), sb);
        crate::cnf::law_add_commutative(cnf_mul(psi, pi), sb);
        crate::cnf::law_add_associative(rho2, sb, cnf_mul(psi, pi));
        law_add_undoes_sub(rho, sb);
    }
}

/// Law: the division takes out of `xi` exactly the quotient times `pi`. Where it
/// succeeds, `xi` is the remainder plus the quotient times `pi`, no term of the
/// remainder is left that a shifted piece of `pi` could be taken from, and the
/// result is the remainder plus the quotient times `sigma`; in particular,
/// dividing with `sigma == pi` gives `xi` back.
pub proof fn law_divsub_conserves(xi: Cnf, pi: Cnf, sigma: Cnf)
    requires
        wf(xi),
        wf(pi),
        cnf_divsub(xi, pi, sigma) is Some,
    ensures
        ({
            let (rho, psi) = divsub_loop(xi, cnf_zero(), pi).unwrap();
            &&& xi == cnf_add(rho, cnf_mul(psi, pi))
            &&& first_pair(rho, pi, 0) is None
            &&& cnf_divsub(xi, pi, sigma) == Some(cnf_add(rho, cnf_mul(psi, sigma)))
            &&& cnf_divsub(xi, pi, pi) == Some(xi)
        }),
{
    assert(wf(cnf_zero()));
    lemma_divsub_loop_conserves(xi, cnf_zero(), pi);
    crate::product_laws::law_mul_zero(pi);
    crate::cnf::law_add_zero(xi);
}

/// With a divisor of at most one term, every step of the division loop finds its
/// piece fitting at least once, so the loop never gets stuck.
proof fn lemma_divsub_loop_monomial(rho: Cnf, psi: Cnf, pi: Cnf)
    requires
        wf(rho),
        wf(psi),
        wf(pi),
        pi.terms.len() <= 1,
    ensures
        divsub_loop(rho, psi, pi) is Some,
    decreases coeff_total(rho.terms),
{
    if let Some((i, j)) = first_pair(rho, pi, 0) {
        lemma_first_pair(rho, pi, 0);
        assert(j == 0);
        let (e, c) = pi.terms[0];
        let (re, rc) = rho.terms[i];
        assert(wf(e) && c > 0);
        assert(wf(re) && rc > 0);
        let delta = step_delta(rho, pi, i, j);
        lemma_sub_wf(re, e);
        law_add_undoes_sub(re, e);
        law_add_commutative(delta, e);
        // the piece is the monomial c * omega^re
        assert(pi == cnf_monomial(e, c)) by {
            assert(pi.terms =~= seq![(e, c)]);
        }
        assert(cnf_exp(delta) == cnf_monomial(delta, 1));
        crate::product_laws::lemma_mul_monomials(e, c, delta, 1);
        let bit = step_bit(rho, pi, i, j);
        assert(bit == cnf_monomial(re, c));
        // it fits as often as c goes into the coefficient of omega^re
        lemma_fit(rho, bit.terms);
        assert(bit.terms.len() == 1);
        crate::cnf::lemma_coeff_sorted(rho.terms, i);
        assert(coeff(rho, re) == rc);
        assert(rc >= c);
        let n = step_count(rho, pi, i, j);
        assert(n == rc / c);
        assert(n >= 1) by (nonlinear_arith)
            requires
                n == rc / c,
                rc >= c,
                c > 0,
        ;
        lemma_step(rho, psi, pi, i, j);
        let rho2 = cnf_sub(rho, cnf_scale(bit, n)).unwrap();
        lemma_divsub_loop_monomial(rho2, cnf_add(psi, cnf_scale(cnf_exp(delta), n)), pi);
    }
}

/// Law: a divisor that is zero or a single term `c * omega^e` can always be divided
/// by: the division never meets a piece that does not fit.
pub proof fn law_divsub_monomial_divisor(xi: Cnf, pi: Cnf, sigma: Cnf)
    requires
        wf(xi),
        wf(pi),
        pi.terms.len() <= 1,
    ensures
        cnf_divsub(xi, pi, sigma) is Some,
{
    assert(wf(cnf_zero()));
    lemma_divsub_loop_monomial(xi, cnf_zero(), pi);
}

} // verus!
