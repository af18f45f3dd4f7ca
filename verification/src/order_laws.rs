//! The order of ordinals read through their coefficients, and how the natural sum
//! keeps it.
use vstd::prelude::*;
use crate::cnf::{
    Cnf, wf, coeff, terms_coeff, cnf_add, cnf_lt, cnf_compare, terms_compare, terms_sorted,
    terms_positive, lemma_coeff_absent, lemma_lt_facts, lemma_lt_trans, lemma_compare_eq,
    lemma_add_wf, law_add_commutative,
};
use crate::notation_laws::lemma_terms_coeff_last;

verus! {

/// `s` has less than `t` at exponent `g`, and the same at every exponent above `g`.
pub open spec fn less_at(s: Seq<(Cnf, nat)>, t: Seq<(Cnf, nat)>, g: Cnf) -> bool {
    &&& terms_coeff(s, g) < terms_coeff(t, g)
    &&& forall|h: Cnf| #[trigger] cnf_lt(g, h) ==> terms_coeff(s, h) == terms_coeff(t, h)
}

proof fn lemma_drop_last_sorted(s: Seq<(Cnf, nat)>)
    requires
        terms_sorted(s),
        terms_positive(s),
        s.len() > 0,
    ensures
        terms_sorted(s.drop_last()),
        terms_positive(s.drop_last()),
{
    let d = s.drop_last();
    assert forall|i: int, j: int| 0 <= i < j < d.len() implies cnf_lt(#[trigger] d[i].0, #[trigger] d[j].0) by {
        assert(d[i] == s[i] && d[j] == s[j]);
    }
    assert forall|i: int| 0 <= i < d.len() implies #[trigger] d[i].1 > 0 by {
        assert(d[i] == s[i]);
    }
}

/// Above the highest exponent of a sorted list its coefficients are zero.
proof fn lemma_above_all(s: Seq<(Cnf, nat)>, h: Cnf)
    requires
        terms_sorted(s),
        s.len() > 0 ==> cnf_lt(s.last().0, h),
    ensures
        terms_coeff(s, h) == 0,
{
    lemma_lt_facts(h, h);
    assert forall|i: int| 0 <= i < s.len() implies #[trigger] s[i].0 != h by {
        if i < s.len() - 1 {
            assert(cnf_lt(s[i].0, s[s.len() - 1].0));
            lemma_lt_trans(s[i].0, s.last().0, h);
        }
    }
    lemma_coeff_absent(s, h);
}

/// Where `s` is below `t`, some exponent witnesses it.
proof fn lemma_less_witness(s: Seq<(Cnf, nat)>, t: Seq<(Cnf, nat)>) -> (g: Cnf)
    requires
        terms_sorted(s),
        terms_sorted(t),
        terms_positive(s),
        terms_positive(t),
        terms_compare(s, t) < 0,
    ensures
        less_at(s, t, g),
    decreases s.len(),
{
    if s.len() == 0 {
        let g = t.last().0;
        lemma_terms_coeff_last(t, g);
        assert forall|h: Cnf| #[trigger] cnf_lt(g, h) implies terms_coeff(s, h) == terms_coeff(t, h) by {
            lemma_above_all(t, h);
        }
        g
    } else {
        let (se, sc) = s.last();
        let (te, tc) = t.last();
        let c = cnf_compare(se, te);
        let sd = s.drop_last();
        let td = t.drop_last();
        lemma_drop_last_sorted(s);
        lemma_drop_last_sorted(t);
        if c < 0 {
            lemma_above_all(s, te);
            lemma_terms_coeff_last(t, te);
            assert forall|h: Cnf| #[trigger] cnf_lt(te, h) implies terms_coeff(s, h) == terms_coeff(t, h) by {
                lemma_above_all(t, h);
                lemma_lt_trans(se, te, h);
                lemma_above_all(s, h);
            }
            te
        } else {
            lemma_compare_eq(se, te);
            assert(se == te);
            lemma_terms_coeff_last(s, se);
            lemma_terms_coeff_last(t, te);
            if sd.len() > 0 {
                assert(cnf_lt(s[sd.len() - 1].0, s[s.len() - 1].0));
            }
            if td.len() > 0 {
                assert(cnf_lt(t[td.len() - 1].0, t[t.len() - 1].0));
            }
            if sc < tc {
                lemma_above_all(sd, se);
                lemma_above_all(td, te);
                assert forall|h: Cnf| #[trigger] cnf_lt(se, h) implies terms_coeff(s, h) == terms_coeff(t, h) by {
                    lemma_above_all(t, h);
                    lemma_above_all(s, h);
                }
                se
            } else {
                assert(sc == tc);
                let g = lemma_less_witness(sd, td);
                lemma_terms_coeff_last(s, g);
                lemma_terms_coeff_last(t, g);
                assert forall|h: Cnf| #[trigger] cnf_lt(g, h) implies terms_coeff(s, h) == terms_coeff(t, h) by {
                    lemma_terms_coeff_last(s, h);
                    lemma_terms_coeff_last(t, h);
                }
                g
            }
        }
    }
}

/// `a < b` exactly when, at some exponent, `a` has the smaller coefficient and above
/// it the coefficients agree.
pub proof fn lemma_lt_by_coeff(a: Cnf, b: Cnf, g: Cnf)
    requires
        wf(a),
        wf(b),
    ensures
        less_at(a.terms, b.terms, g) ==> cnf_lt(a, b),
        cnf_lt(a, b) ==> exists|x: Cnf| less_at(a.terms, b.terms, x),
{
    if cnf_lt(a, b) {
        let x = lemma_less_witness(a.terms, b.terms);
        assert(less_at(a.terms, b.terms, x));
    }
    if less_at(a.terms, b.terms, g) {
        lemma_lt_facts(a, b);
        if a == b {
            assert(false);
        } else if cnf_lt(b, a) {
            let x = lemma_less_witness(b.terms, a.terms);
            lemma_lt_facts(g, x);
            if g == x {
                assert(false);
            } else if cnf_lt(g, x) {
                assert(terms_coeff(a.terms, x) == terms_coeff(b.terms, x));
            } else {
                assert(cnf_lt(x, g));
                assert(terms_coeff(b.terms, g) == terms_coeff(a.terms, g));
            }
        }
    }
}

/// Law: the natural sum is strictly monotone in each argument: `a < b` gives
/// `a + c < b + c` and `c + a < c + b`.
pub proof fn law_add_strictly_monotone(a: Cnf, b: Cnf, c: Cnf)
    requires
        wf(a),
        wf(b),
        wf(c),
        cnf_lt(a, b),
    ensures
        cnf_lt(cnf_add(a, c), cnf_add(b, c)),
        cnf_lt(cnf_add(c, a), cnf_add(c, b)),
{
    let g = lemma_less_witness(a.terms, b.terms);
    lemma_add_wf(a, c);
    lemma_add_wf(b, c);
    let ac = cnf_add(a, c);
    let bc = cnf_add(b, c);
    assert(coeff(ac, g) == coeff(a, g) + coeff(c, g));
    assert(coeff(bc, g) == coeff(b, g) + coeff(c, g));
    assert forall|h: Cnf| #[trigger] cnf_lt(g, h) implies terms_coeff(ac.terms, h) == terms_coeff(bc.terms, h) by {
        assert(coeff(ac, h) == coeff(a, h) + coeff(c, h));
        assert(coeff(bc, h) == coeff(b, h) + coeff(c, h));
        assert(terms_coeff(a.terms, h) == terms_coeff(b.terms, h));
    }
    lemma_lt_by_coeff(ac, bc, g);
    law_add_commutative(a, c);
    law_add_commutative(b, c);
}

} // verus!
