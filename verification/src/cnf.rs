//! The mathematical model of a dendron: an ordinal in Cantor normal form,
//! `omega^e_1 * c_1 + ... + omega^e_k * c_k`, kept as its terms
//! `(e_i, c_i)` in increasing order of exponent, each coefficient positive.
use vstd::prelude::*;

verus! {

/// An ordinal in Cantor normal form: its terms (exponent, coefficient),
/// lowest exponent first.
pub struct Cnf {
    pub terms: Seq<(Cnf, nat)>,
}

/// The ordinal zero.
pub open spec fn cnf_zero() -> Cnf {
    Cnf { terms: Seq::empty() }
}

/// `omega^e`.
pub open spec fn cnf_exp(e: Cnf) -> Cnf {
    Cnf { terms: seq![(e, 1nat)] }
}

/// The finite ordinal `n`.
pub open spec fn cnf_nat(n: nat) -> Cnf {
    if n == 0 {
        cnf_zero()
    } else {
        Cnf { terms: seq![(cnf_zero(), n)] }
    }
}

/// Ordinal comparison: -1, 0 or 1. The terms are compared from the highest
/// down, first by exponent, then by coefficient; a list that runs out first is smaller.
pub open spec fn cnf_compare(a: Cnf, b: Cnf) -> int
    decreases a,
{
    terms_compare(a.terms, b.terms)
}

/// Comparison of two term lists from their last (highest) terms down.
pub open spec fn terms_compare(s: Seq<(Cnf, nat)>, t: Seq<(Cnf, nat)>) -> int
    decreases s,
{
    if s.len() == 0 {
        if t.len() == 0 {
            0
        } else {
            -1
        }
    } else if t.len() == 0 {
        1
    } else {
        let c = cnf_compare(s.last().0, t.last().0);
        if c != 0 {
            c
        } else if s.last().1 < t.last().1 {
            -1
        } else if s.last().1 > t.last().1 {
            1
        } else {
            terms_compare(s.drop_last(), t.drop_last())
        }
    }
}

/// `a < b` as ordinals.
pub open spec fn cnf_lt(a: Cnf, b: Cnf) -> bool {
    cnf_compare(a, b) < 0
}

/// Terms strictly increasing in exponent.
pub open spec fn terms_sorted(s: Seq<(Cnf, nat)>) -> bool {
    forall|i: int, j: int| 0 <= i < j < s.len() ==> cnf_lt(#[trigger] s[i].0, #[trigger] s[j].0)
}

/// Cantor normal form: exponents in normal form and strictly increasing,
/// coefficients positive.
pub open spec fn wf(a: Cnf) -> bool
    decreases a,
{
    &&& terms_sorted(a.terms)
    &&& forall|i: int| 0 <= i < a.terms.len() ==> #[trigger] a.terms[i].1 > 0
    &&& forall|i: int| 0 <= i < a.terms.len() ==> wf(#[trigger] a.terms[i].0)
}

// ------------------------------------------------------------------
// The comparison is a total order.
// ------------------------------------------------------------------

pub proof fn lemma_compare_range(a: Cnf, b: Cnf)
    ensures
        -1 <= cnf_compare(a, b) <= 1,
    decreases a,
{
    lemma_terms_compare_range(a.terms, b.terms);
}

pub proof fn lemma_terms_compare_range(s: Seq<(Cnf, nat)>, t: Seq<(Cnf, nat)>)
    ensures
        -1 <= terms_compare(s, t) <= 1,
    decreases s,
{
    if s.len() > 0 && t.len() > 0 {
        lemma_compare_range(s.last().0, t.last().0);
        lemma_terms_compare_range(s.drop_last(), t.drop_last());
    }
}

/// `cnf_compare(a, b) == 0` exactly when `a == b`.
pub proof fn lemma_compare_eq(a: Cnf, b: Cnf)
    ensures
        (cnf_compare(a, b) == 0) == (a == b),
    decreases a,
{
    lemma_terms_compare_eq(a.terms, b.terms);
}

pub proof fn lemma_terms_compare_eq(s: Seq<(Cnf, nat)>, t: Seq<(Cnf, nat)>)
    ensures
        (terms_compare(s, t) == 0) == (s == t),
    decreases s,
{
    if s.len() > 0 && t.len() > 0 {
        lemma_compare_eq(s.last().0, t.last().0);
        lemma_terms_compare_eq(s.drop_last(), t.drop_last());
        if s.last() == t.last() && s.drop_last() == t.drop_last() {
            assert(s =~= t.drop_last().push(t.last()));
            assert(t =~= t.drop_last().push(t.last()));
        }
        if s == t {
            assert(s.drop_last() == t.drop_last());
        }
    } else if s.len() == 0 && t.len() > 0 {
        assert(s != t);
    } else if s.len() > 0 && t.len() == 0 {
        assert(s != t);
    } else {
        assert(s =~= t);
    }
}

/// Swapping the arguments negates the comparison.
pub proof fn lemma_compare_antisym(a: Cnf, b: Cnf)
    ensures
        cnf_compare(a, b) == -cnf_compare(b, a),
    decreases a,
{
    lemma_terms_compare_antisym(a.terms, b.terms);
}

pub proof fn lemma_terms_compare_antisym(s: Seq<(Cnf, nat)>, t: Seq<(Cnf, nat)>)
    ensures
        terms_compare(s, t) == -terms_compare(t, s),
    decreases s,
{
    if s.len() > 0 && t.len() > 0 {
        lemma_compare_antisym(s.last().0, t.last().0);
        lemma_terms_compare_antisym(s.drop_last(), t.drop_last());
    }
}

/// The comparison is transitive.
pub proof fn lemma_compare_trans(a: Cnf, b: Cnf, c: Cnf)
    requires
        cnf_compare(a, b) <= 0,
        cnf_compare(b, c) <= 0,
    ensures
        cnf_compare(a, c) <= 0,
        cnf_compare(a, b) < 0 || cnf_compare(b, c) < 0 ==> cnf_compare(a, c) < 0,
    decreases a,
{
    lemma_terms_compare_trans(a.terms, b.terms, c.terms);
}

pub proof fn lemma_terms_compare_trans(s: Seq<(Cnf, nat)>, t: Seq<(Cnf, nat)>, u: Seq<(Cnf, nat)>)
    requires
        terms_compare(s, t) <= 0,
        terms_compare(t, u) <= 0,
    ensures
        terms_compare(s, u) <= 0,
        terms_compare(s, t) < 0 || terms_compare(t, u) < 0 ==> terms_compare(s, u) < 0,
    decreases s,
{
    if s.len() > 0 && t.len() > 0 && u.len() > 0 {
        let (se, sc) = s.last();
        let (te, tc) = t.last();
        let (ue, uc) = u.last();
        lemma_compare_range(se, te);
        lemma_compare_range(te, ue);
        lemma_compare_range(se, ue);
        lemma_compare_eq(se, te);
        lemma_compare_eq(te, ue);
        lemma_compare_eq(se, ue);
        if cnf_compare(se, te) <= 0 && cnf_compare(te, ue) <= 0 {
            lemma_compare_trans(se, te, ue);
        }
        if cnf_compare(se, te) == 0 && cnf_compare(te, ue) == 0 && sc == tc && tc == uc {
            lemma_terms_compare_trans(s.drop_last(), t.drop_last(), u.drop_last());
        }
    } else if s.len() > 0 && t.len() > 0 && u.len() == 0 {
        lemma_terms_compare_range(t, u);
    }
}

/// Law: the comparison is a total order. It gives -1, 0 or 1; 0 exactly on equal
/// ordinals; swapping the arguments negates it; and it is transitive.
pub proof fn law_compare_total_order(a: Cnf, b: Cnf, c: Cnf)
    ensures
        -1 <= cnf_compare(a, b) <= 1,
        (cnf_compare(a, b) == 0) == (a == b),
        cnf_compare(a, b) == -cnf_compare(b, a),
        cnf_compare(a, b) <= 0 && cnf_compare(b, c) <= 0 ==> cnf_compare(a, c) <= 0,
        cnf_compare(a, b) < 0 && cnf_compare(b, c) < 0 ==> cnf_compare(a, c) < 0,
{
    lemma_compare_range(a, b);
    lemma_compare_eq(a, b);
    lemma_compare_antisym(a, b);
    if cnf_compare(a, b) <= 0 && cnf_compare(b, c) <= 0 {
        lemma_compare_trans(a, b, c);
    }
}

/// `cnf_lt` is irreflexive, asymmetric and transitive, and any two ordinals compare.
pub proof fn lemma_lt_facts(a: Cnf, b: Cnf)
    ensures
        !cnf_lt(a, a),
        cnf_lt(a, b) ==> !cnf_lt(b, a),
        cnf_lt(a, b) || cnf_lt(b, a) || a == b,
{
    lemma_compare_eq(a, a);
    lemma_compare_eq(a, b);
    lemma_compare_antisym(a, b);
}

pub proof fn lemma_lt_trans(a: Cnf, b: Cnf, c: Cnf)
    requires
        cnf_lt(a, b),
        cnf_lt(b, c),
    ensures
        cnf_lt(a, c),
{
    lemma_compare_trans(a, b, c);
}


// ------------------------------------------------------------------
// Coefficients and the canonical form.
// ------------------------------------------------------------------

/// The sum of the coefficients of the terms of `s` whose exponent is `e`.
pub open spec fn terms_coeff(s: Seq<(Cnf, nat)>, e: Cnf) -> nat
    decreases s.len(),
{
    if s.len() == 0 {
        0
    } else {
        (if s[0].0 == e { s[0].1 } else { 0 }) + terms_coeff(s.drop_first(), e)
    }
}

/// The coefficient of `omega^e` in `a`.
pub open spec fn coeff(a: Cnf, e: Cnf) -> nat {
    terms_coeff(a.terms, e)
}

/// Terms with positive coefficients only.
pub open spec fn terms_positive(s: Seq<(Cnf, nat)>) -> bool {
    forall|i: int| 0 <= i < s.len() ==> #[trigger] s[i].1 > 0
}

/// `e` is the exponent of some term of `s`.
pub open spec fn has_exp(s: Seq<(Cnf, nat)>, e: Cnf) -> bool {
    exists|i: int| 0 <= i < s.len() && #[trigger] s[i].0 == e
}

pub proof fn lemma_coeff_absent(s: Seq<(Cnf, nat)>, e: Cnf)
    requires
        !has_exp(s, e),
    ensures
        terms_coeff(s, e) == 0,
    decreases s.len(),
{
    if s.len() > 0 {
        assert(s[0].0 != e);
        assert forall|i: int| 0 <= i < s.drop_first().len() implies #[trigger] s.drop_first()[i].0 != e by {
            assert(s.drop_first()[i] == s[i + 1]);
        }
        lemma_coeff_absent(s.drop_first(), e);
    }
}

/// In sorted terms, the coefficient of the exponent of term `k` is its own.
pub proof fn lemma_coeff_sorted(s: Seq<(Cnf, nat)>, k: int)
    requires
        terms_sorted(s),
        0 <= k < s.len(),
    ensures
        terms_coeff(s, s[k].0) == s[k].1,
    decreases s.len(),
{
    let r = s.drop_first();
    assert(terms_sorted(r)) by {
        assert forall|i: int, j: int| 0 <= i < j < r.len() implies cnf_lt(#[trigger] r[i].0, #[trigger] r[j].0) by {
            assert(r[i] == s[i + 1] && r[j] == s[j + 1]);
        }
    }
    if k == 0 {
        assert forall|i: int| 0 <= i < r.len() implies #[trigger] r[i].0 != s[0].0 by {
            assert(r[i] == s[i + 1]);
            assert(cnf_lt(s[0].0, s[i + 1].0));
            lemma_lt_facts(s[0].0, s[0].0);
        }
        lemma_coeff_absent(r, s[0].0);
    } else {
        assert(cnf_lt(s[0].0, s[k].0));
        lemma_lt_facts(s[0].0, s[0].0);
        assert(r[k - 1] == s[k]);
        lemma_coeff_sorted(r, k - 1);
    }
}

/// Sorted terms with positive coefficients are determined by their coefficients.
pub proof fn lemma_terms_canonical(s: Seq<(Cnf, nat)>, t: Seq<(Cnf, nat)>)
    requires
        terms_sorted(s),
        terms_sorted(t),
        terms_positive(s),
        terms_positive(t),
        forall|e: Cnf| terms_coeff(s, e) == terms_coeff(t, e),
    ensures
        s == t,
    decreases s.len() + t.len(),
{
    if s.len() == 0 && t.len() == 0 {
        assert(s =~= t);
    } else if s.len() == 0 {
        lemma_coeff_sorted(t, 0);
        assert(terms_coeff(s, t[0].0) == 0);
    } else if t.len() == 0 {
        lemma_coeff_sorted(s, 0);
        assert(terms_coeff(t, s[0].0) == 0);
    } else {
        lemma_coeff_sorted(s, 0);
        lemma_coeff_sorted(t, 0);
        lemma_lt_facts(s[0].0, t[0].0);
        if cnf_lt(s[0].0, t[0].0) {
            assert forall|j: int| 0 <= j < t.len() implies #[trigger] t[j].0 != s[0].0 by {
                if j > 0 {
                    lemma_lt_trans(s[0].0, t[0].0, t[j].0);
                    lemma_lt_facts(s[0].0, t[j].0);
                }
            }
            lemma_coeff_absent(t, s[0].0);
            assert(false);
        } else if cnf_lt(t[0].0, s[0].0) {
            assert forall|j: int| 0 <= j < s.len() implies #[trigger] s[j].0 != t[0].0 by {
                if j > 0 {
                    lemma_lt_trans(t[0].0, s[0].0, s[j].0);
                    lemma_lt_facts(t[0].0, s[j].0);
                }
            }
            lemma_coeff_absent(s, t[0].0);
            assert(false);
        } else {
            let (rs, rt) = (s.drop_first(), t.drop_first());
            assert(s[0] == t[0]);
            assert(terms_sorted(rs)) by {
                assert forall|i: int, j: int| 0 <= i < j < rs.len() implies cnf_lt(#[trigger] rs[i].0, #[trigger] rs[j].0) by {
                    assert(rs[i] == s[i + 1] && rs[j] == s[j + 1]);
                }
            }
            assert(terms_sorted(rt)) by {
                assert forall|i: int, j: int| 0 <= i < j < rt.len() implies cnf_lt(#[trigger] rt[i].0, #[trigger] rt[j].0) by {
                    assert(rt[i] == t[i + 1] && rt[j] == t[j + 1]);
                }
            }
            assert forall|e: Cnf| terms_coeff(rs, e) == terms_coeff(rt, e) by {
                assert(terms_coeff(s, e) == terms_coeff(t, e));
            }
            assert(terms_positive(rs)) by {
                assert forall|i: int| 0 <= i < rs.len() implies #[trigger] rs[i].1 > 0 by {
                    assert(rs[i] == s[i + 1]);
                }
            }
            assert(terms_positive(rt)) by {
                assert forall|i: int| 0 <= i < rt.len() implies #[trigger] rt[i].1 > 0 by {
                    assert(rt[i] == t[i + 1]);
                }
            }
            lemma_terms_canonical(rs, rt);
            assert(s =~= seq![s[0]] + rs);
            assert(t =~= seq![t[0]] + rt);
        }
    }
}

/// Two ordinals in normal form with the same coefficients are equal.
pub proof fn lemma_canonical(a: Cnf, b: Cnf)
    requires
        wf(a),
        wf(b),
        forall|e: Cnf| coeff(a, e) == coeff(b, e),
    ensures
        a == b,
{
    assert forall|e: Cnf| terms_coeff(a.terms, e) == terms_coeff(b.terms, e) by {
        assert(coeff(a, e) == coeff(b, e));
    }
    lemma_terms_canonical(a.terms, b.terms);
}


pub proof fn lemma_drop_first(s: Seq<(Cnf, nat)>)
    requires
        s.len() > 0,
    ensures
        terms_sorted(s) ==> terms_sorted(s.drop_first()),
        terms_positive(s) ==> terms_positive(s.drop_first()),
        forall|e: Cnf| has_exp(s.drop_first(), e) ==> has_exp(s, e),
        terms_sorted(s) ==> forall|i: int| 0 <= i < s.drop_first().len() ==> cnf_lt(s[0].0, #[trigger] s.drop_first()[i].0),
{
    let r = s.drop_first();
    assert forall|i: int| 0 <= i < r.len() implies #[trigger] r[i] == s[i + 1] by {}
    assert forall|e: Cnf| has_exp(r, e) implies has_exp(s, e) by {
        let i = choose|i: int| 0 <= i < r.len() && #[trigger] r[i].0 == e;
        assert(s[i + 1].0 == e);
    }
    if terms_sorted(s) {
        assert forall|i: int, j: int| 0 <= i < j < r.len() implies cnf_lt(#[trigger] r[i].0, #[trigger] r[j].0) by {
            assert(r[i] == s[i + 1] && r[j] == s[j + 1]);
        }
        assert forall|i: int| 0 <= i < r.len() implies cnf_lt(s[0].0, #[trigger] r[i].0) by {
            assert(r[i] == s[i + 1]);
        }
    }
}

/// A sorted list whose first term lies above `x` lies wholly above `x`.
pub proof fn lemma_sorted_above(s: Seq<(Cnf, nat)>, x: Cnf)
    requires
        terms_sorted(s),
        s.len() > 0,
        cnf_lt(x, s[0].0),
    ensures
        forall|i: int| 0 <= i < s.len() ==> cnf_lt(x, #[trigger] s[i].0),
{
    assert forall|i: int| 0 <= i < s.len() implies cnf_lt(x, #[trigger] s[i].0) by {
        if i > 0 {
            lemma_lt_trans(x, s[0].0, s[i].0);
        }
    }
}

// ------------------------------------------------------------------
// The natural (Hessenberg) sum: coefficients of equal exponents add up.
// ------------------------------------------------------------------

/// Merge of two term lists, adding the coefficients of equal exponents.
pub open spec fn merge(s: Seq<(Cnf, nat)>, t: Seq<(Cnf, nat)>) -> Seq<(Cnf, nat)>
    decreases s.len() + t.len(),
{
    if s.len() == 0 {
        t
    } else if t.len() == 0 {
        s
    } else {
        let c = cnf_compare(s[0].0, t[0].0);
        if c < 0 {
            seq![s[0]] + merge(s.drop_first(), t)
        } else if c > 0 {
            seq![t[0]] + merge(s, t.drop_first())
        } else {
            seq![(s[0].0, s[0].1 + t[0].1)] + merge(s.drop_first(), t.drop_first())
        }
    }
}

/// The natural sum of two ordinals.
pub open spec fn cnf_add(a: Cnf, b: Cnf) -> Cnf {
    Cnf { terms: merge(a.terms, b.terms) }
}

pub proof fn lemma_merge_coeff(s: Seq<(Cnf, nat)>, t: Seq<(Cnf, nat)>, e: Cnf)
    ensures
        terms_coeff(merge(s, t), e) == terms_coeff(s, e) + terms_coeff(t, e),
    decreases s.len() + t.len(),
{
    if s.len() > 0 && t.len() > 0 {
        let c = cnf_compare(s[0].0, t[0].0);
        let m = merge(s, t);
        if c < 0 {
            lemma_merge_coeff(s.drop_first(), t, e);
            assert(m.drop_first() =~= merge(s.drop_first(), t));
        } else if c > 0 {
            lemma_merge_coeff(s, t.drop_first(), e);
            assert(m.drop_first() =~= merge(s, t.drop_first()));
        } else {
            lemma_compare_eq(s[0].0, t[0].0);
            lemma_merge_coeff(s.drop_first(), t.drop_first(), e);
            assert(m.drop_first() =~= merge(s.drop_first(), t.drop_first()));
        }
    }
}

/// Every term of a merge has positive coefficient and an exponent of one of the inputs.
pub proof fn lemma_merge_elems(s: Seq<(Cnf, nat)>, t: Seq<(Cnf, nat)>)
    requires
        terms_positive(s),
        terms_positive(t),
    ensures
        terms_positive(merge(s, t)),
        forall|k: int| 0 <= k < merge(s, t).len() ==> has_exp(s, #[trigger] merge(s, t)[k].0) || has_exp(t, merge(s, t)[k].0),
    decreases s.len() + t.len(),
{
    let m = merge(s, t);
    if s.len() == 0 {
        assert forall|k: int| 0 <= k < m.len() implies has_exp(s, #[trigger] m[k].0) || has_exp(t, m[k].0) by {
            assert(t[k].0 == m[k].0);
        }
    } else if t.len() == 0 {
        assert forall|k: int| 0 <= k < m.len() implies has_exp(s, #[trigger] m[k].0) || has_exp(t, m[k].0) by {
            assert(s[k].0 == m[k].0);
        }
    } else {
        let c = cnf_compare(s[0].0, t[0].0);
        lemma_drop_first(s);
        lemma_drop_first(t);
        let r = if c < 0 {
            merge(s.drop_first(), t)
        } else if c > 0 {
            merge(s, t.drop_first())
        } else {
            merge(s.drop_first(), t.drop_first())
        };
        if c < 0 {
            lemma_merge_elems(s.drop_first(), t);
        } else if c > 0 {
            lemma_merge_elems(s, t.drop_first());
        } else {
            lemma_merge_elems(s.drop_first(), t.drop_first());
        }
        assert forall|k: int| 0 <= k < m.len() implies #[trigger] m[k].1 > 0 && (has_exp(s, m[k].0) || has_exp(t, m[k].0)) by {
            if k == 0 {
                assert(s[0].0 == s[0].0);
                assert(t[0].0 == t[0].0);
            } else {
                assert(m[k] == r[k - 1]);
            }
        }
    }
}

/// Merging sorted lists gives a sorted list.
pub proof fn lemma_merge_sorted(s: Seq<(Cnf, nat)>, t: Seq<(Cnf, nat)>)
    requires
        terms_sorted(s),
        terms_sorted(t),
    ensures
        terms_sorted(merge(s, t)),
        s.len() > 0 && t.len() > 0 ==> (merge(s, t)[0].0 == s[0].0 || merge(s, t)[0].0 == t[0].0),
        merge(s, t).len() > 0 <==> (s.len() > 0 || t.len() > 0),
    decreases s.len() + t.len(),
{
    let m = merge(s, t);
    if s.len() > 0 && t.len() > 0 {
        let c = cnf_compare(s[0].0, t[0].0);
        lemma_drop_first(s);
        lemma_drop_first(t);
        lemma_compare_eq(s[0].0, t[0].0);
        lemma_compare_antisym(s[0].0, t[0].0);
        let (h, r, s2, t2) = if c < 0 {
            (s[0].0, merge(s.drop_first(), t), s.drop_first(), t)
        } else if c > 0 {
            (t[0].0, merge(s, t.drop_first()), s, t.drop_first())
        } else {
            (s[0].0, merge(s.drop_first(), t.drop_first()), s.drop_first(), t.drop_first())
        };
        lemma_merge_sorted(s2, t2);
        // every term of the rest lies above the head
        assert forall|k: int| 0 <= k < r.len() implies cnf_lt(h, #[trigger] r[k].0) by {
            if s2.len() > 0 {
                if c <= 0 {
                    assert(cnf_lt(h, s2[0].0));
                } else {
                    assert(cnf_lt(h, s[0].0));
                }
                lemma_sorted_above(s2, h);
            }
            if t2.len() > 0 {
                if c >= 0 {
                    assert(cnf_lt(h, t2[0].0));
                } else {
                    assert(cnf_lt(h, t[0].0));
                }
                lemma_sorted_above(t2, h);
            }
            lemma_sorted_above_merge(s2, t2, h);
        }
        assert forall|i: int, j: int| 0 <= i < j < m.len() implies cnf_lt(#[trigger] m[i].0, #[trigger] m[j].0) by {
            assert(m[j] == r[j - 1]);
            if i > 0 {
                assert(m[i] == r[i - 1]);
            }
        }
    }
}

/// A merge of lists that lie wholly above `x` lies wholly above `x`.
pub proof fn lemma_sorted_above_merge(s: Seq<(Cnf, nat)>, t: Seq<(Cnf, nat)>, x: Cnf)
    requires
        forall|i: int| 0 <= i < s.len() ==> cnf_lt(x, #[trigger] s[i].0),
        forall|i: int| 0 <= i < t.len() ==> cnf_lt(x, #[trigger] t[i].0),
    ensures
        forall|k: int| 0 <= k < merge(s, t).len() ==> cnf_lt(x, #[trigger] merge(s, t)[k].0),
    decreases s.len() + t.len(),
{
    let m = merge(s, t);
    if s.len() > 0 && t.len() > 0 {
        let c = cnf_compare(s[0].0, t[0].0);
        lemma_drop_first(s);
        lemma_drop_first(t);
        assert forall|i: int| 0 <= i < s.drop_first().len() implies cnf_lt(x, #[trigger] s.drop_first()[i].0) by {
            assert(s.drop_first()[i] == s[i + 1]);
        }
        assert forall|i: int| 0 <= i < t.drop_first().len() implies cnf_lt(x, #[trigger] t.drop_first()[i].0) by {
            assert(t.drop_first()[i] == t[i + 1]);
        }
        let r = if c < 0 {
            merge(s.drop_first(), t)
        } else if c > 0 {
            merge(s, t.drop_first())
        } else {
            merge(s.drop_first(), t.drop_first())
        };
        if c < 0 {
            lemma_sorted_above_merge(s.drop_first(), t, x);
        } else if c > 0 {
            lemma_sorted_above_merge(s, t.drop_first(), x);
        } else {
            lemma_sorted_above_merge(s.drop_first(), t.drop_first(), x);
        }
        assert forall|k: int| 0 <= k < m.len() implies cnf_lt(x, #[trigger] m[k].0) by {
            if k == 0 {
                assert(cnf_lt(x, s[0].0));
                assert(cnf_lt(x, t[0].0));
            } else {
                assert(m[k] == r[k - 1]);
            }
        }
    }
}


/// The exponents of an ordinal in normal form are in normal form.
pub proof fn lemma_wf_has_exp(a: Cnf, e: Cnf)
    requires
        wf(a),
        has_exp(a.terms, e),
    ensures
        wf(e),
{
    let i = choose|i: int| 0 <= i < a.terms.len() && #[trigger] a.terms[i].0 == e;
    assert(wf(a.terms[i].0));
}

/// The natural sum of ordinals in normal form is in normal form.
pub proof fn lemma_add_wf(a: Cnf, b: Cnf)
    requires
        wf(a),
        wf(b),
    ensures
        wf(cnf_add(a, b)),
        forall|e: Cnf| #[trigger] coeff(cnf_add(a, b), e) == coeff(a, e) + coeff(b, e),
{
    let m = merge(a.terms, b.terms);
    lemma_merge_sorted(a.terms, b.terms);
    lemma_merge_elems(a.terms, b.terms);
    assert forall|i: int| 0 <= i < m.len() implies wf(#[trigger] m[i].0) by {
        if has_exp(a.terms, m[i].0) {
            lemma_wf_has_exp(a, m[i].0);
        } else {
            lemma_wf_has_exp(b, m[i].0);
        }
    }
    assert forall|e: Cnf| #[trigger] coeff(cnf_add(a, b), e) == coeff(a, e) + coeff(b, e) by {
        lemma_merge_coeff(a.terms, b.terms, e);
    }
}

/// Law: the natural sum is commutative.
pub proof fn law_add_commutative(a: Cnf, b: Cnf)
    requires
        wf(a),
        wf(b),
    ensures
        cnf_add(a, b) == cnf_add(b, a),
{
    lemma_add_wf(a, b);
    lemma_add_wf(b, a);
    lemma_canonical(cnf_add(a, b), cnf_add(b, a));
}

/// Law: the natural sum is associative.
pub proof fn law_add_associative(a: Cnf, b: Cnf, c: Cnf)
    requires
        wf(a),
        wf(b),
        wf(c),
    ensures
        cnf_add(cnf_add(a, b), c) == cnf_add(a, cnf_add(b, c)),
{
    lemma_add_wf(a, b);
    lemma_add_wf(b, c);
    lemma_add_wf(cnf_add(a, b), c);
    lemma_add_wf(a, cnf_add(b, c));
    lemma_canonical(cnf_add(cnf_add(a, b), c), cnf_add(a, cnf_add(b, c)));
}

/// Law: zero is the identity of the natural sum.
pub proof fn law_add_zero(a: Cnf)
    ensures
        cnf_add(a, cnf_zero()) == a,
        cnf_add(cnf_zero(), a) == a,
{
    assert(merge(a.terms, Seq::empty()) == a.terms);
}


// ------------------------------------------------------------------
// The natural (Hessenberg) product.
// ------------------------------------------------------------------

/// `omega^e * c`.
pub open spec fn cnf_monomial(e: Cnf, c: nat) -> Cnf {
    if c == 0 {
        cnf_zero()
    } else {
        Cnf { terms: seq![(e, c)] }
    }
}

/// Adds to `acc`, for each term `(f, d)` of `t` in turn, the monomial
/// `omega^(e + f) * (c * d)`.
pub open spec fn mul_row(acc: Cnf, e: Cnf, c: nat, t: Seq<(Cnf, nat)>) -> Cnf
    decreases t.len(),
{
    if t.len() == 0 {
        acc
    } else {
        mul_row(cnf_add(acc, cnf_monomial(cnf_add(e, t[0].0), c * t[0].1)), e, c, t.drop_first())
    }
}

/// Adds to `acc` the products of each term of `s` in turn with every term of `t`.
pub open spec fn mul_rows(acc: Cnf, s: Seq<(Cnf, nat)>, t: Seq<(Cnf, nat)>) -> Cnf
    decreases s.len(),
{
    if s.len() == 0 {
        acc
    } else {
        mul_rows(mul_row(acc, s[0].0, s[0].1, t), s.drop_first(), t)
    }
}

/// The natural product: the natural sum of the products of every pair of terms,
/// where `omega^e * c` times `omega^f * d` is `omega^(e + f) * (c * d)`.
pub open spec fn cnf_mul(a: Cnf, b: Cnf) -> Cnf {
    mul_rows(cnf_zero(), a.terms, b.terms)
}

pub proof fn lemma_monomial_wf(e: Cnf, c: nat)
    requires
        wf(e),
    ensures
        wf(cnf_monomial(e, c)),
{
}

pub proof fn lemma_mul_row_wf(acc: Cnf, e: Cnf, c: nat, t: Seq<(Cnf, nat)>)
    requires
        wf(acc),
        wf(e),
        forall|i: int| 0 <= i < t.len() ==> wf(#[trigger] t[i].0),
    ensures
        wf(mul_row(acc, e, c, t)),
    decreases t.len(),
{
    if t.len() > 0 {
        lemma_add_wf(e, t[0].0);
        lemma_monomial_wf(cnf_add(e, t[0].0), c * t[0].1);
        lemma_add_wf(acc, cnf_monomial(cnf_add(e, t[0].0), c * t[0].1));
        assert forall|i: int| 0 <= i < t.drop_first().len() implies wf(#[trigger] t.drop_first()[i].0) by {
            assert(t.drop_first()[i] == t[i + 1]);
        }
        lemma_mul_row_wf(cnf_add(acc, cnf_monomial(cnf_add(e, t[0].0), c * t[0].1)), e, c, t.drop_first());
    }
}

pub proof fn lemma_mul_rows_wf(acc: Cnf, s: Seq<(Cnf, nat)>, t: Seq<(Cnf, nat)>)
    requires
        wf(acc),
        forall|i: int| 0 <= i < s.len() ==> wf(#[trigger] s[i].0),
        forall|i: int| 0 <= i < t.len() ==> wf(#[trigger] t[i].0),
    ensures
        wf(mul_rows(acc, s, t)),
    decreases s.len(),
{
    if s.len() > 0 {
        lemma_mul_row_wf(acc, s[0].0, s[0].1, t);
        assert forall|i: int| 0 <= i < s.drop_first().len() implies wf(#[trigger] s.drop_first()[i].0) by {
            assert(s.drop_first()[i] == s[i + 1]);
        }
        lemma_mul_rows_wf(mul_row(acc, s[0].0, s[0].1, t), s.drop_first(), t);
    }
}

/// The natural product of ordinals in normal form is in normal form.
pub proof fn lemma_mul_wf(a: Cnf, b: Cnf)
    requires
        wf(a),
        wf(b),
    ensures
        wf(cnf_mul(a, b)),
{
    lemma_mul_rows_wf(cnf_zero(), a.terms, b.terms);
}


// ------------------------------------------------------------------
// Subtraction of coefficients.
// ------------------------------------------------------------------

/// `x - y` when it is not negative, else zero.
pub open spec fn monus(x: nat, y: nat) -> nat {
    if x >= y {
        (x - y) as nat
    } else {
        0
    }
}

/// Every term of `b` finds in `a` a coefficient at least as large.
pub open spec fn subtracts(a: Cnf, b: Cnf) -> bool {
    forall|j: int| 0 <= j < b.terms.len() ==> coeff(a, #[trigger] b.terms[j].0) >= b.terms[j].1
}

/// The terms of `s` with the coefficients of `b` taken away; terms that reach
/// zero are dropped.
pub open spec fn terms_sub(s: Seq<(Cnf, nat)>, b: Cnf) -> Seq<(Cnf, nat)>
    decreases s.len(),
{
    if s.len() == 0 {
        Seq::empty()
    } else {
        let r = monus(s[0].1, coeff(b, s[0].0));
        (if r > 0 {
            seq![(s[0].0, r)]
        } else {
            Seq::empty()
        }) + terms_sub(s.drop_first(), b)
    }
}

/// `a - b`, coefficient by coefficient, when every coefficient of `b` fits in `a`.
pub open spec fn cnf_sub(a: Cnf, b: Cnf) -> Option<Cnf> {
    if subtracts(a, b) {
        Some(Cnf { terms: terms_sub(a.terms, b) })
    } else {
        None
    }
}

pub proof fn lemma_terms_sub_elems(s: Seq<(Cnf, nat)>, b: Cnf)
    ensures
        terms_positive(terms_sub(s, b)),
        forall|k: int| 0 <= k < terms_sub(s, b).len() ==> has_exp(s, #[trigger] terms_sub(s, b)[k].0),
    decreases s.len(),
{
    if s.len() > 0 {
        lemma_drop_first(s);
        lemma_terms_sub_elems(s.drop_first(), b);
        let r = monus(s[0].1, coeff(b, s[0].0));
        let h: Seq<(Cnf, nat)> = if r > 0 { seq![(s[0].0, r)] } else { Seq::empty() };
        let rest = terms_sub(s.drop_first(), b);
        let m = terms_sub(s, b);
        assert(m == h + rest);
        assert forall|k: int| 0 <= k < m.len() implies #[trigger] m[k].1 > 0 && has_exp(s, m[k].0) by {
            if k < h.len() {
                assert(s[0].0 == m[k].0);
            } else {
                assert(m[k] == rest[k - h.len()]);
            }
        }
    }
}

pub proof fn lemma_terms_sub_sorted(s: Seq<(Cnf, nat)>, b: Cnf)
    requires
        terms_sorted(s),
    ensures
        terms_sorted(terms_sub(s, b)),
    decreases s.len(),
{
    if s.len() > 0 {
        lemma_drop_first(s);
        lemma_terms_sub_sorted(s.drop_first(), b);
        lemma_terms_sub_elems(s.drop_first(), b);
        let r = monus(s[0].1, coeff(b, s[0].0));
        let h: Seq<(Cnf, nat)> = if r > 0 { seq![(s[0].0, r)] } else { Seq::empty() };
        let rest = terms_sub(s.drop_first(), b);
        let m = terms_sub(s, b);
        assert(m == h + rest);
        assert forall|k: int| 0 <= k < rest.len() implies cnf_lt(s[0].0, #[trigger] rest[k].0) by {
            assert(has_exp(s.drop_first(), rest[k].0));
            let i = choose|i: int| 0 <= i < s.drop_first().len() && #[trigger] s.drop_first()[i].0 == rest[k].0;
        }
        assert forall|x: int, y: int| 0 <= x < y < m.len() implies cnf_lt(#[trigger] m[x].0, #[trigger] m[y].0) by {
            assert(m[y] == rest[y - h.len()]);
            if x >= h.len() {
                assert(m[x] == rest[x - h.len()]);
            }
        }
    }
}

pub proof fn lemma_terms_sub_coeff(s: Seq<(Cnf, nat)>, b: Cnf, e: Cnf)
    requires
        terms_sorted(s),
    ensures
        terms_coeff(terms_sub(s, b), e) == monus(terms_coeff(s, e), coeff(b, e)),
    decreases s.len(),
{
    if s.len() > 0 {
        lemma_drop_first(s);
        lemma_terms_sub_coeff(s.drop_first(), b, e);
        let r = monus(s[0].1, coeff(b, s[0].0));
        let h: Seq<(Cnf, nat)> = if r > 0 { seq![(s[0].0, r)] } else { Seq::empty() };
        let rest = terms_sub(s.drop_first(), b);
        assert(terms_sub(s, b) == h + rest);
        if r > 0 {
            assert((h + rest).drop_first() =~= rest);
            assert((h + rest)[0] == h[0]);
        } else {
            assert(h + rest =~= rest);
        }
        if s[0].0 == e {
            assert forall|i: int| 0 <= i < s.drop_first().len() implies #[trigger] s.drop_first()[i].0 != e by {
                lemma_lt_facts(e, e);
            }
            lemma_coeff_absent(s.drop_first(), e);
        }
    }
}

/// For an ordinal `b` in normal form, `subtracts` means every coefficient of `b`
/// is at most that of `a`.
pub proof fn lemma_subtracts_pointwise(a: Cnf, b: Cnf)
    requires
        wf(b),
    ensures
        subtracts(a, b) <==> forall|e: Cnf| #[trigger] coeff(b, e) <= coeff(a, e),
{
    if subtracts(a, b) {
        assert forall|e: Cnf| #[trigger] coeff(b, e) <= coeff(a, e) by {
            if has_exp(b.terms, e) {
                let j = choose|j: int| 0 <= j < b.terms.len() && #[trigger] b.terms[j].0 == e;
                lemma_coeff_sorted(b.terms, j);
            } else {
                lemma_coeff_absent(b.terms, e);
            }
        }
    }
    if forall|e: Cnf| #[trigger] coeff(b, e) <= coeff(a, e) {
        assert forall|j: int| 0 <= j < b.terms.len() implies coeff(a, #[trigger] b.terms[j].0) >= b.terms[j].1 by {
            lemma_coeff_sorted(b.terms, j);
            assert(coeff(b, b.terms[j].0) <= coeff(a, b.terms[j].0));
        }
    }
}

/// The difference is in normal form and has the difference of the coefficients.
pub proof fn lemma_sub_wf(a: Cnf, b: Cnf)
    requires
        wf(a),
        wf(b),
        subtracts(a, b),
    ensures
        wf(cnf_sub(a, b).unwrap()),
        forall|e: Cnf| #[trigger] coeff(cnf_sub(a, b).unwrap(), e) == coeff(a, e) - coeff(b, e),
{
    let d = cnf_sub(a, b).unwrap();
    lemma_terms_sub_sorted(a.terms, b);
    lemma_terms_sub_elems(a.terms, b);
    lemma_subtracts_pointwise(a, b);
    assert forall|i: int| 0 <= i < d.terms.len() implies wf(#[trigger] d.terms[i].0) by {
        lemma_wf_has_exp(a, d.terms[i].0);
    }
    assert forall|e: Cnf| #[trigger] coeff(d, e) == coeff(a, e) - coeff(b, e) by {
        lemma_terms_sub_coeff(a.terms, b, e);
    }
}

/// Law: subtracting what was just added gives back the first summand.
pub proof fn law_sub_undoes_add(a: Cnf, b: Cnf)
    requires
        wf(a),
        wf(b),
    ensures
        cnf_sub(cnf_add(a, b), b) == Some(a),
{
    lemma_add_wf(a, b);
    lemma_subtracts_pointwise(cnf_add(a, b), b);
    lemma_sub_wf(cnf_add(a, b), b);
    lemma_canonical(cnf_sub(cnf_add(a, b), b).unwrap(), a);
}

/// Law: what a successful subtraction leaves, added back, gives the minuend.
pub proof fn law_add_undoes_sub(a: Cnf, b: Cnf)
    requires
        wf(a),
        wf(b),
        cnf_sub(a, b) is Some,
    ensures
        cnf_add(cnf_sub(a, b).unwrap(), b) == a,
{
    lemma_sub_wf(a, b);
    lemma_add_wf(cnf_sub(a, b).unwrap(), b);
    lemma_subtracts_pointwise(a, b);
    lemma_canonical(cnf_add(cnf_sub(a, b).unwrap(), b), a);
}

/// Law: a subtraction succeeds exactly when the subtrahend is, coefficient by
/// coefficient, at most the minuend.
pub proof fn law_sub_defined(a: Cnf, b: Cnf)
    requires
        wf(b),
    ensures
        (cnf_sub(a, b) is Some) <==> forall|e: Cnf| #[trigger] coeff(b, e) <= coeff(a, e),
{
    lemma_subtracts_pointwise(a, b);
}


// ------------------------------------------------------------------
// Scaling, the finite part, fitting.
// ------------------------------------------------------------------

/// `a` with every coefficient multiplied by `n` (zero when `n` is zero).
pub open spec fn cnf_scale(a: Cnf, n: nat) -> Cnf {
    if n == 0 {
        cnf_zero()
    } else {
        Cnf { terms: Seq::new(a.terms.len(), |i: int| (a.terms[i].0, a.terms[i].1 * n)) }
    }
}

/// The finite part of `a`: the coefficient of `omega^0`.
pub open spec fn cnf_finite(a: Cnf) -> nat {
    coeff(a, cnf_zero())
}

/// `a` without its finite part.
pub open spec fn cnf_floor(a: Cnf) -> Cnf {
    if a.terms.len() > 0 && a.terms[0].0 == cnf_zero() {
        Cnf { terms: a.terms.drop_first() }
    } else {
        a
    }
}

/// How many times the terms `t` fit into `a`: the least, over the terms `(e, c)`
/// of `t`, of `coeff(a, e) / c`.
pub open spec fn terms_fit(a: Cnf, t: Seq<(Cnf, nat)>) -> nat
    decreases t.len(),
{
    if t.len() == 0 {
        0
    } else if t.len() == 1 {
        coeff(a, t[0].0) / t[0].1
    } else {
        let x = coeff(a, t[0].0) / t[0].1;
        let y = terms_fit(a, t.drop_first());
        if x <= y {
            x
        } else {
            y
        }
    }
}

/// How many times `b` fits into `a`, coefficient by coefficient.
pub open spec fn cnf_fit(a: Cnf, b: Cnf) -> nat {
    terms_fit(a, b.terms)
}

pub proof fn lemma_scale_wf(a: Cnf, n: nat)
    requires
        wf(a),
    ensures
        wf(cnf_scale(a, n)),
        forall|e: Cnf| #[trigger] coeff(cnf_scale(a, n), e) == coeff(a, e) * n,
{
    if n > 0 {
        let b = cnf_scale(a, n);
        assert forall|i: int| 0 <= i < b.terms.len() implies #[trigger] b.terms[i].1 > 0 by {
            let c = a.terms[i].1;
            assert(c > 0);
            assert(c * n > 0) by (nonlinear_arith)
                requires
                    c > 0,
                    n > 0,
            ;
        }
        assert forall|i: int| 0 <= i < b.terms.len() implies wf(#[trigger] b.terms[i].0) by {
            assert(b.terms[i].0 == a.terms[i].0);
        }
        assert(terms_sorted(b.terms)) by {
            assert forall|i: int, j: int| 0 <= i < j < b.terms.len() implies cnf_lt(#[trigger] b.terms[i].0, #[trigger] b.terms[j].0) by {
                assert(b.terms[i].0 == a.terms[i].0 && b.terms[j].0 == a.terms[j].0);
            }
        }
        assert forall|e: Cnf| #[trigger] coeff(b, e) == coeff(a, e) * n by {
            lemma_scale_coeff(a.terms, n, e);
            assert(b.terms =~= Seq::new(a.terms.len(), |i: int| (a.terms[i].0, a.terms[i].1 * n)));
        }
    } else {
        assert forall|e: Cnf| #[trigger] coeff(cnf_scale(a, n), e) == coeff(a, e) * n by {
            assert(coeff(a, e) * 0 == 0);
        }
    }
}

pub proof fn lemma_scale_coeff(s: Seq<(Cnf, nat)>, n: nat, e: Cnf)
    ensures
        terms_coeff(Seq::new(s.len(), |i: int| (s[i].0, s[i].1 * n)), e) == terms_coeff(s, e) * n,
    decreases s.len(),
{
    let m = Seq::new(s.len(), |i: int| (s[i].0, s[i].1 * n));
    if s.len() > 0 {
        let r = s.drop_first();
        lemma_scale_coeff(r, n, e);
        assert(m.drop_first() =~= Seq::new(r.len(), |i: int| (r[i].0, r[i].1 * n)));
        let x = if s[0].0 == e { s[0].1 } else { 0 };
        let y = terms_coeff(r, e);
        assert((x + y) * n == x * n + y * n) by (nonlinear_arith);
        assert(m[0] == (s[0].0, s[0].1 * n));
        assert(terms_coeff(m, e) == (if m[0].0 == e { m[0].1 } else { 0 }) + terms_coeff(m.drop_first(), e));
        assert(x * n == (if m[0].0 == e { m[0].1 } else { 0 })) by (nonlinear_arith)
            requires
                x == (if s[0].0 == e { s[0].1 } else { 0 }),
                m[0].0 == s[0].0,
                m[0].1 == s[0].1 * n,
        ;
    } else {
        assert(terms_coeff(s, e) * n == 0) by (nonlinear_arith)
            requires
                terms_coeff(s, e) == 0,
        ;
    }
}

pub proof fn lemma_floor_wf(a: Cnf)
    requires
        wf(a),
    ensures
        wf(cnf_floor(a)),
        forall|e: Cnf| #[trigger] coeff(cnf_floor(a), e) == if e == cnf_zero() { 0 } else { coeff(a, e) },
{
    let f = cnf_floor(a);
    if a.terms.len() > 0 && a.terms[0].0 == cnf_zero() {
        lemma_drop_first(a.terms);
        assert forall|i: int| 0 <= i < f.terms.len() implies wf(#[trigger] f.terms[i].0) by {
            assert(f.terms[i] == a.terms[i + 1]);
        }
        assert forall|e: Cnf| #[trigger] coeff(f, e) == if e == cnf_zero() { 0 } else { coeff(a, e) } by {
            if e == cnf_zero() {
                assert forall|i: int| 0 <= i < f.terms.len() implies #[trigger] f.terms[i].0 != e by {
                    lemma_lt_facts(e, e);
                }
                lemma_coeff_absent(f.terms, e);
            }
        }
    } else {
        assert forall|e: Cnf| #[trigger] coeff(f, e) == if e == cnf_zero() { 0 } else { coeff(a, e) } by {
            if e == cnf_zero() {
                assert forall|i: int| 0 <= i < a.terms.len() implies #[trigger] a.terms[i].0 != e by {
                    if i > 0 {
                        assert(cnf_lt(a.terms[0].0, a.terms[i].0));
                        lemma_zero_least(a.terms[0].0);
                        lemma_lt_facts(a.terms[0].0, e);
                    }
                }
                lemma_coeff_absent(a.terms, e);
            }
        }
    }
}

/// Zero is the least ordinal.
pub proof fn lemma_zero_least(a: Cnf)
    ensures
        a == cnf_zero() || cnf_lt(cnf_zero(), a),
{
    if a.terms.len() == 0 {
        assert(a.terms =~= cnf_zero().terms);
    }
}

/// The fit `n` is the largest number with `n * c <= coeff(a, e)` for every term `(e, c)`.
pub proof fn lemma_fit(a: Cnf, t: Seq<(Cnf, nat)>)
    requires
        t.len() > 0,
        terms_positive(t),
    ensures
        forall|j: int| 0 <= j < t.len() ==> terms_fit(a, t) * #[trigger] t[j].1 <= coeff(a, t[j].0),
        exists|j: int| 0 <= j < t.len() && terms_fit(a, t) == coeff(a, #[trigger] t[j].0) / t[j].1,
    decreases t.len(),
{
    let q = coeff(a, t[0].0) / t[0].1;
    let c0 = t[0].1;
    let a0 = coeff(a, t[0].0);
    assert(q * c0 <= a0) by (nonlinear_arith)
        requires
            c0 > 0,
            q == a0 / c0,
    ;
    if t.len() > 1 {
        lemma_drop_first(t);
        lemma_fit(a, t.drop_first());
        let f = terms_fit(a, t);
        let g = terms_fit(a, t.drop_first());
        assert forall|j: int| 0 <= j < t.len() implies f * #[trigger] t[j].1 <= coeff(a, t[j].0) by {
            let cj = t[j].1;
            if j == 0 {
                assert(f <= q);
                assert(f * c0 <= q * c0) by (nonlinear_arith)
                    requires
                        f <= q,
            ;
            } else {
                assert(t.drop_first()[j - 1] == t[j]);
                assert(g * cj <= coeff(a, t[j].0));
                assert(f <= g);
                assert(f * cj <= g * cj) by (nonlinear_arith)
                    requires
                        f <= g,
            ;
            }
        }
        let k = choose|k: int| 0 <= k < t.drop_first().len() && g == coeff(a, #[trigger] t.drop_first()[k].0) / t.drop_first()[k].1;
        if q <= g {
            assert(f == coeff(a, t[0].0) / t[0].1);
        } else {
            assert(t.drop_first()[k] == t[k + 1]);
            assert(f == coeff(a, t[k + 1].0) / t[k + 1].1);
        }
    } else {
        assert(terms_fit(a, t) == coeff(a, t[0].0) / t[0].1);
    }
}

/// `a` is the natural sum of the given ordinals, left to right.
pub open spec fn cnf_sum(s: Seq<Cnf>) -> Cnf
    decreases s.len(),
{
    if s.len() == 0 {
        cnf_zero()
    } else {
        cnf_add(cnf_sum(s.drop_last()), s.last())
    }
}

} // verus!
