//! Dendrons: ordinals in Cantor normal form with natural (Hessenberg)
//! arithmetic, the one value that a Dendritic Calculus program manipulates.
use vstd::prelude::*;
use crate::natural::Natural;
use crate::division::{cnf_divsub, divsub_loop, first_pair, first_in_row, pair_ok, step_delta, step_bit, step_count, coeff_total, lemma_step, lemma_step_bit, lemma_first_pair};
use crate::cnf::{
    Cnf,
    lemma_mul_wf,
    cnf_scale,
    cnf_fit,
    terms_fit,
    lemma_scale_wf,
    cnf_floor,
    cnf_finite,
    lemma_floor_wf,
    cnf_sum,
    coeff,
    terms_coeff,
    subtracts,
    terms_sub,
    cnf_sub,
    monus,
    lemma_sub_wf,
    lemma_subtracts_pointwise,
    cnf_monomial,
    cnf_mul,
    mul_row,
    mul_rows,
    cnf_zero,
    cnf_exp,
    cnf_nat,
    cnf_compare,
    terms_compare,
    wf,
    lemma_compare_eq,
    cnf_add,
    merge,
    lemma_add_wf,
};

verus! {

/// One term `omega^exp * coeff` of a dendron.
#[derive(Debug, Hash)]
struct Term {
    exp: Dendron,
    coeff: Natural,
}

/// An ordinal below epsilon-zero, kept as its terms in increasing order of exponent.
#[derive(Debug, Hash)]
pub struct Dendron {
    terms: Vec<Term>,
}

/// The model of a list of terms.
spec fn terms_model(ts: Seq<Term>) -> Seq<(Cnf, nat)>
    decreases ts,
{
    if ts.len() == 0 {
        Seq::empty()
    } else {
        terms_model(ts.drop_last()).push((ts.last().exp.model(), ts.last().coeff@))
    }
}

proof fn lemma_terms_model(ts: Seq<Term>)
    ensures
        terms_model(ts).len() == ts.len(),
        forall|i: int| 0 <= i < ts.len() ==> #[trigger] terms_model(ts)[i] == (ts[i].exp.model(), ts[i].coeff@),
    decreases ts.len(),
{
    if ts.len() > 0 {
        lemma_terms_model(ts.drop_last());
        assert forall|i: int| 0 <= i < ts.len() implies #[trigger] terms_model(ts)[i] == (ts[i].exp.model(), ts[i].coeff@) by {
            if i < ts.len() - 1 {
                assert(ts.drop_last()[i] == ts[i]);
            }
        }
    }
}

impl Dendron {
    /// The ordinal that this dendron stands for.
    pub closed spec fn model(&self) -> Cnf
        decreases self,
    {
        Cnf { terms: terms_model(self.terms@) }
    }

    #[verifier::type_invariant]
    spec fn inv(self) -> bool {
        wf(self.model())
    }
}

impl View for Dendron {
    type V = Cnf;

    closed spec fn view(&self) -> Cnf {
        self.model()
    }
}

/// A term list whose model is the given sequence.
spec fn terms_match(ts: Seq<Term>, m: Seq<(Cnf, nat)>) -> bool {
    &&& ts.len() == m.len()
    &&& forall|i: int| 0 <= i < ts.len() ==> (#[trigger] ts[i]).exp@ == m[i].0 && ts[i].coeff@ == m[i].1
}

proof fn lemma_terms_match(ts: Seq<Term>, m: Seq<(Cnf, nat)>)
    requires
        terms_match(ts, m),
    ensures
        terms_model(ts) == m,
{
    lemma_terms_model(ts);
    assert(terms_model(ts) =~= m);
}

impl Dendron {
    proof fn lemma_view(&self)
        ensures
            terms_match(self.terms@, self@.terms),
    {
        lemma_terms_model(self.terms@);
    }

    /// The value of a dendron is in normal form.
    pub(crate) fn in_normal_form(&self)
        ensures
            wf(self@),
    {
        proof {
            use_type_invariant(self);
        }
    }

    /// The dendron zero.
    pub fn zero() -> (r: Dendron)
        ensures
            r@ == cnf_zero(),
    {
        let r = Dendron { terms: Vec::new() };
        proof {
            lemma_terms_model(r.terms@);
            assert(r@ =~= cnf_zero());
        }
        r
    }

    /// Whether this dendron is zero.
    pub fn is_zero(&self) -> (r: bool)
        ensures
            r == (self@ == cnf_zero()),
    {
        proof {
            use_type_invariant(self);
            self.lemma_view();
        }
        let r = self.terms.len() == 0;
        proof {
            if r {
                assert(self@.terms =~= cnf_zero().terms);
            }
        }
        r
    }

    /// A deep copy of this dendron.
    pub fn duplicate(&self) -> (r: Dendron)
        ensures
            r@ == self@,
        decreases self,
    {
        proof {
            use_type_invariant(self);
            self.lemma_view();
        }
        let n = self.terms.len();
        let mut v: Vec<Term> = Vec::new();
        let mut i: usize = 0;
        while i < n
            invariant
                n == self.terms.len(),
                i <= n,
                terms_match(self.terms@, self@.terms),
                terms_match(v@, self@.terms.take(i as int)),
            decreases n - i,
        {
            let e = self.terms[i].exp.duplicate();
            let c = self.terms[i].coeff.duplicate();
            v.push(Term { exp: e, coeff: c });
            i = i + 1;
        }
        proof {
            assert(self@.terms.take(n as int) =~= self@.terms);
            lemma_terms_match(v@, self@.terms);
        }
        let r = Dendron { terms: v };
        proof {
            assert(r@ =~= self@);
        }
        r
    }

    /// `omega^exponent`.
    pub fn exp(exponent: Dendron) -> (r: Dendron)
        ensures
            r@ == cnf_exp(exponent@),
    {
        proof {
            use_type_invariant(&exponent);
            exponent.lemma_view();
        }
        let ghost e = exponent@;
        let mut v: Vec<Term> = Vec::new();
        v.push(Term { exp: exponent, coeff: Natural::from_u64(1) });
        proof {
            lemma_terms_match(v@, cnf_exp(e).terms);
        }
        Dendron { terms: v }
    }

    /// The finite dendron `n`.
    pub fn from_int(n: Natural) -> (r: Dendron)
        ensures
            r@ == cnf_nat(n@),
    {
        if n.is_zero() {
            Dendron::zero()
        } else {
            let z = Dendron::zero();
            let mut v: Vec<Term> = Vec::new();
            let ghost nv = n@;
            v.push(Term { exp: z, coeff: n });
            proof {
                lemma_terms_match(v@, cnf_nat(nv).terms);
                assert(wf(cnf_zero()));
            }
            Dendron { terms: v }
        }
    }

    /// Ordinal comparison: -1, 0 or 1 as this dendron is below, equal to or above `other`.
    pub fn compare(&self, other: &Dendron) -> (r: i8)
        ensures
            r == cnf_compare(self@, other@),
        decreases self,
    {
        proof {
            use_type_invariant(self);
            self.lemma_view();
            use_type_invariant(other);
            other.lemma_view();
        }
        let ghost s = self@.terms;
        let ghost t = other@.terms;
        let mut i: usize = self.terms.len();
        let mut j: usize = other.terms.len();
        proof {
            assert(s.take(i as int) =~= s);
            assert(t.take(j as int) =~= t);
        }
        while i > 0 && j > 0
            invariant
                i <= s.len(),
                j <= t.len(),
                s.len() - i == t.len() - j,
                s == self@.terms,
                t == other@.terms,
                terms_match(self.terms@, s),
                terms_match(other.terms@, t),
                terms_compare(s.take(i as int), t.take(j as int)) == terms_compare(s, t),
            decreases i,
        {
            let c = self.terms[i - 1].exp.compare(&other.terms[j - 1].exp);
            proof {
                assert(s.take(i as int).last() == s[i - 1]);
                assert(t.take(j as int).last() == t[j - 1]);
                assert(s.take(i as int).drop_last() =~= s.take(i - 1));
                assert(t.take(j as int).drop_last() =~= t.take(j - 1));
                assert(self.terms@[i - 1].exp@ == s[i - 1].0);
                assert(other.terms@[j - 1].exp@ == t[j - 1].0);
                assert(self.terms@[i - 1].coeff@ == s[i - 1].1);
                assert(other.terms@[j - 1].coeff@ == t[j - 1].1);
            }
            proof {
                let st = s.take(i as int);
                let tt = t.take(j as int);
                assert(st.len() > 0 && tt.len() > 0);
                assert(c == cnf_compare(st.last().0, tt.last().0));
            }
            if c != 0 {
                return c;
            }
            if self.terms[i - 1].coeff.lt(&other.terms[j - 1].coeff) {
                return -1;
            }
            if other.terms[j - 1].coeff.lt(&self.terms[i - 1].coeff) {
                return 1;
            }
            i = i - 1;
            j = j - 1;
        }
        if i == 0 && j == 0 {
            0
        } else if i == 0 {
            -1
        } else {
            1
        }
    }

    /// Whether the two dendrons are the same ordinal.
    pub fn equals(&self, other: &Dendron) -> (r: bool)
        ensures
            r == (self@ == other@),
    {
        let c = self.compare(other);
        proof {
            lemma_compare_eq(self@, other@);
        }
        c == 0
    }

    /// Whether this dendron is the ordinal one.
    pub fn is_one(&self) -> (r: bool)
        ensures
            r == (self@ == cnf_nat(1)),
    {
        proof {
            use_type_invariant(self);
            self.lemma_view();
        }
        if self.terms.len() != 1 {
            proof {
                if self@ == cnf_nat(1) {
                    assert(self@.terms.len() == 1);
                }
            }
            return false;
        }
        let r = self.terms[0].exp.is_zero() && self.terms[0].coeff.equals(&Natural::from_u64(1));
        proof {
            if r {
                assert(self@.terms =~= cnf_nat(1).terms);
            }
        }
        r
    }
}

impl Term {
    fn duplicate(&self) -> (r: Term)
        ensures
            r.exp@ == self.exp@,
            r.coeff@ == self.coeff@,
    {
        Term { exp: self.exp.duplicate(), coeff: self.coeff.duplicate() }
    }
}

/// The merged terms of two dendrons: their natural sum.
fn merge_terms(a: &Dendron, b: &Dendron) -> (r: Vec<Term>)
    ensures
        terms_match(r@, merge(a@.terms, b@.terms)),
{
    proof {
        use_type_invariant(a);
        use_type_invariant(b);
        a.lemma_view();
        b.lemma_view();
    }
    let ghost s = a@.terms;
    let ghost t = b@.terms;
    let n = a.terms.len();
    let m = b.terms.len();
    let mut r: Vec<Term> = Vec::new();
    let mut i: usize = 0;
    let mut j: usize = 0;
    proof {
        assert(s.skip(0) =~= s);
        assert(t.skip(0) =~= t);
    }
    while i < n || j < m
        invariant
            n == s.len(),
            m == t.len(),
            i <= n,
            j <= m,
            s == a@.terms,
            t == b@.terms,
            terms_match(a.terms@, s),
            terms_match(b.terms@, t),
            r@.len() <= merge(s, t).len(),
            terms_match(r@, merge(s, t).take(r@.len() as int)),
            merge(s, t).skip(r@.len() as int) == merge(s.skip(i as int), t.skip(j as int)),
        decreases (n - i) + (m - j),
    {
        let ghost k = r@.len() as int;
        let ghost ss = s.skip(i as int);
        let ghost tt = t.skip(j as int);
        proof {
            if i < n {
                assert(ss.drop_first() =~= s.skip(i + 1));
                assert(ss[0] == s[i as int]);
            }
            if j < m {
                assert(tt.drop_first() =~= t.skip(j + 1));
                assert(tt[0] == t[j as int]);
            }
        }
        if i == n {
            r.push(b.terms[j].duplicate());
            j = j + 1;
        } else if j == m {
            r.push(a.terms[i].duplicate());
            i = i + 1;
        } else {
            let c = a.terms[i].exp.compare(&b.terms[j].exp);
            if c < 0 {
                r.push(a.terms[i].duplicate());
                i = i + 1;
            } else if c > 0 {
                r.push(b.terms[j].duplicate());
                j = j + 1;
            } else {
                let coeff = a.terms[i].coeff.add(&b.terms[j].coeff);
                r.push(Term { exp: a.terms[i].exp.duplicate(), coeff });
                i = i + 1;
                j = j + 1;
            }
        }
        proof {
            let full = merge(s, t);
            let rest = merge(ss, tt);
            assert(full.skip(k) == rest);
            assert(rest.len() > 0);
            assert(full.skip(k + 1) =~= rest.drop_first());
            assert(full[k] == rest[0]);
            assert(rest.drop_first() == merge(s.skip(i as int), t.skip(j as int)));
            assert forall|x: int| 0 <= x < r@.len() implies (#[trigger] r@[x]).exp@ == full.take(r@.len() as int)[x].0 && r@[x].coeff@ == full.take(r@.len() as int)[x].1 by {
                if x < k {
                    assert(full.take(k)[x] == full[x]);
                }
            }
        }
    }
    proof {
        assert(s.skip(n as int) =~= Seq::<(Cnf, nat)>::empty());
        assert(t.skip(m as int) =~= Seq::<(Cnf, nat)>::empty());
        assert(merge(s, t).take(r@.len() as int) =~= merge(s, t));
    }
    r
}

impl Dendron {
    /// The natural sum `left + right` (coefficients of equal exponents add up).
    pub fn add(left: &Dendron, right: &Dendron) -> (r: Dendron)
        ensures
            r@ == cnf_add(left@, right@),
    {
        let v = merge_terms(left, right);
        proof {
            use_type_invariant(left);
            use_type_invariant(right);
            lemma_add_wf(left@, right@);
            lemma_terms_match(v@, merge(left@.terms, right@.terms));
        }
        Dendron { terms: v }
    }

    /// Adds `other` to this dendron (natural sum).
    pub fn add_assign(&mut self, other: &Dendron)
        ensures
            final(self)@ == cnf_add(old(self)@, other@),
    {
        let r = Dendron::add(self, other);
        *self = r;
    }
}

impl Dendron {
    /// `omega^e * c` for a positive `c`.
    fn monomial(e: Dendron, c: Natural) -> (r: Dendron)
        requires
            c@ > 0,
        ensures
            r@ == cnf_monomial(e@, c@),
    {
        proof {
            use_type_invariant(&e);
        }
        let ghost ev = e@;
        let ghost cv = c@;
        let mut v: Vec<Term> = Vec::new();
        v.push(Term { exp: e, coeff: c });
        proof {
            lemma_terms_match(v@, cnf_monomial(ev, cv).terms);
        }
        Dendron { terms: v }
    }

    /// The natural product `left * right`: every pair of terms multiplies, exponents
    /// adding up and coefficients multiplying, and the products are summed.
    pub fn mul(left: Dendron, right: Dendron) -> (r: Dendron)
        ensures
            r@ == cnf_mul(left@, right@),
    {
        proof {
            use_type_invariant(&left);
            use_type_invariant(&right);
            left.lemma_view();
            right.lemma_view();
        }
        let ghost s = left@.terms;
        let ghost t = right@.terms;
        let n = left.terms.len();
        let m = right.terms.len();
        let mut acc = Dendron::zero();
        let mut i: usize = 0;
        proof {
            assert(s.skip(0) =~= s);
        }
        while i < n
            invariant
                n == s.len(),
                m == t.len(),
                i <= n,
                terms_match(left.terms@, s),
                terms_match(right.terms@, t),
                cnf_mul(left@, right@) == mul_rows(acc@, s.skip(i as int), t),
                s == left@.terms,
                t == right@.terms,
            decreases n - i,
        {
            let mut j: usize = 0;
            proof {
                assert(t.skip(0) =~= t);
                assert(s.skip(i as int)[0] == s[i as int]);
                assert(s.skip(i as int).drop_first() =~= s.skip(i + 1));
            }
            while j < m
                invariant
                    n == s.len(),
                    m == t.len(),
                    i < n,
                    j <= m,
                    s == left@.terms,
                    t == right@.terms,
                    terms_match(left.terms@, s),
                    terms_match(right.terms@, t),
                    cnf_mul(left@, right@) == mul_rows(mul_row(acc@, s[i as int].0, s[i as int].1, t.skip(j as int)), s.skip(i + 1), t),
                decreases m - j,
            {
                let e = Dendron::add(&left.terms[i].exp, &right.terms[j].exp);
                let c = left.terms[i].coeff.mul(&right.terms[j].coeff);
                proof {
                    let (c1, c2) = (s[i as int].1, t[j as int].1);
                    use_type_invariant(&left);
                    use_type_invariant(&right);
                    assert(c1 > 0 && c2 > 0);
                    assert(c1 * c2 > 0) by (nonlinear_arith)
                        requires
                            c1 > 0,
                            c2 > 0,
                    ;
                    assert(t.skip(j as int)[0] == t[j as int]);
                    assert(t.skip(j as int).drop_first() =~= t.skip(j + 1));
                }
                let mono = Dendron::monomial(e, c);
                acc.add_assign(&mono);
                j = j + 1;
            }
            proof {
                assert(t.skip(m as int) =~= Seq::<(Cnf, nat)>::empty());
            }
            i = i + 1;
        }
        proof {
            assert(s.skip(n as int) =~= Seq::<(Cnf, nat)>::empty());
        }
        acc
    }
}

impl Dendron {
    /// The coefficient of `omega^e` in this dendron (zero when there is no such term).
    fn coeff_of(&self, e: &Dendron) -> (r: Natural)
        ensures
            r@ == coeff(self@, e@),
    {
        proof {
            use_type_invariant(self);
            self.lemma_view();
        }
        let ghost s = self@.terms;
        let mut k: usize = self.terms.len();
        let mut acc = Natural::zero();
        proof {
            assert(s.skip(k as int) =~= Seq::<(Cnf, nat)>::empty());
        }
        while k > 0
            invariant
                k <= s.len(),
                s == self@.terms,
                terms_match(self.terms@, s),
                acc@ == terms_coeff(s.skip(k as int), e@),
            decreases k,
        {
            k = k - 1;
            proof {
                assert(s.skip(k as int)[0] == s[k as int]);
                assert(s.skip(k as int).drop_first() =~= s.skip(k + 1));
            }
            if self.terms[k].exp.equals(e) {
                acc = self.terms[k].coeff.add(&acc);
            }
        }
        proof {
            assert(s.skip(0) =~= s);
        }
        acc
    }

    /// `self - other` coefficient by coefficient, when every term of `other` finds a
    /// coefficient at least as large in `self`; `None` otherwise.
    pub fn try_subtract(&self, other: &Dendron) -> (r: Option<Dendron>)
        ensures
            r matches Some(d) ==> cnf_sub(self@, other@) == Some(d@),
            r is None ==> cnf_sub(self@, other@) is None,
    {
        proof {
            use_type_invariant(self);
            use_type_invariant(other);
            self.lemma_view();
            other.lemma_view();
        }
        let ghost s = self@.terms;
        let ghost t = other@.terms;
        let m = other.terms.len();
        let mut j: usize = 0;
        while j < m
            invariant
                m == t.len(),
                j <= m,
                t == other@.terms,
                terms_match(other.terms@, t),
                forall|x: int| 0 <= x < j ==> coeff(self@, #[trigger] t[x].0) >= t[x].1,
            decreases m - j,
        {
            let c = self.coeff_of(&other.terms[j].exp);
            if c.lt(&other.terms[j].coeff) {
                return None;
            }
            j = j + 1;
        }
        let n = self.terms.len();
        let mut v: Vec<Term> = Vec::new();
        let mut i: usize = 0;
        proof {
            assert(s.skip(0) =~= s);
        }
        while i < n
            invariant
                n == s.len(),
                i <= n,
                s == self@.terms,
                terms_match(self.terms@, s),
                v@.len() <= terms_sub(s, other@).len(),
                terms_match(v@, terms_sub(s, other@).take(v@.len() as int)),
                terms_sub(s, other@).skip(v@.len() as int) == terms_sub(s.skip(i as int), other@),
            decreases n - i,
        {
            let ghost k = v@.len() as int;
            let ghost ss = s.skip(i as int);
            proof {
                assert(ss.drop_first() =~= s.skip(i + 1));
                assert(ss[0] == s[i as int]);
            }
            let b = other.coeff_of(&self.terms[i].exp);
            if b.lt(&self.terms[i].coeff) {
                let c = self.terms[i].coeff.sub(&b);
                v.push(Term { exp: self.terms[i].exp.duplicate(), coeff: c });
            }
            i = i + 1;
            proof {
                let full = terms_sub(s, other@);
                let r = monus(ss[0].1, coeff(other@, ss[0].0));
                let h: Seq<(Cnf, nat)> = if r > 0 { seq![(ss[0].0, r)] } else { Seq::empty() };
                let rest = terms_sub(ss.drop_first(), other@);
                assert(terms_sub(ss, other@) == h + rest);
                assert(full.skip(k) == h + rest);
                if r > 0 {
                    assert((h + rest)[0] == h[0]);
                    assert(full.skip(k)[0] == full[k]);
                    assert(full.skip(k + 1) =~= full.skip(k).drop_first());
                    assert((h + rest).drop_first() =~= rest);
                } else {
                    assert(h + rest =~= rest);
                }
                assert forall|x: int| 0 <= x < v@.len() implies (#[trigger] v@[x]).exp@ == full.take(v@.len() as int)[x].0 && v@[x].coeff@ == full.take(v@.len() as int)[x].1 by {
                    if x < k {
                        assert(full.take(k)[x] == full[x]);
                    }
                }
            }
        }
        proof {
            assert(s.skip(n as int) =~= Seq::<(Cnf, nat)>::empty());
            assert(terms_sub(s, other@).take(v@.len() as int) =~= terms_sub(s, other@));
            lemma_terms_match(v@, terms_sub(s, other@));
            lemma_sub_wf(self@, other@);
        }
        Some(Dendron { terms: v })
    }

    /// Takes one from the finite part: when the term `omega^0 * c` is there, it becomes
    /// `omega^0 * (c - 1)` (and goes when that is zero) and the result is `Some(())`;
    /// otherwise the dendron stays as it is and the result is `None`.
    pub fn try_decrement(&mut self) -> (r: Option<()>)
        ensures
            r is Some <==> coeff(old(self)@, cnf_zero()) >= 1,
            r is Some ==> cnf_sub(old(self)@, cnf_nat(1)) == Some(final(self)@),
            r is None ==> final(self)@ == old(self)@,
    {
        let one = Dendron::from_int(Natural::from_u64(1));
        proof {
            let o = cnf_nat(1);
            assert(o.terms[0].0 == cnf_zero());
            assert(o.terms.len() == 1);
            assert(subtracts(self@, o) <==> coeff(self@, o.terms[0].0) >= o.terms[0].1);
        }
        match self.try_subtract(&one) {
            Some(d) => {
                *self = d;
                Some(())
            },
            None => None,
        }
    }
}

impl Dendron {
    /// Every coefficient multiplied by `factor`, which is positive (the division
    /// scales by a count of at least one, the move by a nonzero finite part).
    fn scale(de: &Dendron, factor: &Natural) -> (r: Dendron)
        requires
            factor@ > 0,
        ensures
            r@ == cnf_scale(de@, factor@),
    {
        proof {
            use_type_invariant(de);
            de.lemma_view();
        }
        let ghost s = de@.terms;
        let ghost target = cnf_scale(de@, factor@).terms;
        let n = de.terms.len();
        let mut v: Vec<Term> = Vec::new();
        let mut i: usize = 0;
        while i < n
            invariant
                n == s.len(),
                i <= n,
                s == de@.terms,
                factor@ > 0,
                target == cnf_scale(de@, factor@).terms,
                terms_match(de.terms@, s),
                terms_match(v@, target.take(i as int)),
            decreases n - i,
        {
            let c = de.terms[i].coeff.mul(factor);
            v.push(Term { exp: de.terms[i].exp.duplicate(), coeff: c });
            i = i + 1;
            proof {
                assert forall|x: int| 0 <= x < v@.len() implies (#[trigger] v@[x]).exp@ == target.take(i as int)[x].0 && v@[x].coeff@ == target.take(i as int)[x].1 by {
                    if x < i - 1 {
                        assert(target.take(i - 1)[x] == target[x]);
                    }
                }
            }
        }
        proof {
            assert(target.take(n as int) =~= target);
            lemma_terms_match(v@, target);
            lemma_scale_wf(de@, factor@);
        }
        Dendron { terms: v }
    }

    /// How many times `other` fits into this dendron: the least, over the terms
    /// `omega^e * c` of `other`, of the coefficient of `omega^e` here divided by `c`.
    fn fit(&self, other: &Dendron) -> (r: Natural)
        requires
            other@ != cnf_zero(),
        ensures
            r@ == cnf_fit(self@, other@),
    {
        proof {
            use_type_invariant(other);
            other.lemma_view();
            if other@.terms.len() == 0 {
                assert(other@ =~= cnf_zero());
            }
        }
        let ghost t = other@.terms;
        let mut k: usize = other.terms.len() - 1;
        let q = self.coeff_of(&other.terms[k].exp);
        let mut acc = q.div(&other.terms[k].coeff);
        proof {
            assert(t.skip(k as int).len() == 1);
            assert(t.skip(k as int)[0] == t[k as int]);
        }
        while k > 0
            invariant
                k < t.len(),
                t == other@.terms,
                terms_match(other.terms@, t),
                wf(other@),
                acc@ == terms_fit(self@, t.skip(k as int)),
            decreases k,
        {
            k = k - 1;
            let q = self.coeff_of(&other.terms[k].exp);
            let x = q.div(&other.terms[k].coeff);
            proof {
                assert(t.skip(k as int)[0] == t[k as int]);
                assert(t.skip(k as int).drop_first() =~= t.skip(k + 1));
            }
            if x.le(&acc) {
                acc = x;
            }
        }
        proof {
            assert(t.skip(0) =~= t);
        }
        acc
    }

    /// The first matching pair of the division search, with the shift between
    /// their exponents.
    fn find_pair(rho: &Dendron, pi: &Dendron) -> (r: Option<(usize, usize, Dendron)>)
        ensures
            r matches Some((i, j, d)) ==> first_pair(rho@, pi@, 0) == Some((i as int, j as int)) && d@ == step_delta(rho@, pi@, i as int, j as int),
            r is None ==> first_pair(rho@, pi@, 0) is None,
    {
        proof {
            use_type_invariant(rho);
            use_type_invariant(pi);
            rho.lemma_view();
            pi.lemma_view();
        }
        let n = rho.terms.len();
        let m = pi.terms.len();
        let mut i: usize = 0;
        while i < n
            invariant
                n == rho@.terms.len(),
                m == pi@.terms.len(),
                i <= n,
                terms_match(rho.terms@, rho@.terms),
                terms_match(pi.terms@, pi@.terms),
                first_pair(rho@, pi@, 0) == first_pair(rho@, pi@, i as int),
            decreases n - i,
        {
            let mut j: usize = 0;
            while j < m
                invariant
                    n == rho@.terms.len(),
                    m == pi@.terms.len(),
                    i < n,
                    j <= m,
                    terms_match(rho.terms@, rho@.terms),
                    terms_match(pi.terms@, pi@.terms),
                    first_pair(rho@, pi@, 0) == first_pair(rho@, pi@, i as int),
                    first_in_row(rho@, pi@, i as int, 0) == first_in_row(rho@, pi@, i as int, j as int),
                decreases m - j,
            {
                if pi.terms[j].coeff.le(&rho.terms[i].coeff) {
                    let d = rho.terms[i].exp.try_subtract(&pi.terms[j].exp);
                    match d {
                        Some(delta) => {
                            return Some((i, j, delta));
                        },
                        None => {},
                    }
                }
                j = j + 1;
            }
            i = i + 1;
        }
        None
    }

    /// The division-substitution `self / (pi > sigma)` as far as it can proceed:
    /// `None` where a matching piece does not fit even once.
    fn divsub_checked(&self, pi: &Dendron, sigma: &Dendron) -> (r: Option<Dendron>)
        ensures
            r matches Some(d) ==> cnf_divsub(self@, pi@, sigma@) == Some(d@),
            r is None ==> cnf_divsub(self@, pi@, sigma@) is None,
    {
        proof {
            use_type_invariant(self);
            use_type_invariant(pi);
        }
        let mut rho = self.duplicate();
        let mut psi = Dendron::zero();
        loop
            invariant
                wf(pi@),
                divsub_loop(rho@, psi@, pi@) == divsub_loop(self@, cnf_zero(), pi@),
            ensures
                divsub_loop(self@, cnf_zero(), pi@) == Some((rho@, psi@)),
            decreases coeff_total(rho@.terms),
        {
            proof {
                use_type_invariant(&rho);
                use_type_invariant(&psi);
            }
            match Dendron::find_pair(&rho, pi) {
                None => {
                    break;
                },
                Some((i, j, delta)) => {
                    proof {
                        lemma_first_pair(rho@, pi@, 0);
                    }
                    let d = Dendron::exp(delta);
                    let bit = Dendron::mul(pi.duplicate(), d.duplicate());
                    proof {
                        lemma_step_bit(rho@, pi@, i as int, j as int);
                        assert(bit@ != cnf_zero());
                    }
                    let n = rho.fit(&bit);
                    if n.is_zero() {
                        return None;
                    }
                    proof {
                        lemma_step(rho@, psi@, pi@, i as int, j as int);
                    }
                    let piece = Dendron::scale(&bit, &n);
                    let rest = rho.try_subtract(&piece);
                    match rest {
                        Some(rho2) => {
                            rho = rho2;
                        },
                        None => {
                            return None;
                        },
                    }
                    let dn = Dendron::scale(&d, &n);
                    psi.add_assign(&dn);
                },
            }
        }
        let prod = Dendron::mul(psi, sigma.duplicate());
        rho.add_assign(&prod);
        Some(rho)
    }

    /// The division-substitution `self / (pi > sigma)`: while some term of the remainder
    /// `omega^e * c` meets a term `omega^p * d` of `pi` with `p` below `e` by some
    /// `delta` and `d <= c`, the piece `pi * omega^delta` is taken away as often as it
    /// fits and `omega^delta` counted that often in the quotient; then the
    /// remainder gets the quotient times `sigma` added.
    /// It requires that every piece met fits at least once.
    pub fn divsub(&mut self, pi: &Dendron, sigma: &Dendron)
        requires
            cnf_divsub(old(self)@, pi@, sigma@) is Some,
        ensures
            final(self)@ == cnf_divsub(old(self)@, pi@, sigma@).unwrap(),
            wf(final(self)@),
    {
        match self.divsub_checked(pi, sigma) {
            Some(d) => {
                *self = d;
            },
            None => {},
        }
        self.in_normal_form();
    }

    /// Like `divsub`, but reports with `false` (leaving the dendron as it is) where a
    /// matching piece does not fit even once.
    pub fn try_divsub(&mut self, pi: &Dendron, sigma: &Dendron) -> (r: bool)
        ensures
            r == (cnf_divsub(old(self)@, pi@, sigma@) is Some),
            r ==> final(self)@ == cnf_divsub(old(self)@, pi@, sigma@).unwrap(),
            !r ==> final(self)@ == old(self)@,
            wf(final(self)@),
    {
        let r = match self.divsub_checked(pi, sigma) {
            Some(d) => {
                *self = d;
                true
            },
            None => false,
        };
        self.in_normal_form();
        r
    }
}

impl Dendron {
    /// The finite part of this dendron (the coefficient of `omega^0`).
    pub(crate) fn finite_part(&self) -> (r: Natural)
        ensures
            r@ == cnf_finite(self@),
    {
        proof {
            use_type_invariant(self);
            self.lemma_view();
            lemma_floor_wf(self@);
        }
        if self.terms.len() > 0 && self.terms[0].exp.is_zero() {
            proof {
                crate::cnf::lemma_coeff_sorted(self@.terms, 0);
            }
            self.terms[0].coeff.duplicate()
        } else {
            Natural::zero()
        }
    }

    /// This dendron without its finite part.
    fn floor(&self) -> (r: Dendron)
        ensures
            r@ == cnf_floor(self@),
    {
        proof {
            use_type_invariant(self);
            self.lemma_view();
            lemma_floor_wf(self@);
        }
        if self.terms.len() > 0 && self.terms[0].exp.is_zero() {
            let ghost target = self@.terms.drop_first();
            let n = self.terms.len();
            let mut v: Vec<Term> = Vec::new();
            let mut i: usize = 1;
            while i < n
                invariant
                    n == self@.terms.len(),
                    1 <= i <= n,
                    target == self@.terms.drop_first(),
                    terms_match(self.terms@, self@.terms),
                    terms_match(v@, target.take(i - 1)),
                decreases n - i,
            {
                v.push(self.terms[i].duplicate());
                i = i + 1;
                proof {
                    assert forall|x: int| 0 <= x < v@.len() implies (#[trigger] v@[x]).exp@ == target.take(i - 1)[x].0 && v@[x].coeff@ == target.take(i - 1)[x].1 by {
                        if x < i - 2 {
                            assert(target.take(i - 2)[x] == target[x]);
                        }
                    }
                }
            }
            proof {
                assert(target.take(n - 1) =~= target);
                lemma_terms_match(v@, target);
            }
            Dendron { terms: v }
        } else {
            self.duplicate()
        }
    }

    /// Moves the finite part onto `destination`: the finite part `n` is removed and
    /// `destination * n` (every coefficient times `n`) added. `destination` must have no
    /// finite part itself.
    pub fn move_finite(&mut self, destination: &Dendron)
        requires
            cnf_finite(destination@) == 0,
        ensures
            final(self)@ == cnf_add(cnf_floor(old(self)@), cnf_scale(destination@, cnf_finite(old(self)@))),
    {
        proof {
            use_type_invariant(&*self);
            use_type_invariant(destination);
            lemma_floor_wf(self@);
        }
        let multiplier = self.finite_part();
        if multiplier.is_zero() {
            proof {
                crate::cnf::lemma_canonical(cnf_floor(self@), self@);
                crate::cnf::law_add_zero(self@);
                assert(cnf_scale(destination@, 0) == cnf_zero());
            }
            return;
        }
        let mut f = self.floor();
        let piece = Dendron::scale(destination, &multiplier);
        f.add_assign(&piece);
        *self = f;
    }

    /// The natural sum of all the dendrons, left to right (zero for none).
    pub fn sum(dendrons: Vec<Dendron>) -> (r: Dendron)
        ensures
            r@ == cnf_sum(dendrons@.map_values(|d: Dendron| d@)),
    {
        let ghost ds = dendrons@.map_values(|d: Dendron| d@);
        let n = dendrons.len();
        let mut acc = Dendron::zero();
        let mut i: usize = 0;
        while i < n
            invariant
                n == dendrons@.len(),
                i <= n,
                ds == dendrons@.map_values(|d: Dendron| d@),
                acc@ == cnf_sum(ds.take(i as int)),
            decreases n - i,
        {
            acc.add_assign(&dendrons[i]);
            i = i + 1;
            proof {
                assert(ds.take(i as int).drop_last() =~= ds.take(i - 1));
            }
        }
        proof {
            assert(ds.take(n as int) =~= ds);
        }
        acc
    }

    /// The natural sum of the monomials `omega^e * c` of the list, in any order and
    /// with exponents that may repeat; a zero coefficient adds nothing (a dendron is in
    /// normal form and holds no term with coefficient zero).
    pub fn from_terms_nonunique(terms: Vec<(Dendron, Natural)>) -> (r: Dendron)
        ensures
            r@ == cnf_sum(terms@.map_values(|t: (Dendron, Natural)| cnf_monomial(t.0@, t.1@))),
    {
        let ghost ms = terms@.map_values(|t: (Dendron, Natural)| cnf_monomial(t.0@, t.1@));
        let n = terms.len();
        let mut acc = Dendron::zero();
        let mut i: usize = 0;
        while i < n
            invariant
                n == terms@.len(),
                i <= n,
                ms == terms@.map_values(|t: (Dendron, Natural)| cnf_monomial(t.0@, t.1@)),
                acc@ == cnf_sum(ms.take(i as int)),
            decreases n - i,
        {
            let (e, c) = (&terms[i].0, &terms[i].1);
            if !c.is_zero() {
                let m = Dendron::monomial(e.duplicate(), c.duplicate());
                acc.add_assign(&m);
            } else {
                proof {
                    crate::cnf::law_add_zero(acc@);
                }
            }
            i = i + 1;
            proof {
                assert(ms.take(i as int).drop_last() =~= ms.take(i - 1));
            }
        }
        proof {
            assert(ms.take(n as int) =~= ms);
        }
        acc
    }
}

impl Dendron {
    /// The number of terms; the value is in normal form.
    pub fn num_terms(&self) -> (r: usize)
        ensures
            r == self@.terms.len(),
            wf(self@),
    {
        proof {
            use_type_invariant(self);
            self.lemma_view();
        }
        self.terms.len()
    }

    /// The exponent of term `i` (terms counted from the lowest).
    pub(crate) fn term_exp(&self, i: usize) -> (r: &Dendron)
        requires
            i < self@.terms.len(),
        ensures
            r@ == self@.terms[i as int].0,
    {
        proof {
            self.lemma_view();
        }
        &self.terms[i].exp
    }

    /// The coefficient of term `i` (terms counted from the lowest).
    pub(crate) fn term_coeff(&self, i: usize) -> (r: &Natural)
        requires
            i < self@.terms.len(),
        ensures
            r@ == self@.terms[i as int].1,
    {
        proof {
            self.lemma_view();
        }
        &self.terms[i].coeff
    }
}

impl Clone for Dendron {
    fn clone(&self) -> (r: Dendron)
        ensures
            r@ == self@,
    {
        self.duplicate()
    }
}

impl PartialEq for Dendron {
    fn eq(&self, other: &Dendron) -> (r: bool) {
        self.equals(other)
    }
}

impl Eq for Dendron {}

impl vstd::std_specs::cmp::PartialEqSpecImpl for Dendron {
    open spec fn obeys_eq_spec() -> bool {
        true
    }

    open spec fn eq_spec(&self, other: &Dendron) -> bool {
        self@ == other@
    }
}

} // verus!
