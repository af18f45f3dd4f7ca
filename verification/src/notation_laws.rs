//! The notation laws: reading the plain notation of a dendron gives back the dendron.
use vstd::prelude::*;
use crate::cnf::{
    Cnf, cnf_zero, cnf_nat, cnf_exp, wf, coeff, terms_coeff, cnf_add, cnf_mul, cnf_monomial,
    lemma_add_wf, lemma_monomial_wf, lemma_canonical, law_add_zero, lemma_mul_wf,
};
use crate::natural::{decimal_chars, decimal_value, digit_char, digit_value};
use crate::syntax::{
    is_space, is_digit, at, term_start, skip_ws, digits_end, parse_literal, parse_more_terms,
    parse_term, parse_exp, parse_literal_text,
};
use crate::text::{display, display_terms, display_term};
use crate::division::lemma_monomial_coeff;

verus! {

/// The text `x` stands in `s` from position `p` on.
pub open spec fn occurs(s: Seq<char>, p: int, x: Seq<char>) -> bool {
    &&& 0 <= p
    &&& p + x.len() <= s.len()
    &&& s.subrange(p, p + x.len()) == x
}

/// A literal may end at `q`: the source ends there or a "]" follows.
pub open spec fn stops(s: Seq<char>, q: int) -> bool {
    q == s.len() || at(s, q, ']')
}

/// A term may end at `q`: a literal ends there or a "+" follows.
pub open spec fn term_stops(s: Seq<char>, q: int) -> bool {
    stops(s, q) || at(s, q, '+')
}

proof fn lemma_occurs_concat(s: Seq<char>, p: int, x: Seq<char>, y: Seq<char>)
    requires
        occurs(s, p, x + y),
    ensures
        occurs(s, p, x),
        occurs(s, p + x.len(), y),
{
    assert(s.subrange(p, p + x.len()) =~= (x + y).subrange(0, x.len() as int));
    assert((x + y).subrange(0, x.len() as int) =~= x);
    assert(s.subrange(p + x.len(), p + x.len() + y.len()) =~= (x + y).subrange(x.len() as int, (x + y).len() as int));
    assert((x + y).subrange(x.len() as int, (x + y).len() as int) =~= y);
}

proof fn lemma_occurs_at(s: Seq<char>, p: int, x: Seq<char>, i: int)
    requires
        occurs(s, p, x),
        0 <= i < x.len(),
    ensures
        s[p + i] == x[i],
{
    assert(s.subrange(p, p + x.len())[i] == s[p + i]);
}

proof fn lemma_digit_char(d: nat)
    requires
        d < 10,
    ensures
        is_digit(digit_char(d)),
        digit_value(digit_char(d)) == d,
        !is_space(digit_char(d)),
        digit_char(d) != '[' && digit_char(d) != ']' && digit_char(d) != '+',
{
    assert(('0' as int + d) as char as int == '0' as int + d);
}

/// The decimal notation of `n` is a nonempty run of digits that reads back as `n`.
pub proof fn lemma_decimal_chars(n: nat)
    ensures
        decimal_chars(n).len() > 0,
        forall|i: int| 0 <= i < decimal_chars(n).len() ==> is_digit(#[trigger] decimal_chars(n)[i]),
        decimal_value(decimal_chars(n)) == n,
    decreases n,
{
    lemma_digit_char(n % 10);
    let s = decimal_chars(n);
    if n >= 10 {
        lemma_decimal_chars(n / 10);
        assert(s.drop_last() =~= decimal_chars(n / 10));
        assert(s.last() == digit_char(n % 10));
        assert forall|i: int| 0 <= i < s.len() implies is_digit(#[trigger] s[i]) by {
            if i < s.len() - 1 {
                assert(s[i] == decimal_chars(n / 10)[i]);
            }
        }
        assert(decimal_value(s) == decimal_value(s.drop_last()) * 10 + digit_value(s.last()));
        assert((n / 10) * 10 + n % 10 == n);
    } else {
        assert(s.drop_last() =~= Seq::<char>::empty());
        assert(decimal_value(s.drop_last()) == 0);
        assert(s.last() == digit_char(n));
        assert(decimal_value(s) == decimal_value(s.drop_last()) * 10 + digit_value(s.last()));
    }
}

/// Over a run of digits, the digits end where the run does.
proof fn lemma_digits_run(s: Seq<char>, p: int, x: Seq<char>)
    requires
        occurs(s, p, x),
        forall|i: int| 0 <= i < x.len() ==> is_digit(#[trigger] x[i]),
        p + x.len() == s.len() || !is_digit(s[p + x.len()]),
    ensures
        digits_end(s, p) == p + x.len(),
    decreases x.len(),
{
    if x.len() > 0 {
        lemma_occurs_at(s, p, x, 0);
        assert(x =~= seq![x[0]] + x.drop_first());
        lemma_occurs_concat(s, p, seq![x[0]], x.drop_first());
        lemma_digits_run(s, p + 1, x.drop_first());
    }
}

/// The plain notation starts a term: its first character is a digit or "[".
proof fn lemma_display_start(a: Cnf)
    ensures
        display(a).len() > 0,
        is_digit(display(a)[0]) || display(a)[0] == '[',
{
    if a.terms.len() == 0 {
        assert(is_digit('0'));
    } else {
        let ts = a.terms;
        lemma_display_term_start(ts.last());
        if ts.len() == 1 {
            assert(ts.last() == ts[0]);
        }
    }
}

proof fn lemma_display_term_start(t: (Cnf, nat))
    ensures
        display_term(t).len() > 0,
        is_digit(display_term(t)[0]) || display_term(t)[0] == '[',
{
    lemma_decimal_chars(t.1);
}

/// The sum that the parser builds: `acc`, then the terms of `ts` from the last down.
pub open spec fn parsed_sum(acc: Cnf, ts: Seq<(Cnf, nat)>) -> Cnf
    decreases ts.len(),
{
    if ts.len() == 0 {
        acc
    } else {
        parsed_sum(cnf_add(acc, cnf_monomial(ts.last().0, ts.last().1)), ts.drop_last())
    }
}

/// The coefficient of `g` counted with the last term apart.
pub proof fn lemma_terms_coeff_last(ts: Seq<(Cnf, nat)>, g: Cnf)
    requires
        ts.len() > 0,
    ensures
        terms_coeff(ts, g) == terms_coeff(ts.drop_last(), g) + (if ts.last().0 == g { ts.last().1 } else { 0 }),
    decreases ts.len(),
{
    if ts.len() > 1 {
        lemma_terms_coeff_last(ts.drop_first(), g);
        assert(ts.drop_first().drop_last() =~= ts.drop_last().drop_first());
        assert(ts.drop_last()[0] == ts[0]);
    } else {
        assert(ts.drop_first() =~= Seq::<(Cnf, nat)>::empty());
        assert(ts.drop_last() =~= Seq::<(Cnf, nat)>::empty());
    }
}

/// The terms of an ordinal in normal form.
pub open spec fn terms_wf(ts: Seq<(Cnf, nat)>) -> bool {
    forall|i: int| 0 <= i < ts.len() ==> wf(#[trigger] ts[i].0) && ts[i].1 > 0
}

proof fn lemma_parsed_sum(acc: Cnf, ts: Seq<(Cnf, nat)>, g: Cnf)
    requires
        wf(acc),
        terms_wf(ts),
    ensures
        wf(parsed_sum(acc, ts)),
        coeff(parsed_sum(acc, ts), g) == coeff(acc, g) + terms_coeff(ts, g),
    decreases ts.len(),
{
    if ts.len() > 0 {
        let (e, c) = ts.last();
        assert(wf(e) && c > 0);
        let m = cnf_monomial(e, c);
        lemma_monomial_wf(e, c);
        lemma_add_wf(acc, m);
        lemma_monomial_coeff(e, c, g);
        assert(terms_wf(ts.drop_last())) by {
            assert forall|i: int| 0 <= i < ts.drop_last().len() implies wf(#[trigger] ts.drop_last()[i].0) && ts.drop_last()[i].1 > 0 by {
                assert(ts.drop_last()[i] == ts[i]);
            }
        }
        lemma_parsed_sum(cnf_add(acc, m), ts.drop_last(), g);
        lemma_terms_coeff_last(ts, g);
    }
}

/// `c * omega^e` read as "c[e]" is the monomial.
pub proof fn lemma_nat_times_exp(e: Cnf, c: nat)
    requires
        wf(e),
        c > 0,
    ensures
        cnf_mul(cnf_nat(c), cnf_exp(e)) == cnf_monomial(e, c),
{
    assert(wf(cnf_zero()));
    assert(wf(cnf_nat(c)));
    assert(wf(cnf_exp(e)));
    lemma_mul_wf(cnf_nat(c), cnf_exp(e));
    lemma_monomial_wf(e, c);
    assert forall|g: Cnf| coeff(cnf_mul(cnf_nat(c), cnf_exp(e)), g) == coeff(cnf_monomial(e, c), g) by {
        crate::product_laws::lemma_mul_coeff(cnf_nat(c), cnf_exp(e), g);
        let s = cnf_nat(c).terms;
        let t = cnf_exp(e).terms;
        assert(s.drop_first() =~= Seq::<(Cnf, nat)>::empty());
        assert(t.drop_first() =~= Seq::<(Cnf, nat)>::empty());
        law_add_zero(e);
        crate::cnf::law_add_commutative(cnf_zero(), e);
        assert(c * 1 == c);
        lemma_monomial_coeff(e, c, g);
        assert(crate::product_laws::rows_coeff(s, t, g) == crate::product_laws::row_coeff(s[0], t, g) + crate::product_laws::rows_coeff(s.drop_first(), t, g));
        assert(crate::product_laws::row_coeff(s[0], t, g) == crate::product_laws::pair_coeff(s[0], t[0], g) + crate::product_laws::row_coeff(s[0], t.drop_first(), g));
    }
    lemma_canonical(cnf_mul(cnf_nat(c), cnf_exp(e)), cnf_monomial(e, c));
}

/// Reading the plain notation of `a` at `p` gives `a` and ends after it.
pub proof fn lemma_read_display(s: Seq<char>, p: int, a: Cnf)
    requires
        wf(a),
        occurs(s, p, display(a)),
        stops(s, p + display(a).len()),
    ensures
        parse_literal(s, p) == Ok::<_, int>((a, p + display(a).len())),
    decreases a, 2int,
{
    let d = display(a);
    let end = p + d.len();
    if a.terms.len() == 0 {
        assert(d == seq!['0']);
        lemma_occurs_at(s, p, d, 0);
        assert(is_digit('0'));
        lemma_digits_run(s, p, d);
        assert(s.subrange(p, p + 1) == seq!['0']);
        lemma_decimal_chars(0);
        assert(decimal_chars(0) =~= seq!['0']);
        assert(decimal_value(seq!['0']) == 0);
        assert(cnf_nat(0) == a) by {
            assert(a.terms =~= cnf_zero().terms);
        }
        assert(parse_term(s, p) == Ok::<_, int>((a, end)));
        assert(skip_ws(s, end) == end);
        assert(parse_more_terms(s, end, a) == Ok::<_, int>((a, end)));
    } else {
        let ts = a.terms;
        let top = ts.last();
        assert(terms_wf(ts)) by {
            assert forall|i: int| 0 <= i < ts.len() implies wf(#[trigger] ts[i].0) && ts[i].1 > 0 by {}
        }
        assert(wf(top.0) && top.1 > 0);
        let tt = display_term(top);
        if ts.len() == 1 {
            assert(d == tt);
            lemma_read_term(s, p, top);
            assert(skip_ws(s, end) == end);
            assert(parse_more_terms(s, end, cnf_monomial(top.0, top.1)) == Ok::<_, int>((cnf_monomial(top.0, top.1), end)));
            lemma_parsed_sum(cnf_zero(), ts, cnf_zero());
            assert(ts.drop_last() =~= Seq::<(Cnf, nat)>::empty());
            // the one term is the whole ordinal
            lemma_monomial_wf(top.0, top.1);
            assert forall|g: Cnf| coeff(cnf_monomial(top.0, top.1), g) == coeff(a, g) by {
                lemma_monomial_coeff(top.0, top.1, g);
                lemma_terms_coeff_last(ts, g);
            }
            lemma_canonical(cnf_monomial(top.0, top.1), a);
        } else {
            let rest = ts.drop_last();
            let more = seq!['+'] + display_terms(rest);
            assert(d =~= tt + more);
            lemma_occurs_concat(s, p, tt, more);
            lemma_display_terms_start(rest);
            lemma_occurs_at(s, p + tt.len(), more, 0);
            lemma_read_term(s, p, top);
            let m = cnf_monomial(top.0, top.1);
            lemma_monomial_wf(top.0, top.1);
            assert(terms_wf(rest)) by {
                assert forall|i: int| 0 <= i < rest.len() implies wf(#[trigger] rest[i].0) && rest[i].1 > 0 by {
                    assert(rest[i] == ts[i]);
                }
            }
            lemma_read_more(s, p + tt.len(), m, rest);
            // the parsed sum is the ordinal
            lemma_parsed_sum(m, rest, cnf_zero());
            assert forall|g: Cnf| coeff(parsed_sum(m, rest), g) == coeff(a, g) by {
                lemma_parsed_sum(m, rest, g);
                lemma_monomial_coeff(top.0, top.1, g);
                lemma_terms_coeff_last(ts, g);
            }
            lemma_canonical(parsed_sum(m, rest), a);
        }
    }
}

proof fn lemma_display_terms_start(ts: Seq<(Cnf, nat)>)
    requires
        ts.len() > 0,
    ensures
        display_terms(ts).len() > 0,
        is_digit(display_terms(ts)[0]) || display_terms(ts)[0] == '[',
{
    lemma_display_term_start(ts.last());
    if ts.len() == 1 {
        assert(ts.last() == ts[0]);
    }
}

/// Reading "+" and the terms `ts` (highest first) at `p` adds them to `acc`.
proof fn lemma_read_more(s: Seq<char>, p: int, acc: Cnf, ts: Seq<(Cnf, nat)>)
    requires
        ts.len() > 0,
        terms_wf(ts),
        occurs(s, p, seq!['+'] + display_terms(ts)),
        stops(s, p + 1 + display_terms(ts).len()),
    ensures
        parse_more_terms(s, p, acc) == Ok::<_, int>((parsed_sum(acc, ts), p + 1 + display_terms(ts).len())),
    decreases ts, 1int,
{
    let dt = display_terms(ts);
    let end = p + 1 + dt.len();
    lemma_occurs_concat(s, p, seq!['+'], dt);
    lemma_occurs_at(s, p, seq!['+'], 0);
    lemma_display_terms_start(ts);
    lemma_occurs_at(s, p + 1, dt, 0);
    assert(skip_ws(s, p) == p);
    assert(skip_ws(s, p + 1) == p + 1);
    assert(term_start(s, p + 1));
    let top = ts.last();
    assert(wf(top.0) && top.1 > 0);
    let tt = display_term(top);
    let m = cnf_monomial(top.0, top.1);
    if ts.len() == 1 {
        assert(dt == tt);
        lemma_read_term(s, p + 1, top);
        assert(skip_ws(s, end) == end);
        assert(parse_more_terms(s, end, cnf_add(acc, m)) == Ok::<_, int>((cnf_add(acc, m), end)));
        assert(ts.drop_last() =~= Seq::<(Cnf, nat)>::empty());
        lemma_display_term_start(top);
        assert(parsed_sum(acc, ts) == parsed_sum(cnf_add(acc, m), ts.drop_last()));
        assert(parsed_sum(acc, ts) == cnf_add(acc, m));
    } else {
        let rest = ts.drop_last();
        let more = seq!['+'] + display_terms(rest);
        assert(dt =~= tt + more);
        lemma_occurs_concat(s, p + 1, tt, more);
        lemma_display_terms_start(rest);
        lemma_occurs_at(s, p + 1 + tt.len(), more, 0);
        lemma_read_term(s, p + 1, top);
        assert(terms_wf(rest)) by {
            assert forall|i: int| 0 <= i < rest.len() implies wf(#[trigger] rest[i].0) && rest[i].1 > 0 by {
                assert(rest[i] == ts[i]);
                assert(wf(ts[i].0));
            }
        }
        lemma_read_more(s, p + 1 + tt.len(), cnf_add(acc, m), rest);
        lemma_display_term_start(top);
        assert(parsed_sum(acc, ts) == parsed_sum(cnf_add(acc, m), rest));
    }
}

/// Reading the notation of the term `t` at `p` gives its monomial and ends after it.
proof fn lemma_read_term(s: Seq<char>, p: int, t: (Cnf, nat))
    requires
        wf(t.0),
        t.1 > 0,
        occurs(s, p, display_term(t)),
        term_stops(s, p + display_term(t).len()),
    ensures
        parse_term(s, p) == Ok::<_, int>((cnf_monomial(t.0, t.1), p + display_term(t).len())),
    decreases t, 0int,
{
    let (e, c) = t;
    let dt = display_term(t);
    let end = p + dt.len();
    let dec = decimal_chars(c);
    lemma_decimal_chars(c);
    if e == cnf_zero() {
        assert(dt == dec);
        lemma_occurs_at(s, p, dec, 0);
        lemma_digits_run(s, p, dec);
        assert(skip_ws(s, end) == end);
        assert(s.subrange(p, end) == dec);
        assert(cnf_nat(c) == cnf_monomial(e, c));
    } else {
        let de = display(e);
        let bracket = seq!['['] + de + seq![']'];
        lemma_display_start(e);
        assert(decreases_to!(t => t.0));
        if c == 1 {
            assert(dt == bracket);
            lemma_read_exp(s, p, e);
            lemma_occurs_at(s, p, bracket, 0);
            assert(!is_digit('['));
            assert(cnf_exp(e) == cnf_monomial(e, c));
        } else {
            assert(dt =~= dec + bracket);
            lemma_occurs_concat(s, p, dec, bracket);
            lemma_occurs_at(s, p, dec, 0);
            lemma_occurs_at(s, p + dec.len(), bracket, 0);
            assert(!is_digit('['));
            lemma_digits_run(s, p, dec);
            assert(skip_ws(s, p + dec.len()) == p + dec.len());
            lemma_read_exp(s, p + dec.len(), e);
            lemma_nat_times_exp(e, c);
            assert(s.subrange(p, p + dec.len()) == dec);
        }
    }
}

/// Reading "[" the notation of `e` "]" at `p` gives `omega^e`.
proof fn lemma_read_exp(s: Seq<char>, p: int, e: Cnf)
    requires
        wf(e),
        occurs(s, p, seq!['['] + display(e) + seq![']']),
    ensures
        parse_exp(s, p) == Ok::<_, int>((cnf_exp(e), p + display(e).len() + 2)),
    decreases e, 3int,
{
    let de = display(e);
    lemma_occurs_concat(s, p, seq!['['] + de, seq![']']);
    lemma_occurs_concat(s, p, seq!['['], de);
    lemma_occurs_at(s, p, seq!['['], 0);
    lemma_display_start(e);
    lemma_occurs_at(s, p + 1, de, 0);
    lemma_occurs_at(s, p + 1 + de.len(), seq![']'], 0);
    assert(skip_ws(s, p + 1) == p + 1);
    assert(!at(s, p + 1, ']'));
    lemma_read_display(s, p + 1, e);
    assert(skip_ws(s, p + 1 + de.len()) == p + 1 + de.len());
}

/// Law: reading the plain notation of a dendron gives the dendron back.
pub proof fn law_read_display(a: Cnf)
    requires
        wf(a),
    ensures
        parse_literal_text(display(a)) == Ok::<Cnf, int>(a),
{
    let s = display(a);
    assert(s.subrange(0, s.len() as int) =~= s);
    lemma_display_start(a);
    assert(skip_ws(s, 0) == 0);
    lemma_read_display(s, 0, a);
}

} // verus!
