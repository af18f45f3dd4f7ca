//! The string encoding read back: a dendron whose coefficient at `omega^i` is
//! byte `i` of a string is read by `as_c_str` as that string.
use vstd::prelude::*;
use crate::cnf::{
    Cnf, cnf_zero, cnf_nat, cnf_exp, cnf_mul, cnf_add, cnf_sum, wf, coeff, terms_coeff, cnf_lt,
    lemma_canonical, lemma_add_wf,
};
use crate::notation_laws::{lemma_terms_coeff_last, lemma_nat_times_exp};
use crate::division::lemma_monomial_coeff;
use crate::text::{cnf_as_finite, c_str_entries, c_str_bytes, cnf_c_str, positions_fit, walk_fits};

verus! {

/// The number that a finite ordinal stands for (its coefficient, zero for zero).
pub open spec fn nat_of(e: Cnf) -> nat {
    if e.terms.len() == 0 {
        0
    } else {
        e.terms[0].1
    }
}

/// The coefficient that the encoding of the bytes `s` has at exponent `e`: byte `k`
/// where `e` is the finite ordinal `k < s.len()`, zero elsewhere.
pub open spec fn byte_coeff(s: Seq<u8>, e: Cnf) -> nat {
    let k = nat_of(e);
    if e == cnf_nat(k) && k < s.len() {
        s[k as int] as nat
    } else {
        0
    }
}

/// The terms of the encoding: `(k, s[k])` for each nonzero byte, lowest first.
pub open spec fn bytes_terms(s: Seq<u8>) -> Seq<(Cnf, nat)>
    decreases s.len(),
{
    if s.len() == 0 {
        Seq::empty()
    } else if s.last() == 0 {
        bytes_terms(s.drop_last())
    } else {
        bytes_terms(s.drop_last()).push((cnf_nat((s.len() - 1) as nat), s.last() as nat))
    }
}

/// The (position, byte) entries of the nonzero bytes, lowest first.
pub open spec fn byte_entries(s: Seq<u8>) -> Seq<(nat, nat)>
    decreases s.len(),
{
    if s.len() == 0 {
        Seq::empty()
    } else if s.last() == 0 {
        byte_entries(s.drop_last())
    } else {
        byte_entries(s.drop_last()).push(((s.len() - 1) as nat, s.last() as nat))
    }
}

/// The bytes without their trailing zero bytes.
pub open spec fn trim(s: Seq<u8>) -> Seq<u8>
    decreases s.len(),
{
    if s.len() == 0 {
        s
    } else if s.last() == 0 {
        trim(s.drop_last())
    } else {
        s
    }
}

proof fn lemma_nat(k: nat)
    ensures
        nat_of(cnf_nat(k)) == k,
        cnf_as_finite(cnf_nat(k)) == Some(k),
        wf(cnf_nat(k)),
{
    assert(wf(cnf_zero()));
}

proof fn lemma_nat_lt(i: nat, j: nat)
    requires
        i < j,
    ensures
        cnf_lt(cnf_nat(i), cnf_nat(j)),
{
    let a = cnf_nat(i).terms;
    let b = cnf_nat(j).terms;
    if i > 0 {
        assert(crate::cnf::cnf_compare(cnf_zero(), cnf_zero()) == 0);
        assert(a.last() == (cnf_zero(), i));
        assert(b.last() == (cnf_zero(), j));
    }
}

/// The shape, entries and coefficients of the encoding.
proof fn lemma_bytes_terms(s: Seq<u8>)
    ensures
        ({
            let t = bytes_terms(s);
            &&& forall|i: int| 0 <= i < t.len() ==> #[trigger] t[i].0 == cnf_nat(nat_of(t[i].0))
                && nat_of(t[i].0) < s.len() && 0 < t[i].1 < 256
            &&& forall|i: int, j: int| 0 <= i < j < t.len() ==> nat_of(#[trigger] t[i].0) < nat_of(#[trigger] t[j].0)
            &&& c_str_entries(t) == Some(byte_entries(s))
            &&& forall|e: Cnf| #[trigger] terms_coeff(t, e) == byte_coeff(s, e)
        }),
    decreases s.len(),
{
    let t = bytes_terms(s);
    if s.len() > 0 {
        let n = s.len();
        let sd = s.drop_last();
        let td = bytes_terms(sd);
        lemma_bytes_terms(sd);
        if s.last() == 0 {
            assert forall|e: Cnf| #[trigger] terms_coeff(t, e) == byte_coeff(s, e) by {
                assert(terms_coeff(td, e) == byte_coeff(sd, e));
                let k = nat_of(e);
                if k < n - 1 {
                    assert(sd[k as int] == s[k as int]);
                }
            }
        } else {
            let v = s.last() as nat;
            let top = cnf_nat((n - 1) as nat);
            lemma_nat((n - 1) as nat);
            assert(t.drop_last() =~= td);
            assert(t.last() == (top, v));
            assert forall|i: int| 0 <= i < t.len() implies #[trigger] t[i].0 == cnf_nat(nat_of(t[i].0))
                && nat_of(t[i].0) < s.len() && 0 < t[i].1 < 256 by {
                if i < td.len() {
                    assert(t[i] == td[i]);
                }
            }
            assert forall|i: int, j: int| 0 <= i < j < t.len() implies nat_of(#[trigger] t[i].0) < nat_of(#[trigger] t[j].0) by {
                assert(t[i] == td[i]);
                if j < td.len() {
                    assert(t[j] == td[j]);
                }
            }
            assert forall|e: Cnf| #[trigger] terms_coeff(t, e) == byte_coeff(s, e) by {
                lemma_terms_coeff_last(t, e);
                assert(terms_coeff(td, e) == byte_coeff(sd, e));
                let k = nat_of(e);
                if k < n - 1 {
                    assert(sd[k as int] == s[k as int]);
                }
            }
        }
    }
}

/// Placing the entries of the nonzero bytes gives the bytes up to the last nonzero one.
proof fn lemma_entries_bytes(s: Seq<u8>)
    ensures
        trim(s).len() <= s.len(),
        forall|i: int| 0 <= i < trim(s).len() ==> trim(s)[i] == s[i],
        forall|i: int| trim(s).len() <= i < s.len() ==> s[i] == 0,
        c_str_bytes(byte_entries(s)) == trim(s),
    decreases s.len(),
{
    if s.len() > 0 {
        let n = s.len();
        let sd = s.drop_last();
        lemma_entries_bytes(sd);
        if s.last() == 0 {
            assert forall|i: int| 0 <= i < trim(s).len() implies trim(s)[i] == s[i] by {
                assert(trim(sd)[i] == sd[i]);
            }
            assert forall|i: int| trim(s).len() <= i < s.len() implies s[i] == 0 by {
                if i < n - 1 {
                    assert(sd[i] == 0);
                }
            }
        } else {
            let buf = trim(sd);
            let e = byte_entries(s);
            assert(e.drop_last() =~= byte_entries(sd));
            assert(e.last() == ((n - 1) as nat, s.last() as nat));
            let padded = buf + Seq::new(((n - 1) + 1 - buf.len()) as nat, |i: int| 0u8);
            assert(c_str_bytes(e) == padded.update(n - 1, s.last()));
            assert(padded.update(n - 1, s.last()) =~= s) by {
                assert forall|i: int| 0 <= i < n implies #[trigger] padded.update(n - 1, s.last())[i] == s[i] by {
                    if i < n - 1 {
                        assert(sd[i] == s[i]);
                    }
                }
            }
        }
    }
}

/// The positions of the entries lie within the bytes.
proof fn lemma_entry_positions(s: Seq<u8>)
    ensures
        forall|i: int| 0 <= i < byte_entries(s).len() ==> (#[trigger] byte_entries(s)[i]).0 < s.len(),
    decreases s.len(),
{
    if s.len() > 0 {
        let sd = s.drop_last();
        lemma_entry_positions(sd);
        if s.last() != 0 {
            let e = byte_entries(s);
            assert forall|i: int| 0 <= i < e.len() implies (#[trigger] e[i]).0 < s.len() by {
                if i < e.len() - 1 {
                    assert(e[i] == byte_entries(sd)[i]);
                }
            }
        }
    }
}

/// A walk that meets only positions below `usize::MAX` fits.
proof fn lemma_walk_fits(t: Seq<(Cnf, nat)>)
    requires
        forall|i: int| 0 <= i < t.len() ==> (cnf_as_finite(#[trigger] t[i].0) matches Some(k) ==> k < usize::MAX),
    ensures
        walk_fits(t),
    decreases t.len(),
{
    if t.len() > 0 {
        assert forall|i: int| 0 <= i < t.drop_first().len() implies (cnf_as_finite(#[trigger] t.drop_first()[i].0) matches Some(k) ==> k < usize::MAX) by {
            assert(t.drop_first()[i] == t[i + 1]);
        }
        lemma_walk_fits(t.drop_first());
        assert(cnf_as_finite(t[0].0) matches Some(k) ==> k < usize::MAX);
    }
}

/// Law: a dendron in normal form whose coefficient at `omega^i` is byte `i` of a
/// valid UTF-8 string `s` (whose last byte, if any, is not zero), and zero at every
/// other exponent, reads as the string `s`; where `s` fits in memory, `as_c_str`
/// can read it.
pub proof fn law_c_str_reads_bytes(a: Cnf, s: Seq<u8>)
    requires
        wf(a),
        vstd::utf8::valid_utf8(s),
        s.len() == 0 || s.last() != 0,
        forall|e: Cnf| #[trigger] coeff(a, e) == byte_coeff(s, e),
    ensures
        cnf_c_str(a) == Some(vstd::utf8::decode_utf8(s)),
        s.len() <= usize::MAX ==> positions_fit(a),
{
    let t = bytes_terms(s);
    let b = Cnf { terms: t };
    lemma_bytes_terms(s);
    assert(wf(b)) by {
        assert forall|i: int, j: int| 0 <= i < j < t.len() implies cnf_lt(#[trigger] t[i].0, #[trigger] t[j].0) by {
            lemma_nat_lt(nat_of(t[i].0), nat_of(t[j].0));
        }
        assert forall|i: int| 0 <= i < t.len() implies wf(#[trigger] t[i].0) by {
            lemma_nat(nat_of(t[i].0));
        }
        assert forall|i: int| 0 <= i < t.len() implies #[trigger] t[i].1 > 0 by {
            assert(t[i].0 == cnf_nat(nat_of(t[i].0)));
        }
    }
    assert forall|e: Cnf| coeff(a, e) == coeff(b, e) by {
        assert(terms_coeff(t, e) == byte_coeff(s, e));
    }
    lemma_canonical(a, b);
    lemma_entries_bytes(s);
    assert(trim(s) == s);
    if s.len() <= usize::MAX {
        assert forall|i: int| 0 <= i < t.len() implies (cnf_as_finite(#[trigger] t[i].0) matches Some(k) ==> k < usize::MAX) by {
            lemma_nat(nat_of(t[i].0));
        }
        lemma_walk_fits(t);
        lemma_entry_positions(s);
        let e = byte_entries(s);
        assert forall|i: int| 0 <= i < e.len() implies (#[trigger] e[i]).0 < usize::MAX by {}
    }
}

/// The summands `s[i] * omega^i` of the encoding of the bytes `s`.
pub open spec fn byte_summands(s: Seq<u8>) -> Seq<Cnf> {
    Seq::new(s.len(), |i: int| cnf_mul(cnf_nat(s[i] as nat), cnf_exp(cnf_nat(i as nat))))
}

/// The sum of the summands is in normal form and has the coefficients of the bytes.
proof fn lemma_byte_sum(s: Seq<u8>)
    ensures
        wf(cnf_sum(byte_summands(s))),
        forall|e: Cnf| #[trigger] coeff(cnf_sum(byte_summands(s)), e) == byte_coeff(s, e),
    decreases s.len(),
{
    let ms = byte_summands(s);
    if s.len() == 0 {
        assert(wf(cnf_zero()));
    } else {
        let n = s.len();
        let sd = s.drop_last();
        lemma_byte_sum(sd);
        assert(ms.drop_last() =~= byte_summands(sd));
        let v = s.last() as nat;
        let top = cnf_nat((n - 1) as nat);
        lemma_nat((n - 1) as nat);
        lemma_nat(v);
        let m = ms.last();
        assert(m == cnf_mul(cnf_nat(v), cnf_exp(top)));
        assert(wf(cnf_exp(top)));
        if v > 0 {
            lemma_nat_times_exp(top, v);
        } else {
            crate::product_laws::law_mul_zero(cnf_exp(top));
        }
        assert(m == crate::cnf::cnf_monomial(top, v));
        crate::cnf::lemma_monomial_wf(top, v);
        let prev = cnf_sum(byte_summands(sd));
        lemma_add_wf(prev, m);
        assert forall|e: Cnf| #[trigger] coeff(cnf_sum(ms), e) == byte_coeff(s, e) by {
            lemma_monomial_coeff(top, v, e);
            assert(coeff(prev, e) == byte_coeff(sd, e));
            let k = nat_of(e);
            if k < n - 1 {
                assert(sd[k as int] == s[k as int]);
            }
        }
    }
}

/// Law: the dendron `s[0] * omega^0 + s[1] * omega^1 + ...` built from a valid
/// UTF-8 string `s` (whose last byte, if any, is not zero) reads as `s`; where `s`
/// fits in memory, `as_c_str` can read it.
pub proof fn law_c_str_of_byte_sum(s: Seq<u8>)
    requires
        vstd::utf8::valid_utf8(s),
        s.len() == 0 || s.last() != 0,
    ensures
        cnf_c_str(cnf_sum(byte_summands(s))) == Some(vstd::utf8::decode_utf8(s)),
        s.len() <= usize::MAX ==> positions_fit(cnf_sum(byte_summands(s))),
{
    lemma_byte_sum(s);
    law_c_str_reads_bytes(cnf_sum(byte_summands(s)), s);
}

} // verus!
