//! How dendrons are written: the plain notation (highest term first, `c[e]`
//! for `omega^e * c`) and LaTeX.
use vstd::prelude::*;
use crate::cnf::{Cnf, cnf_zero, cnf_nat, wf};
use crate::natural::{Natural, decimal_chars};
use crate::dendrons::Dendron;

verus! {

/// The plain notation of a dendron: "0" for zero, otherwise its terms from the
/// highest down, joined by "+".
pub open spec fn display(a: Cnf) -> Seq<char>
    decreases a,
{
    if a.terms.len() == 0 {
        seq!['0']
    } else {
        display_terms(a.terms)
    }
}

/// The terms of a list from the last (highest) down, joined by "+".
pub open spec fn display_terms(s: Seq<(Cnf, nat)>) -> Seq<char>
    decreases s,
{
    if s.len() == 0 {
        Seq::empty()
    } else if s.len() == 1 {
        display_term(s[0])
    } else {
        display_term(s.last()) + seq!['+'] + display_terms(s.drop_last())
    }
}

/// One term `omega^e * c`: "c" when `e` is zero, "[e]" when `c` is one, else "c[e]".
pub open spec fn display_term(t: (Cnf, nat)) -> Seq<char>
    decreases t,
{
    if t.0 == cnf_zero() {
        decimal_chars(t.1)
    } else if t.1 == 1 {
        seq!['['] + display(t.0) + seq![']']
    } else {
        decimal_chars(t.1) + seq!['['] + display(t.0) + seq![']']
    }
}

/// `\omega`.
pub open spec fn tex_omega() -> Seq<char> {
    seq!['\\', 'o', 'm', 'e', 'g', 'a']
}

/// The LaTeX notation of a dendron: "0" for zero, otherwise its terms from the
/// lowest up, joined by "+".
pub open spec fn tex(a: Cnf) -> Seq<char>
    decreases a, 1int,
{
    if a.terms.len() == 0 {
        seq!['0']
    } else {
        tex_terms(a.terms)
    }
}

/// The terms of a list from the first (lowest) up, joined by "+".
pub open spec fn tex_terms(s: Seq<(Cnf, nat)>) -> Seq<char>
    decreases s, 1int,
{
    if s.len() == 0 {
        Seq::empty()
    } else if s.len() == 1 {
        tex_term(s[0])
    } else {
        tex_terms(s.drop_last()) + seq!['+'] + tex_term(s.last())
    }
}

/// One term: "c" when the exponent is zero, the power alone when `c` is one,
/// else "c" followed by the power.
pub open spec fn tex_term(t: (Cnf, nat)) -> Seq<char>
    decreases t, 1int,
{
    if t.0 == cnf_zero() {
        decimal_chars(t.1)
    } else if t.1 == 1 {
        tex_power(t.0)
    } else {
        decimal_chars(t.1) + tex_power(t.0)
    }
}

/// `omega^e`: "1" for a zero exponent, "\omega" for exponent one, else "\omega^{e}".
pub open spec fn tex_power(e: Cnf) -> Seq<char>
    decreases e, 2int,
{
    if e == cnf_zero() {
        seq!['1']
    } else if e == cnf_nat(1) {
        tex_omega()
    } else {
        tex_omega() + seq!['^', '{'] + tex(e) + seq!['}']
    }
}

/// `String::from_iter` over characters: the same characters.
#[verifier::external_body]
pub(crate) fn chars_to_string(v: &Vec<char>) -> (r: String)
    ensures
        r@ == v@,
{
    String::from_iter(v.iter())
}

/// Appends the characters of `extra`.
pub(crate) fn push_all(out: &mut Vec<char>, extra: &Vec<char>)
    ensures
        final(out)@ == old(out)@ + extra@,
{
    let n = extra.len();
    let mut i: usize = 0;
    while i < n
        invariant
            n == extra@.len(),
            i <= n,
            out@ == old(out)@ + extra@.take(i as int),
        decreases n - i,
    {
        out.push(extra[i]);
        i = i + 1;
        proof {
            assert(extra@.take(i as int) =~= extra@.take(i - 1).push(extra@[i - 1]));
        }
    }
    proof {
        assert(extra@.take(n as int) =~= extra@);
    }
}

impl Dendron {
    fn write_display(&self, out: &mut Vec<char>)
        ensures
            final(out)@ == old(out)@ + display(self@),
        decreases self@, 2int,
    {
        let n = self.num_terms();
        if n == 0 {
            out.push('0');
            return;
        }
        let mut k: usize = n;
        let ghost s = self@.terms;
        proof {
            assert(s.take(n as int) =~= s);
        }
        // write the terms from the highest down
        while k > 0
            invariant
                n == s.len(),
                s == self@.terms,
                wf(self@),
                k <= n,
                n > 0,
                old(out)@ + display_terms(s) == out@ + (if k == 0 { Seq::<char>::empty() } else { display_terms(s.take(k as int)) }),
            decreases k,
        {
            let ghost pre = out@;
            let e = self.term_exp(k - 1);
            let c = self.term_coeff(k - 1);
            proof {
                assert(s.take(k as int).last() == s[k - 1]);
                assert(s.take(k as int).drop_last() =~= s.take(k - 1));
                assert(decreases_to!(self@ => s[k - 1].0));
            }
            Dendron::write_term(e, c, out);
            if k > 1 {
                out.push('+');
            }
            k = k - 1;
            proof {
                if k == 0 {
                    assert(s.take(1)[0] == s[0]);
                    assert(out@ =~= pre + display_term(s[0]));
                } else {
                    assert(out@ =~= pre + display_term(s[k as int]) + seq!['+']);
                }
            }
        }
    }

    /// Writes the term `omega^e * c`.
    fn write_term(e: &Dendron, c: &Natural, out: &mut Vec<char>)
        requires
            c@ > 0,
        ensures
            final(out)@ == old(out)@ + display_term((e@, c@)),
        decreases e@, 3int,
    {
        if e.is_zero() {
            let d = c.decimal();
            push_all(out, &d);
        } else {
            if !c.equals(&Natural::from_u64(1)) {
                let d = c.decimal();
                push_all(out, &d);
            }
            out.push('[');
            e.write_display(out);
            out.push(']');
            proof {
                assert(out@ =~= old(out)@ + display_term((e@, c@)));
            }
        }
    }

    /// The plain notation of this dendron: "0" for zero, otherwise the terms from
    /// the highest down joined by "+", each written "c" (finite), "[e]" (coefficient
    /// one) or "c[e]".
    pub fn to_string(&self) -> (r: String)
        ensures
            r@ == display(self@),
    {
        let mut out: Vec<char> = Vec::new();
        self.write_display(&mut out);
        proof {
            assert(out@ =~= display(self@));
        }
        chars_to_string(&out)
    }
}

impl Dendron {
    fn write_tex(&self, out: &mut Vec<char>)
        ensures
            final(out)@ == old(out)@ + tex(self@),
        decreases self@, 1int,
    {
        let n = self.num_terms();
        if n == 0 {
            out.push('0');
            return;
        }
        let ghost s = self@.terms;
        let ghost start = out@;
        let mut k: usize = 0;
        // write the terms from the lowest up
        while k < n
            invariant
                n == s.len(),
                s == self@.terms,
                wf(self@),
                k <= n,
                n > 0,
                out@ == start + (if k == 0 { Seq::<char>::empty() } else { tex_terms(s.take(k as int)) }),
            decreases n - k,
        {
            let ghost pre = out@;
            let e = self.term_exp(k);
            let c = self.term_coeff(k);
            proof {
                assert(decreases_to!(self@ => s[k as int].0));
            }
            if k > 0 {
                out.push('+');
            }
            Dendron::write_tex_term(e, c, out);
            k = k + 1;
            proof {
                assert(s.take(k as int).last() == s[k - 1]);
                assert(s.take(k as int).drop_last() =~= s.take(k - 1));
                if k == 1 {
                    assert(s.take(1)[0] == s[0]);
                    assert(out@ =~= start + tex_term(s[0]));
                } else {
                    assert(out@ =~= pre + seq!['+'] + tex_term(s[k - 1]));
                }
            }
        }
        proof {
            assert(s.take(n as int) =~= s);
        }
    }

    fn write_tex_term(e: &Dendron, c: &Natural, out: &mut Vec<char>)
        requires
            c@ > 0,
        ensures
            final(out)@ == old(out)@ + tex_term((e@, c@)),
        decreases e@, 3int,
    {
        if e.is_zero() {
            let d = c.decimal();
            push_all(out, &d);
        } else {
            if !c.equals(&Natural::from_u64(1)) {
                let d = c.decimal();
                push_all(out, &d);
            }
            e.write_tex_power(out);
            proof {
                assert(out@ =~= old(out)@ + tex_term((e@, c@)));
            }
        }
    }

    fn write_omega(out: &mut Vec<char>)
        ensures
            final(out)@ == old(out)@ + tex_omega(),
    {
        out.push('\\');
        out.push('o');
        out.push('m');
        out.push('e');
        out.push('g');
        out.push('a');
        proof {
            assert(out@ =~= old(out)@ + tex_omega());
        }
    }

    fn write_tex_power(&self, out: &mut Vec<char>)
        ensures
            final(out)@ == old(out)@ + tex_power(self@),
        decreases self@, 2int,
    {
        if self.is_zero() {
            out.push('1');
        } else if self.is_one() {
            Dendron::write_omega(out);
        } else {
            Dendron::write_omega(out);
            out.push('^');
            out.push('{');
            self.write_tex(out);
            out.push('}');
            proof {
                assert(out@ =~= old(out)@ + tex_power(self@));
            }
        }
    }

    /// The LaTeX notation of this dendron: "0" for zero, otherwise the terms from the
    /// lowest up joined by "+", each written "c" (finite), or the power of omega
    /// ("\omega", "\omega^{e}") after the coefficient unless that is one.
    pub fn as_tex(&self) -> (r: String)
        ensures
            r@ == tex(self@),
    {
        let mut out: Vec<char> = Vec::new();
        self.write_tex(&mut out);
        proof {
            assert(out@ =~= tex(self@));
        }
        chars_to_string(&out)
    }
}


// ------------------------------------------------------------------
// Reading a dendron as a string of bytes: the term `omega^k * c` puts the
// byte `c` at position `k`.
// ------------------------------------------------------------------

/// The finite value of a dendron used as a position: zero for zero, and
/// otherwise the coefficient of its lowest term when that term is finite
/// (higher terms are not looked at); `None` when the lowest term is not finite.
pub open spec fn cnf_as_finite(a: Cnf) -> Option<nat> {
    if a.terms.len() == 0 {
        Some(0)
    } else if a.terms[0].0 == cnf_zero() {
        Some(a.terms[0].1)
    } else {
        None
    }
}

/// The (position, byte) entries of the terms, lowest term first; `None` when
/// some exponent gives no position or some coefficient is not below 256.
pub open spec fn c_str_entries(s: Seq<(Cnf, nat)>) -> Option<Seq<(nat, nat)>>
    decreases s.len(),
{
    if s.len() == 0 {
        Some(Seq::empty())
    } else {
        match (cnf_as_finite(s.last().0), c_str_entries(s.drop_last())) {
            (Some(k), Some(r)) => if s.last().1 < 256 {
                Some(r.push((k, s.last().1)))
            } else {
                None
            },
            _ => None,
        }
    }
}

/// Writes the byte `v` at position `k`, first padding with zero bytes up to it.
pub open spec fn place_byte(buf: Seq<u8>, k: nat, v: nat) -> Seq<u8> {
    let padded = if buf.len() <= k { buf + Seq::new((k + 1 - buf.len()) as nat, |i: int| 0u8) } else { buf };
    padded.update(k as int, v as u8)
}

/// The bytes that the entries make, placed in turn (a later entry for the same
/// position wins).
pub open spec fn c_str_bytes(e: Seq<(nat, nat)>) -> Seq<u8>
    decreases e.len(),
{
    if e.len() == 0 {
        Seq::empty()
    } else {
        place_byte(c_str_bytes(e.drop_last()), e.last().0, e.last().1)
    }
}

/// The string that a dendron encodes: its bytes, when they are valid UTF-8.
pub open spec fn cnf_c_str(a: Cnf) -> Option<Seq<char>> {
    match c_str_entries(a.terms) {
        None => None,
        Some(e) => if vstd::utf8::valid_utf8(c_str_bytes(e)) {
            Some(vstd::utf8::decode_utf8(c_str_bytes(e)))
        } else {
            None
        },
    }
}

/// What `as_c_str` can hold: reading the terms from the lowest, no term gives a
/// byte at a position above `usize::MAX` before the reading stops at a term that
/// gives no position or no byte; and where the reading goes through every term, no
/// position is `usize::MAX` (the buffer would need one byte more than memory can
/// address).
pub open spec fn positions_fit(a: Cnf) -> bool {
    &&& walk_fits(a.terms)
    &&& c_str_entries(a.terms) matches Some(e) ==> forall|i: int| 0 <= i < e.len() ==> (#[trigger] e[i]).0 < usize::MAX
}

pub open spec fn walk_fits(s: Seq<(Cnf, nat)>) -> bool
    decreases s.len(),
{
    if s.len() == 0 {
        true
    } else {
        match cnf_as_finite(s[0].0) {
            None => true,
            Some(k) => if s[0].1 >= 256 {
                true
            } else {
                k <= usize::MAX && walk_fits(s.drop_first())
            },
        }
    }
}

/// `std::str::from_utf8` and `to_owned`: the decoded string exactly when the bytes
/// are valid UTF-8.
#[verifier::external_body]
fn utf8_to_string(bytes: &Vec<u8>) -> (r: Option<String>)
    ensures
        r is Some <==> vstd::utf8::valid_utf8(bytes@),
        r matches Some(s) ==> s@ == vstd::utf8::decode_utf8(bytes@),
{
    match std::str::from_utf8(bytes.as_slice()) {
        Ok(s) => Some(s.to_owned()),
        Err(_) => None,
    }
}

impl Dendron {
    /// The finite value of this dendron used as a position (see `cnf_as_finite`).
    fn as_finite(&self) -> (r: Option<Natural>)
        ensures
            match (r, cnf_as_finite(self@)) {
                (Some(n), Some(k)) => n@ == k,
                (None, None) => true,
                _ => false,
            },
    {
        let n = self.num_terms();
        if n == 0 {
            return Some(Natural::zero());
        }
        if self.term_exp(0).is_zero() {
            Some(self.term_coeff(0).duplicate())
        } else {
            None
        }
    }

    /// Whether the reading of `as_c_str` meets no position it cannot hold (what
    /// `as_c_str` requires).
    pub fn c_str_positions_fit(&self) -> (r: bool)
        ensures
            r == positions_fit(self@),
    {
        let n = self.num_terms();
        let ghost s = self@.terms;
        let ghost mut entries: Seq<(nat, nat)> = Seq::empty();
        let mut seen_max = false;
        let mut i: usize = 0;
        proof {
            assert(s.skip(0) =~= s);
            assert(s.take(0) =~= Seq::<(Cnf, nat)>::empty());
        }
        while i < n
            invariant
                n == s.len(),
                s == self@.terms,
                i <= n,
                walk_fits(s) == walk_fits(s.skip(i as int)),
                c_str_entries(s.take(i as int)) == Some(entries),
                !seen_max ==> forall|j: int| 0 <= j < entries.len() ==> (#[trigger] entries[j]).0 < usize::MAX,
                seen_max ==> exists|j: int| 0 <= j < entries.len() && (#[trigger] entries[j]).0 >= usize::MAX,
            decreases n - i,
        {
            proof {
                assert(s.skip(i as int)[0] == s[i as int]);
                assert(s.skip(i as int).drop_first() =~= s.skip(i + 1));
                assert(s.take(i + 1).drop_last() =~= s.take(i as int));
                assert(s.take(i + 1).last() == s[i as int]);
            }
            let k = match self.term_exp(i).as_finite() {
                Some(k) => k,
                None => {
                    proof {
                        lemma_entries_none(s, i as int + 1);
                        assert(positions_fit(self@));
                    }
                    return true;
                },
            };
            let c = self.term_coeff(i);
            if c.to_u8().is_none() {
                proof {
                    lemma_entries_none(s, i as int + 1);
                    assert(positions_fit(self@));
                }
                return true;
            }
            match k.to_usize() {
                Some(p) => {
                    proof {
                        let old_entries = entries;
                        entries = entries.push((k@, c@));
                        assert forall|j: int| 0 <= j < old_entries.len() implies #[trigger] entries[j] == old_entries[j] by {}
                        if seen_max {
                            let w = choose|j: int| 0 <= j < old_entries.len() && (#[trigger] old_entries[j]).0 >= usize::MAX;
                            assert(entries[w] == old_entries[w]);
                        }
                        if p == usize::MAX {
                            assert(entries[entries.len() - 1].0 >= usize::MAX);
                        }
                    }
                    if p == usize::MAX {
                        seen_max = true;
                    }
                },
                None => {
                    return false;
                },
            }
            i = i + 1;
        }
        proof {
            assert(s.skip(n as int) =~= Seq::<(Cnf, nat)>::empty());
            assert(s.take(n as int) =~= s);
            assert(c_str_entries(s) == Some(entries));
            assert(walk_fits(s));
            if seen_max {
                let w = choose|j: int| 0 <= j < entries.len() && (#[trigger] entries[j]).0 >= usize::MAX;
                assert(entries[w].0 >= usize::MAX);
                if positions_fit(self@) {
                    let e = c_str_entries(self@.terms)->Some_0;
                    assert(e == entries);
                    assert(e[w].0 < usize::MAX);
                }
            } else {
                assert forall|j: int| 0 <= j < entries.len() implies (#[trigger] entries[j]).0 < usize::MAX by {}
                assert(positions_fit(self@));
            }
        }
        !seen_max
    }

    /// The string this dendron encodes: each term `omega^k * c` (with `k` read by
    /// `cnf_as_finite`) puts the byte `c` at position `k`, positions not given are
    /// zero bytes, and the bytes must be valid UTF-8. `None` when an exponent gives
    /// no position, a coefficient is not below 256, or the bytes are not UTF-8.
    pub fn as_c_str(&self) -> (r: Option<String>)
        requires
            positions_fit(self@),
        ensures
            match (r, cnf_c_str(self@)) {
                (Some(s), Some(t)) => s@ == t,
                (None, None) => true,
                _ => false,
            },
    {
        let n = self.num_terms();
        let ghost s = self@.terms;
        // first every term is read: its position and its byte
        let mut ents: Vec<(usize, u8)> = Vec::new();
        let ghost mut entries: Seq<(nat, nat)> = Seq::empty();
        let mut i: usize = 0;
        proof {
            assert(s.take(0) =~= Seq::<(Cnf, nat)>::empty());
            assert(s.skip(0) =~= s);
        }
        while i < n
            invariant
                n == s.len(),
                s == self@.terms,
                positions_fit(self@),
                walk_fits(s.skip(i as int)),
                i <= n,
                c_str_entries(s.take(i as int)) == Some(entries),
                ents@.len() == entries.len(),
                forall|j: int| 0 <= j < ents@.len() ==> (#[trigger] ents@[j]).0 as nat == entries[j].0 && ents@[j].1 as nat == entries[j].1,
            decreases n - i,
        {
            proof {
                assert(s.take(i + 1).drop_last() =~= s.take(i as int));
                assert(s.take(i + 1).last() == s[i as int]);
                assert(s.skip(i as int)[0] == s[i as int]);
                assert(s.skip(i as int).drop_first() =~= s.skip(i + 1));
            }
            let k = match self.term_exp(i).as_finite() {
                Some(k) => k,
                None => {
                    proof {
                        lemma_entries_none(s, i as int + 1);
                    }
                    return None;
                },
            };
            let c = self.term_coeff(i);
            let byte = match c.to_u8() {
                Some(b) => b,
                None => {
                    proof {
                        lemma_entries_none(s, i as int + 1);
                    }
                    return None;
                },
            };
            let pos = match k.to_usize() {
                Some(p) => p,
                None => {
                    return None;
                },
            };
            ents.push((pos, byte));
            proof {
                let old_entries = entries;
                entries = entries.push((k@, c@));
                assert forall|j: int| 0 <= j < ents@.len() implies (#[trigger] ents@[j]).0 as nat == entries[j].0 && ents@[j].1 as nat == entries[j].1 by {
                    if j < old_entries.len() {
                        assert(entries[j] == old_entries[j]);
                    }
                }
            }
            i = i + 1;
        }
        proof {
            assert(s.take(n as int) =~= s);
        }
        // then the bytes are placed
        let m = ents.len();
        let mut buf: Vec<u8> = Vec::new();
        let mut j: usize = 0;
        proof {
            assert(entries.take(0) =~= Seq::<(nat, nat)>::empty());
        }
        while j < m
            invariant
                m == ents@.len(),
                m == entries.len(),
                c_str_entries(s) == Some(entries),
                forall|x: int| 0 <= x < entries.len() ==> (#[trigger] entries[x]).0 < usize::MAX,
                forall|x: int| 0 <= x < ents@.len() ==> (#[trigger] ents@[x]).0 as nat == entries[x].0 && ents@[x].1 as nat == entries[x].1,
                j <= m,
                buf@ == c_str_bytes(entries.take(j as int)),
            decreases m - j,
        {
            let (pos, byte) = ents[j];
            proof {
                assert(entries[j as int].0 < usize::MAX);
                assert(entries.take(j + 1).drop_last() =~= entries.take(j as int));
                assert(entries.take(j + 1).last() == entries[j as int]);
            }
            let ghost old_buf = buf@;
            while buf.len() <= pos
                invariant
                    pos < usize::MAX,
                    buf@.len() <= pos + 1 || buf@.len() == old_buf.len(),
                    old_buf.len() <= buf@.len(),
                    buf@ == old_buf + Seq::new((buf@.len() - old_buf.len()) as nat, |x: int| 0u8),
                decreases pos + 1 - buf@.len(),
            {
                buf.push(0u8);
                proof {
                    assert(buf@ =~= old_buf + Seq::new((buf@.len() - old_buf.len()) as nat, |x: int| 0u8));
                }
            }
            buf.set(pos, byte);
            proof {
                let k = entries[j as int].0;
                let v = entries[j as int].1;
                assert(byte == v as u8);
                if old_buf.len() <= pos {
                    assert(buf@ =~= place_byte(old_buf, k, v));
                } else {
                    assert(old_buf + Seq::new(0, |x: int| 0u8) =~= old_buf);
                    assert(buf@ =~= place_byte(old_buf, k, v));
                }
            }
            j = j + 1;
        }
        proof {
            assert(entries.take(m as int) =~= entries);
        }
        utf8_to_string(&buf)
    }
}

/// Once a prefix of the terms gives no entries, neither do the terms.
proof fn lemma_entries_none(s: Seq<(Cnf, nat)>, m: int)
    requires
        0 < m <= s.len(),
        c_str_entries(s.take(m)) is None,
    ensures
        c_str_entries(s) is None,
    decreases s.len() - m,
{
    if m < s.len() {
        assert(s.take(m + 1).drop_last() =~= s.take(m));
        lemma_entries_none(s, m + 1);
    } else {
        assert(s.take(m) =~= s);
    }
}

} // verus!
