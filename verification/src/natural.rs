//! Arbitrary-precision natural numbers, the coefficients of a dendron.
//!
//! A `Natural` holds its value as base 2^32 digits, least significant first.
//! The arithmetic itself is done by `num_bigint::BigUint`; each call goes
//! through one small trusted wrapper whose contract states the arithmetic
//! fact that the crate documents.
use vstd::prelude::*;
use num_bigint::BigUint;

verus! {

/// The value of base 2^32 digits, least significant digit first.
pub open spec fn digits_value(d: Seq<u32>) -> nat
    decreases d.len(),
{
    if d.len() == 0 {
        0
    } else {
        d[0] as nat + 0x1_0000_0000 * digits_value(d.drop_first())
    }
}

/// Whether every character is an ASCII decimal digit, and there is at least one.
pub open spec fn is_decimal(s: Seq<char>) -> bool {
    &&& s.len() > 0
    &&& forall|i: int| 0 <= i < s.len() ==> '0' <= #[trigger] s[i] <= '9'
}

/// The value of a decimal digit character.
pub open spec fn digit_value(c: char) -> nat {
    (c as int - '0' as int) as nat
}

/// The value of a string of decimal digits, most significant first.
pub open spec fn decimal_value(s: Seq<char>) -> nat
    decreases s.len(),
{
    if s.len() == 0 {
        0
    } else {
        decimal_value(s.drop_last()) * 10 + digit_value(s.last())
    }
}

/// The character of a decimal digit `d < 10`.
pub open spec fn digit_char(d: nat) -> char {
    ('0' as int + d) as char
}

/// The decimal representation of `n`, without leading zeros ("0" for zero).
pub open spec fn decimal_chars(n: nat) -> Seq<char>
    decreases n,
{
    if n < 10 {
        seq![digit_char(n)]
    } else {
        decimal_chars(n / 10).push(digit_char(n % 10))
    }
}

/// A natural number of any size.
#[derive(Debug, Hash)]
pub struct Natural {
    digits: Vec<u32>,
}

impl View for Natural {
    type V = nat;

    closed spec fn view(&self) -> nat {
        digits_value(self.digits@)
    }
}

/// `BigUint::from_slice(a) + BigUint::from_slice(b)`: the sum of the two values.
#[verifier::external_body]
fn big_add(a: &Natural, b: &Natural) -> (r: Natural)
    ensures
        r@ == a@ + b@,
{
    Natural { digits: (BigUint::from_slice(&a.digits) + BigUint::from_slice(&b.digits)).to_u32_digits() }
}

/// `BigUint - BigUint`: the difference, which `num_bigint` computes when it is not
/// negative (it panics otherwise, so that case is excluded).
#[verifier::external_body]
fn big_sub(a: &Natural, b: &Natural) -> (r: Natural)
    requires
        b@ <= a@,
    ensures
        r@ == a@ - b@,
{
    Natural { digits: (BigUint::from_slice(&a.digits) - BigUint::from_slice(&b.digits)).to_u32_digits() }
}

/// `BigUint * BigUint`: the product of the two values.
#[verifier::external_body]
fn big_mul(a: &Natural, b: &Natural) -> (r: Natural)
    ensures
        r@ == a@ * b@,
{
    Natural { digits: (BigUint::from_slice(&a.digits) * BigUint::from_slice(&b.digits)).to_u32_digits() }
}

/// `BigUint / BigUint`: the floor of the quotient (a zero divisor panics, so it is excluded).
#[verifier::external_body]
fn big_div(a: &Natural, b: &Natural) -> (r: Natural)
    requires
        b@ > 0,
    ensures
        r@ == a@ / b@,
{
    Natural { digits: (BigUint::from_slice(&a.digits) / BigUint::from_slice(&b.digits)).to_u32_digits() }
}

/// `BigUint <= BigUint`: whether the first value is at most the second.
#[verifier::external_body]
fn big_le(a: &Natural, b: &Natural) -> (r: bool)
    ensures
        r == (a@ <= b@),
{
    BigUint::from_slice(&a.digits) <= BigUint::from_slice(&b.digits)
}

/// `BigUint::from(u64)`: the same value.
#[verifier::external_body]
fn big_from_u64(n: u64) -> (r: Natural)
    ensures
        r@ == n,
{
    Natural { digits: BigUint::from(n).to_u32_digits() }
}

/// `BigUint::from_str` (base 10) on a string of decimal digits: it succeeds with the
/// decimal value of the digits.
#[verifier::external_body]
fn big_from_decimal(s: &str) -> (r: Option<Natural>)
    requires
        is_decimal(s@),
    ensures
        r is Some,
        r.unwrap()@ == decimal_value(s@),
{
    match <BigUint as core::str::FromStr>::from_str(s) {
        Ok(n) => Some(Natural { digits: n.to_u32_digits() }),
        Err(_) => None,
    }
}

/// `BigUint`'s `Display` (`to_string`): the decimal digits of the value, without leading zeros.
#[verifier::external_body]
fn big_to_decimal(n: &Natural) -> (r: Vec<char>)
    ensures
        r@ == decimal_chars(n@),
{
    BigUint::from_slice(&n.digits).to_string().chars().collect()
}

/// `u8::try_from(&BigUint)`: the value as a byte exactly when it is below 256.
#[verifier::external_body]
fn big_to_u8(n: &Natural) -> (r: Option<u8>)
    ensures
        r is Some <==> n@ < 256,
        r matches Some(b) ==> b == n@,
{
    u8::try_from(&BigUint::from_slice(&n.digits)).ok()
}

/// `usize::try_from(&BigUint)`: the value as a `usize` exactly when it fits.
#[verifier::external_body]
fn big_to_usize(n: &Natural) -> (r: Option<usize>)
    ensures
        r is Some <==> n@ <= usize::MAX,
        r matches Some(u) ==> u == n@,
{
    usize::try_from(&BigUint::from_slice(&n.digits)).ok()
}

impl Clone for Natural {
    fn clone(&self) -> (r: Natural)
        ensures
            r@ == self@,
    {
        self.duplicate()
    }
}

impl PartialEq for Natural {
    fn eq(&self, other: &Natural) -> (r: bool) {
        self.equals(other)
    }
}

impl Eq for Natural {}

impl vstd::std_specs::cmp::PartialEqSpecImpl for Natural {
    open spec fn obeys_eq_spec() -> bool {
        true
    }

    open spec fn eq_spec(&self, other: &Natural) -> bool {
        self@ == other@
    }
}

impl Natural {
    /// Zero.
    pub fn zero() -> (r: Natural)
        ensures
            r@ == 0,
    {
        Natural { digits: Vec::new() }
    }

    /// The natural number `n`.
    pub fn from_u64(n: u64) -> (r: Natural)
        ensures
            r@ == n,
    {
        big_from_u64(n)
    }

    /// The value of a string of decimal digits.
    pub fn from_decimal(s: &str) -> (r: Natural)
        requires
            is_decimal(s@),
        ensures
            r@ == decimal_value(s@),
    {
        let parsed = big_from_decimal(s);
        match parsed {
            Some(n) => n,
            None => Natural::zero(),
        }
    }

    /// A copy of this number.
    pub fn duplicate(&self) -> (r: Natural)
        ensures
            r@ == self@,
    {
        let d = self.digits.clone();
        assert(d@ =~= self.digits@);
        Natural { digits: d }
    }

    pub fn is_zero(&self) -> (r: bool)
        ensures
            r == (self@ == 0),
    {
        big_le(self, &Natural::zero())
    }

    pub fn le(&self, other: &Natural) -> (r: bool)
        ensures
            r == (self@ <= other@),
    {
        big_le(self, other)
    }

    pub fn lt(&self, other: &Natural) -> (r: bool)
        ensures
            r == (self@ < other@),
    {
        !big_le(other, self)
    }

    pub fn equals(&self, other: &Natural) -> (r: bool)
        ensures
            r == (self@ == other@),
    {
        big_le(self, other) && big_le(other, self)
    }

    pub fn add(&self, other: &Natural) -> (r: Natural)
        ensures
            r@ == self@ + other@,
    {
        big_add(self, other)
    }

    pub fn sub(&self, other: &Natural) -> (r: Natural)
        requires
            other@ <= self@,
        ensures
            r@ == self@ - other@,
    {
        big_sub(self, other)
    }

    pub fn mul(&self, other: &Natural) -> (r: Natural)
        ensures
            r@ == self@ * other@,
    {
        big_mul(self, other)
    }

    pub fn div(&self, other: &Natural) -> (r: Natural)
        requires
            other@ > 0,
        ensures
            r@ == self@ / other@,
    {
        big_div(self, other)
    }

    /// The decimal digits of the value.
    pub fn decimal(&self) -> (r: Vec<char>)
        ensures
            r@ == decimal_chars(self@),
    {
        big_to_decimal(self)
    }

    /// The value as a byte, when it is below 256.
    pub fn to_u8(&self) -> (r: Option<u8>)
        ensures
            r is Some <==> self@ < 256,
            r matches Some(b) ==> b == self@,
    {
        big_to_u8(self)
    }

    /// The value as a `usize`, when it fits.
    pub fn to_usize(&self) -> (r: Option<usize>)
        ensures
            r is Some <==> self@ <= usize::MAX,
            r matches Some(u) ==> u == self@,
    {
        big_to_usize(self)
    }
}

} // verus!
