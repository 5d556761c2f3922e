//! Arbitrary-precision integers, held as canonical decimal text.
//!
//! Field elements, coefficients and witness values are far wider than any
//! machine integer. A [`BigInteger`] keeps such a number as its canonical
//! decimal text and speaks of it, in contracts, through its mathematical
//! value. The arithmetic itself is done by `num_bigint_dig`.

use num_bigint_dig::BigInt;
use vstd::prelude::*;
use vstd::string::*;

verus! {

/// Whether `c` is one of the ten decimal digits.
pub open spec fn is_digit(c: char) -> bool {
    48 <= c as int <= 57
}

/// The number that the decimal digit `c` stands for.
pub open spec fn digit_value(c: char) -> int {
    c as int - 48
}

/// The decimal digit that writes `d`, for `0 <= d < 10`.
pub open spec fn digit_char(d: int) -> char {
    if d == 0 {
        '0'
    } else if d == 1 {
        '1'
    } else if d == 2 {
        '2'
    } else if d == 3 {
        '3'
    } else if d == 4 {
        '4'
    } else if d == 5 {
        '5'
    } else if d == 6 {
        '6'
    } else if d == 7 {
        '7'
    } else if d == 8 {
        '8'
    } else {
        '9'
    }
}

/// The decimal text of a natural number, without leading zeros.
pub open spec fn decimal_nat(n: nat) -> Seq<char>
    decreases n,
{
    if n < 10 {
        seq![digit_char(n as int)]
    } else {
        decimal_nat(n / 10).push(digit_char((n % 10) as int))
    }
}

/// The decimal text of an integer: a minus sign for a negative number, then
/// the digits of its magnitude.
pub open spec fn decimal(n: int) -> Seq<char> {
    if n < 0 {
        seq!['-'] + decimal_nat((-n) as nat)
    } else {
        decimal_nat(n as nat)
    }
}

/// The number written by a run of digits, read left to right. Underscores
/// are separators and count for nothing.
pub open spec fn digits_value(s: Seq<char>) -> nat
    decreases s.len(),
{
    if s.len() == 0 {
        0
    } else if s.last() == '_' {
        digits_value(s.drop_last())
    } else {
        (digits_value(s.drop_last()) * 10 + digit_value(s.last())) as nat
    }
}

/// What is left of a literal once its sign is taken off.
pub open spec fn literal_body(s: Seq<char>) -> Seq<char> {
    if s.len() > 0 && (s[0] == '-' || s[0] == '+') {
        s.skip(1)
    } else {
        s
    }
}

/// The texts that are read as integers: an optional sign, a digit, then
/// digits and underscores.
pub open spec fn is_decimal_literal(s: Seq<char>) -> bool {
    let body = literal_body(s);
    &&& body.len() > 0
    &&& is_digit(body[0])
    &&& forall|i: int| 0 <= i < body.len() ==> is_digit(#[trigger] body[i]) || body[i] == '_'
}

/// The integer that a literal denotes.
pub open spec fn literal_value(s: Seq<char>) -> int {
    if s.len() > 0 && s[0] == '-' {
        -(digits_value(literal_body(s)) as int)
    } else {
        digits_value(literal_body(s)) as int
    }
}

/// The quotient of `n` by a positive divisor, rounded towards zero.
pub open spec fn quotient_towards_zero(n: int, divisor: int) -> int {
    if n >= 0 {
        n / divisor
    } else {
        -((-n) / divisor)
    }
}

/// Division by two that rounds towards zero.
pub open spec fn half_towards_zero(n: int) -> int {
    quotient_towards_zero(n, 2)
}

/// The size of a number without its sign.
pub open spec fn magnitude(n: int) -> int {
    if n >= 0 {
        n
    } else {
        -n
    }
}

/// The remainder of `n` by a divisor that is not zero, with the sign of
/// `n`: the magnitudes are divided, and what is left takes the sign of `n`.
pub open spec fn remainder_towards_zero(n: int, divisor: int) -> int {
    if n >= 0 {
        magnitude(n) % magnitude(divisor)
    } else {
        -(magnitude(n) % magnitude(divisor))
    }
}

/// `n` is `k` times `d`.
pub open spec fn is_product(n: int, k: int, d: int) -> bool {
    n == k * d
}

/// `d` divides `n`: `n` is a multiple of `d`. Zero divides zero alone.
pub open spec fn divides(d: int, n: int) -> bool {
    exists|k: int| #[trigger] is_product(n, k, d)
}

/// `a` and `b` are congruent modulo `m`: they differ by a multiple of `m`.
pub open spec fn congruent(a: int, b: int, m: int) -> bool {
    divides(m, a - b)
}

/// A positive number divides exactly the numbers that leave no remainder.
pub proof fn lemma_divides_remainder(d: int, n: int)
    requires
        d > 0,
    ensures
        divides(d, n) <==> n % d == 0,
{
    if divides(d, n) {
        let k = choose|k: int| #[trigger] is_product(n, k, d);
        vstd::arithmetic::div_mod::lemma_mod_multiples_basic(k, d);
    }
    if n % d == 0 {
        vstd::arithmetic::div_mod::lemma_fundamental_div_mod(n, d);
        let q = n / d;
        assert(n == q * d) by (nonlinear_arith)
            requires
                n == d * q + 0,
        ;
        assert(is_product(n, q, d));
    }
}

/// What divides a number divides its negative, and the negative of what
/// divides a number divides it too.
pub proof fn lemma_divides_signs(d: int, n: int)
    ensures
        divides(d, n) == divides(-d, n),
        divides(d, n) == divides(d, -n),
{
    if divides(d, n) {
        let k = choose|k: int| #[trigger] is_product(n, k, d);
        assert(n == (-k) * (-d) && -n == (-k) * d) by (nonlinear_arith)
            requires
                n == k * d,
        ;
        assert(is_product(n, -k, -d));
        assert(is_product(-n, -k, d));
    }
    if divides(-d, n) {
        let k = choose|k: int| #[trigger] is_product(n, k, -d);
        assert(n == (-k) * d) by (nonlinear_arith)
            requires
                n == k * (-d),
        ;
        assert(is_product(n, -k, d));
    }
    if divides(d, -n) {
        let k = choose|k: int| #[trigger] is_product(-n, k, d);
        assert(n == (-k) * d) by (nonlinear_arith)
            requires
                -n == k * d,
        ;
        assert(is_product(n, -k, d));
    }
}

/// The remainder by a divisor that is not zero is zero exactly for the
/// multiples of the divisor.
pub proof fn lemma_remainder_divides(n: int, divisor: int)
    requires
        divisor != 0,
    ensures
        remainder_towards_zero(n, divisor) == 0 <==> divides(divisor, n),
{
    lemma_divides_remainder(magnitude(divisor), magnitude(n));
    lemma_divides_signs(divisor, n);
    lemma_divides_signs(divisor, -n);
    lemma_divides_signs(-divisor, n);
}

/// Modulo a positive number, two numbers are congruent exactly when they
/// leave the same remainder.
pub proof fn lemma_congruent_remainders(a: int, b: int, m: int)
    requires
        m > 0,
    ensures
        congruent(a, b, m) <==> a % m == b % m,
{
    lemma_divides_remainder(m, a - b);
    vstd::arithmetic::div_mod::lemma_mod_equivalence(a, b, m);
}

/// Congruence does not depend on how a number is represented: a number may
/// be exchanged for any other that is congruent to it.
pub proof fn lemma_congruent_representation(a: int, other: int, b: int, m: int)
    requires
        congruent(a, other, m),
    ensures
        congruent(a, b, m) == congruent(other, b, m),
{
    let j = choose|j: int| #[trigger] is_product(a - other, j, m);
    if congruent(a, b, m) {
        let k = choose|k: int| #[trigger] is_product(a - b, k, m);
        assert(other - b == (k - j) * m) by (nonlinear_arith)
            requires
                a - other == j * m,
                a - b == k * m,
        ;
        assert(is_product(other - b, k - j, m));
    }
    if congruent(other, b, m) {
        let k = choose|k: int| #[trigger] is_product(other - b, k, m);
        assert(a - b == (k + j) * m) by (nonlinear_arith)
            requires
                a - other == j * m,
                other - b == k * m,
        ;
        assert(is_product(a - b, k + j, m));
    }
}

/// Every character of the decimal text of a natural number is a digit, and
/// reading the text back gives the number.
pub proof fn lemma_decimal_nat_round_trip(n: nat)
    ensures
        decimal_nat(n).len() > 0,
        forall|i: int| 0 <= i < decimal_nat(n).len() ==> is_digit(#[trigger] decimal_nat(n)[i]),
        digits_value(decimal_nat(n)) == n,
    decreases n,
{
    if n < 10 {
        let s = decimal_nat(n);
        assert(s.drop_last() =~= Seq::<char>::empty());
        assert(digits_value(s.drop_last()) == 0);
    } else {
        lemma_decimal_nat_round_trip(n / 10);
        let init = decimal_nat(n / 10);
        let s = decimal_nat(n);
        assert(s.drop_last() =~= init);
        assert(s.last() == digit_char((n % 10) as int));
    }
}

/// The decimal text of an integer is a literal that denotes that integer.
pub proof fn lemma_decimal_round_trip(n: int)
    ensures
        is_decimal_literal(decimal(n)),
        literal_value(decimal(n)) == n,
{
    if n < 0 {
        let m = (-n) as nat;
        lemma_decimal_nat_round_trip(m);
        let s = decimal(n);
        assert(s.skip(1) =~= decimal_nat(m));
        assert(s[0] == '-');
    } else {
        lemma_decimal_nat_round_trip(n as nat);
        let s = decimal(n);
        assert(is_digit(s[0]));
        assert(literal_body(s) == s);
    }
}

/// An integer of any size.
pub struct BigInteger {
    text: String,
}

/// Reads a decimal literal and writes the number back in canonical form.
///
/// Trusted: `num_bigint_dig::BigInt`'s `FromStr` and `ToString`. The parser
/// takes an optional sign, then a digit, then digits and underscores, and
/// rejects everything else; the text it is turned back into is the plain
/// decimal text of the number, with a minus sign when it is negative.
#[verifier::external_body]
fn parse_canonical(text: &str) -> (r: Option<String>)
    ensures
        r is Some <==> is_decimal_literal(text@),
        r matches Some(t) ==> t@ == decimal(literal_value(text@)),
{
    match text.parse::<BigInt>() {
        Ok(n) => Some(n.to_string()),
        Err(_) => None,
    }
}

/// The difference of two numbers given in canonical decimal text.
///
/// Trusted: `num_bigint_dig::BigInt`'s `Sub`, between its `FromStr` and
/// `ToString`; the result is the canonical text of `a - b`.
#[verifier::external_body]
fn subtract_canonical(a: &str, b: &str) -> (r: String)
    requires
        a@ == decimal(literal_value(a@)),
        b@ == decimal(literal_value(b@)),
    ensures
        r@ == decimal(literal_value(a@) - literal_value(b@)),
{
    let x: BigInt = a.parse().unwrap();
    let y: BigInt = b.parse().unwrap();
    (x - y).to_string()
}

/// The quotient of a number given in canonical decimal text by a machine
/// integer.
///
/// Trusted: `num_bigint_dig::BigInt`'s `Div` by a `u32`, between its
/// `FromStr` and `ToString`. The magnitude is divided and the sign kept, so
/// that the quotient is rounded towards zero. Division by zero is left out.
#[verifier::external_body]
fn quotient_canonical(a: &str, divisor: u32) -> (r: String)
    requires
        a@ == decimal(literal_value(a@)),
        divisor > 0,
    ensures
        r@ == decimal(quotient_towards_zero(literal_value(a@), divisor as int)),
{
    let x: BigInt = a.parse().unwrap();
    (x / divisor).to_string()
}

/// Whether the first of two numbers given in canonical decimal text is
/// greater than the second.
///
/// Trusted: `num_bigint_dig::BigInt`'s `PartialOrd`, after its `FromStr`.
#[verifier::external_body]
fn greater_canonical(a: &str, b: &str) -> (r: bool)
    requires
        a@ == decimal(literal_value(a@)),
        b@ == decimal(literal_value(b@)),
    ensures
        r == (literal_value(a@) > literal_value(b@)),
{
    let x: BigInt = a.parse().unwrap();
    let y: BigInt = b.parse().unwrap();
    x > y
}

/// The remainder of a number by another that is not zero, both given in
/// canonical decimal text.
///
/// Trusted: `num_bigint_dig::BigInt`'s `Rem`, between its `FromStr` and
/// `ToString`. The magnitudes are divided and the remainder takes the sign
/// of the dividend. Division by zero is left out.
#[verifier::external_body]
fn remainder_canonical(a: &str, b: &str) -> (r: String)
    requires
        a@ == decimal(literal_value(a@)),
        b@ == decimal(literal_value(b@)),
        literal_value(b@) != 0,
    ensures
        r@ == decimal(remainder_towards_zero(literal_value(a@), literal_value(b@))),
{
    let x: BigInt = a.parse().unwrap();
    let y: BigInt = b.parse().unwrap();
    (x % y).to_string()
}

/// The one-character text of a decimal digit.
fn digit_text(d: usize) -> (r: &'static str)
    requires
        d < 10,
    ensures
        r@ == seq![digit_char(d as int)],
{
    proof {
        reveal_strlit("0");
        reveal_strlit("1");
        reveal_strlit("2");
        reveal_strlit("3");
        reveal_strlit("4");
        reveal_strlit("5");
        reveal_strlit("6");
        reveal_strlit("7");
        reveal_strlit("8");
        reveal_strlit("9");
    }
    let r = if d == 0 {
        "0"
    } else if d == 1 {
        "1"
    } else if d == 2 {
        "2"
    } else if d == 3 {
        "3"
    } else if d == 4 {
        "4"
    } else if d == 5 {
        "5"
    } else if d == 6 {
        "6"
    } else if d == 7 {
        "7"
    } else if d == 8 {
        "8"
    } else {
        "9"
    };
    assert(r@ =~= seq![digit_char(d as int)]);
    r
}

/// The decimal text of a machine integer.
pub fn usize_to_string(n: usize) -> (r: String)
    ensures
        r@ == decimal_nat(n as nat),
    decreases n,
{
    if n < 10 {
        String::from_str(digit_text(n))
    } else {
        let mut r = usize_to_string(n / 10);
        r.append(digit_text(n % 10));
        r
    }
}

impl BigInteger {
    /// The number itself.
    pub closed spec fn value(&self) -> int {
        literal_value(self.text@)
    }

    /// The number is held in canonical form.
    pub closed spec fn wf(&self) -> bool {
        self.text@ == decimal(literal_value(self.text@))
    }

    /// Reads a decimal literal. `None` when `text` is not one.
    pub fn parse(text: &str) -> (r: Option<BigInteger>)
        ensures
            r is Some <==> is_decimal_literal(text@),
            r matches Some(n) ==> n.wf() && n.value() == literal_value(text@),
    {
        match parse_canonical(text) {
            Some(t) => {
                proof {
                    lemma_decimal_round_trip(literal_value(text@));
                }
                Some(BigInteger { text: t })
            },
            None => None,
        }
    }

    /// The number `n`.
    pub fn from_usize(n: usize) -> (r: BigInteger)
        ensures
            r.wf(),
            r.value() == n,
    {
        let t = usize_to_string(n);
        proof {
            lemma_decimal_round_trip(n as int);
        }
        BigInteger { text: t }
    }

    /// The decimal text of the number.
    pub fn to_string(&self) -> (r: String)
        requires
            self.wf(),
        ensures
            r@ == decimal(self.value()),
    {
        self.text.clone()
    }

    /// A copy of the number.
    pub fn clone(&self) -> (r: BigInteger)
        ensures
            r == *self,
    {
        BigInteger { text: self.text.clone() }
    }

    /// Whether two numbers are the same.
    pub fn equals(&self, other: &BigInteger) -> (r: bool)
        requires
            self.wf(),
            other.wf(),
        ensures
            r == (self.value() == other.value()),
    {
        self.text == other.text
    }

    /// Whether the number is zero.
    pub fn is_zero(&self) -> (r: bool)
        requires
            self.wf(),
        ensures
            r == (self.value() == 0),
    {
        let zero = BigInteger::from_usize(0);
        self.equals(&zero)
    }

    /// Whether the number is one.
    pub fn is_one(&self) -> (r: bool)
        requires
            self.wf(),
        ensures
            r == (self.value() == 1),
    {
        let one = BigInteger::from_usize(1);
        self.equals(&one)
    }

    /// The difference `self - other`.
    pub fn sub(&self, other: &BigInteger) -> (r: BigInteger)
        requires
            self.wf(),
            other.wf(),
        ensures
            r.wf(),
            r.value() == self.value() - other.value(),
    {
        let t = subtract_canonical(self.text.as_str(), other.text.as_str());
        proof {
            lemma_decimal_round_trip(self.value() - other.value());
        }
        BigInteger { text: t }
    }

    /// The quotient of the number by a positive divisor, rounded towards zero.
    pub fn divided_by(&self, divisor: u32) -> (r: BigInteger)
        requires
            self.wf(),
            divisor > 0,
        ensures
            r.wf(),
            r.value() == quotient_towards_zero(self.value(), divisor as int),
    {
        let t = quotient_canonical(self.text.as_str(), divisor);
        proof {
            lemma_decimal_round_trip(quotient_towards_zero(self.value(), divisor as int));
        }
        BigInteger { text: t }
    }

    /// The remainder of the number by a divisor that is not zero, with the
    /// sign of the number.
    pub fn rem(&self, divisor: &BigInteger) -> (r: BigInteger)
        requires
            self.wf(),
            divisor.wf(),
            divisor.value() != 0,
        ensures
            r.wf(),
            r.value() == remainder_towards_zero(self.value(), divisor.value()),
    {
        let t = remainder_canonical(self.text.as_str(), divisor.text.as_str());
        proof {
            lemma_decimal_round_trip(remainder_towards_zero(self.value(), divisor.value()));
        }
        BigInteger { text: t }
    }

    /// Whether the number is a multiple of `modulus`.
    pub fn is_multiple_of(&self, modulus: &BigInteger) -> (r: bool)
        requires
            self.wf(),
            modulus.wf(),
        ensures
            r == divides(modulus.value(), self.value()),
    {
        if modulus.is_zero() {
            proof {
                if divides(0, self.value()) {
                    let k = choose|k: int| #[trigger] is_product(self.value(), k, 0);
                    assert(self.value() == 0) by (nonlinear_arith)
                        requires
                            self.value() == k * 0,
                    ;
                }
                assert(is_product(0, 0, 0));
            }
            self.is_zero()
        } else {
            proof {
                lemma_remainder_divides(self.value(), modulus.value());
            }
            self.rem(modulus).is_zero()
        }
    }

    /// Whether the number and `other` are congruent modulo `modulus`.
    pub fn is_congruent_to(&self, other: &BigInteger, modulus: &BigInteger) -> (r: bool)
        requires
            self.wf(),
            other.wf(),
            modulus.wf(),
        ensures
            r == congruent(self.value(), other.value(), modulus.value()),
    {
        self.sub(other).is_multiple_of(modulus)
    }

    /// Whether the number is greater than `other`.
    pub fn greater_than(&self, other: &BigInteger) -> (r: bool)
        requires
            self.wf(),
            other.wf(),
        ensures
            r == (self.value() > other.value()),
    {
        greater_canonical(self.text.as_str(), other.text.as_str())
    }

    /// Whether the number is greater than half of `bound`, the half rounded
    /// towards zero.
    pub fn exceeds_half_of(&self, bound: &BigInteger) -> (r: bool)
        requires
            self.wf(),
            bound.wf(),
        ensures
            r == (self.value() > half_towards_zero(bound.value())),
    {
        self.greater_than(&bound.divided_by(2))
    }
}

} // verus!
