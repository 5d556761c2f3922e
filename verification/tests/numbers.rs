use circuit_verification::numbers::{usize_to_string, BigInteger};
use num_bigint_dig::BigInt;
use num_traits::{One, Zero};

#[test]
fn parses_and_prints_decimal_numbers() {
    let n = BigInteger::parse("0012_3").unwrap();
    assert_eq!(n.to_string(), "123");
    let m = BigInteger::parse("-7").unwrap();
    assert_eq!(m.to_string(), "-7");
    assert!(BigInteger::parse("").is_none());
    assert!(BigInteger::parse("-+5").is_none());
    assert!(BigInteger::parse("_5").is_none());
    assert!(BigInteger::parse("12a").is_none());
    assert_eq!(BigInteger::parse("+5").unwrap().to_string(), "5");
    assert_eq!(BigInteger::parse("-0").unwrap().to_string(), "0");
}

#[test]
fn subtracts_and_compares() {
    let p = BigInteger::parse("21888242871839275222246405745257275088548364400416034343698204186575808495617").unwrap();
    let one = BigInteger::from_usize(1);
    let minus_one = p.sub(&one);
    assert_eq!(
        minus_one.to_string(),
        "21888242871839275222246405745257275088548364400416034343698204186575808495616"
    );
    assert!(minus_one.exceeds_half_of(&p));
    assert!(!one.exceeds_half_of(&p));
    assert!(one.is_one());
    assert!(!one.is_zero());
    assert!(one.sub(&one).is_zero());
    assert_eq!(one.sub(&p.sub(&one)).sub(&one).to_string(), "-21888242871839275222246405745257275088548364400416034343698204186575808495616");
    assert!(p.equals(&minus_one.sub(&BigInteger::parse("-1").unwrap())));
}

#[test]
fn prints_machine_integers() {
    assert_eq!(usize_to_string(0), "0");
    assert_eq!(usize_to_string(9), "9");
    assert_eq!(usize_to_string(10), "10");
    assert_eq!(usize_to_string(4071), "4071");
}

#[test]
fn divides_towards_zero_and_orders() {
    let seven = BigInteger::parse("7").unwrap();
    let minus_seven = BigInteger::parse("-7").unwrap();
    assert_eq!(seven.divided_by(2).to_string(), "3");
    assert_eq!(minus_seven.divided_by(2).to_string(), "-3");
    assert_eq!(seven.divided_by(8).to_string(), "0");
    assert_eq!(minus_seven.divided_by(8).to_string(), "0");
    assert_eq!(seven.divided_by(1).to_string(), "7");
    assert!(seven.greater_than(&minus_seven));
    assert!(!minus_seven.greater_than(&seven));
    assert!(!seven.greater_than(&seven));
    assert!(BigInteger::from_usize(0).greater_than(&minus_seven));
    // Half of a negative bound is rounded towards zero.
    assert!(BigInteger::parse("-3").unwrap().exceeds_half_of(&minus_seven) == false);
    assert!(BigInteger::parse("-2").unwrap().exceeds_half_of(&minus_seven));
    assert!(BigInteger::from_usize(4).exceeds_half_of(&seven));
    assert!(!BigInteger::from_usize(3).exceeds_half_of(&seven));
}

#[test]
fn remainders_take_the_sign_of_the_dividend() {
    let n = |text: &str| BigInteger::parse(text).unwrap();
    assert_eq!(n("7").rem(&n("3")).to_string(), "1");
    assert_eq!(n("-7").rem(&n("3")).to_string(), "-1");
    assert_eq!(n("7").rem(&n("-3")).to_string(), "1");
    assert_eq!(n("-7").rem(&n("-3")).to_string(), "-1");
    assert_eq!(n("6").rem(&n("3")).to_string(), "0");
    assert_eq!(n("-6").rem(&n("3")).to_string(), "0");
    assert_eq!(n("2").rem(&n("5")).to_string(), "2");
    assert_eq!(
        n("21888242871839275222246405745257275088548364400416034343698204186575808495618")
            .rem(&n("21888242871839275222246405745257275088548364400416034343698204186575808495617"))
            .to_string(),
        "1"
    );
}

#[test]
fn multiples_and_congruences_are_told() {
    let n = |text: &str| BigInteger::parse(text).unwrap();
    assert!(n("14").is_multiple_of(&n("7")));
    assert!(n("-14").is_multiple_of(&n("7")));
    assert!(n("14").is_multiple_of(&n("-7")));
    assert!(n("0").is_multiple_of(&n("7")));
    assert!(!n("15").is_multiple_of(&n("7")));
    assert!(n("0").is_multiple_of(&n("0")));
    assert!(!n("3").is_multiple_of(&n("0")));
    assert!(n("8").is_congruent_to(&n("1"), &n("7")));
    assert!(n("-1").is_congruent_to(&n("6"), &n("7")));
    assert!(n("-6").is_congruent_to(&n("1"), &n("7")));
    assert!(!n("2").is_congruent_to(&n("1"), &n("7")));
    assert!(n("2").is_congruent_to(&n("2"), &n("0")));
    assert!(!n("2").is_congruent_to(&n("9"), &n("0")));
}

#[test]
fn zero_and_one_are_told_as_the_arithmetic_crates_tell_them() {
    let literals = [
        "0",
        "-0",
        "+0",
        "000",
        "1",
        "+1",
        "01",
        "-1",
        "2",
        "10",
        "1_0",
        "21888242871839275222246405745257275088548364400416034343698204186575808495617",
    ];
    for literal in literals {
        let ours = BigInteger::parse(literal).unwrap();
        let theirs: BigInt = literal.parse().unwrap();
        assert_eq!(ours.is_zero(), theirs.is_zero());
        assert_eq!(ours.is_one(), theirs.is_one());
        assert_eq!(ours.to_string(), theirs.to_string());
    }
}
