use std::str::FromStr;

use ari::ast::{Expr, ExprVariant, Scope};
use ari::natural::{BigNat, Natural};
use ari::parser::{parse, Error};
use num_bigint::BigUint;

fn small(v: u64) -> Natural {
    Natural::from(BigNat::from_limbs(vec![v]))
}

fn big(decimal: &str) -> BigNat {
    BigNat::from_limbs(BigUint::from_str(decimal).unwrap().to_u64_digits())
}

fn scope(exprs: Vec<Expr>) -> Scope {
    Scope::from_exprs(exprs)
}

#[test]
fn bottom() {
    assert_eq!(parse("0"), (Some(scope(vec![Expr::natural(vec![], 0..1, small(0))])), vec![]));
}

#[test]
fn unit() {
    assert_eq!(parse("1"), (Some(scope(vec![Expr::natural(vec![], 0..1, small(1))])), vec![]));
}

#[test]
fn decimal() {
    assert_eq!(
        parse("256"),
        (Some(scope(vec![Expr::natural(vec![], 0..3, small(256))])), vec![])
    );
}

#[test]
fn binary() {
    assert_eq!(
        parse("0b100000000"),
        (Some(scope(vec![Expr::natural(vec![], 0..11, small(256))])), vec![])
    );
}

#[test]
fn octal() {
    assert_eq!(
        parse("0o400"),
        (Some(scope(vec![Expr::natural(vec![], 0..5, small(256))])), vec![])
    );
}

#[test]
fn hexidecimal() {
    assert_eq!(
        parse("0x100"),
        (Some(scope(vec![Expr::natural(vec![], 0..5, small(256))])), vec![])
    );
}

#[test]
fn supports_big_naturals_that_fit_in_memory() {
    let digits = "1234567890123456789012345678901234567890123456789012345678901234567890123456789012345678901234567890";
    assert_eq!(
        parse(digits),
        (
            Some(scope(vec![Expr::natural(vec![], 0..100, Natural::from(big(digits)))])),
            vec![],
        )
    );
}

#[test]
fn cant_have_zero_prefix() {
    assert_eq!(
        parse("0123456789"),
        (
            Some(scope(vec![Expr::natural(vec![], 0..1, small(0))])),
            vec![Error::trailing_garbage(1..10)]
        )
    );
}

#[test]
fn zero() {
    assert_eq!(
        Natural::from(BigNat::from_limbs(vec![0])),
        Natural::Unaligned(BigNat::from_limbs(vec![]))
    );
}

#[test]
fn one() {
    assert_eq!(Natural::from(BigNat::from_limbs(vec![1])), Natural::ByteAligned(0));
}

#[test]
fn big_unaligned() {
    assert_eq!(
        Natural::from(big("87112285931760246646623899502532662132735")),
        Natural::Unaligned(big("87112285931760246646623899502532662132735"))
    );
}

#[test]
fn big_byte_aligned() {
    assert_eq!(
        Natural::from(big("87112285931760246646623899502532662132736")),
        Natural::ByteAligned(17)
    );
}

#[test]
fn bases_give_the_same_natural() {
    let mut found = Vec::new();
    for text in ["0b100000000", "0o400", "0x100", "256"] {
        let (ast, errors) = parse(text);
        assert!(errors.is_empty());
        let mut exprs = ast.unwrap().into_exprs();
        assert_eq!(exprs.len(), 1);
        match exprs.remove(0).variant {
            ExprVariant::Natural(n) => found.push(n),
            other => panic!("not a natural: {:?}", other),
        }
    }
    for n in &found {
        assert_eq!(n, &Natural::ByteAligned(1));
    }
}

#[test]
fn from_str_radix_reads_digits() {
    assert_eq!(BigNat::from_str_radix("ff", 16).unwrap().limbs(), &vec![255]);
    assert_eq!(BigNat::from_str_radix("FF", 16).unwrap().limbs(), &vec![255]);
    assert_eq!(BigNat::from_str_radix("777", 8).unwrap().limbs(), &vec![511]);
    assert_eq!(
        BigNat::from_str_radix("18446744073709551616", 10).unwrap().limbs(),
        &vec![0, 1]
    );
    assert_eq!(BigNat::from_str_radix("0", 10).unwrap().limbs(), &Vec::<u64>::new());
}

#[test]
fn from_str_radix_rejects() {
    assert!(BigNat::from_str_radix("", 10).is_none());
    assert!(BigNat::from_str_radix("12", 2).is_none());
    assert!(BigNat::from_str_radix("1_0", 10).is_none());
    assert!(BigNat::from_str_radix("+1", 10).is_none());
    assert!(BigNat::from_str_radix("1", 1).is_none());
    assert!(BigNat::from_str_radix("1", 37).is_none());
}

#[test]
fn from_limbs_drops_zero_top() {
    assert_eq!(BigNat::from_limbs(vec![5, 0, 0]).limbs(), &vec![5]);
    assert_eq!(BigNat::from_limbs(vec![0, 0]), BigNat::from_limbs(vec![]));
}

#[test]
fn byte_aligned_powers() {
    assert_eq!(small(0x100000000000000), Natural::ByteAligned(7));
    assert_eq!(Natural::from(BigNat::from_limbs(vec![0, 1])), Natural::ByteAligned(8));
    assert_eq!(Natural::from(BigNat::from_limbs(vec![0, 0x100])), Natural::ByteAligned(9));
    assert_eq!(
        Natural::from(BigNat::from_limbs(vec![1, 1])),
        Natural::Unaligned(BigNat::from_limbs(vec![1, 1]))
    );
    assert_eq!(small(2), Natural::Unaligned(BigNat::from_limbs(vec![2])));
    assert_eq!(small(0x1000), Natural::Unaligned(BigNat::from_limbs(vec![0x1000])));
}

#[test]
fn radix_prefix_without_digits_is_zero() {
    assert_eq!(
        parse("0x"),
        (
            Some(scope(vec![Expr::natural(vec![], 0..1, small(0))])),
            vec![Error::trailing_garbage(1..2)]
        )
    );
}

#[test]
fn hex_digits_in_either_case() {
    assert_eq!(
        parse("0xfF"),
        (Some(scope(vec![Expr::natural(vec![], 0..4, small(255))])), vec![])
    );
}

#[test]
fn prefixed_digits_may_start_with_zero() {
    assert_eq!(
        parse("0b01"),
        (Some(scope(vec![Expr::natural(vec![], 0..4, small(1))])), vec![])
    );
    assert_eq!(
        parse("0x0F"),
        (Some(scope(vec![Expr::natural(vec![], 0..4, small(15))])), vec![])
    );
    assert_eq!(
        parse("0o0"),
        (Some(scope(vec![Expr::natural(vec![], 0..3, small(0))])), vec![])
    );
}

#[test]
fn from_u64_is_canonical() {
    assert_eq!(Natural::from_u64(256), Natural::ByteAligned(1));
    assert_eq!(Natural::from_u64(0), Natural::Unaligned(BigNat::from_limbs(vec![])));
    assert_eq!(Natural::from_u64(300), small(300));
}
