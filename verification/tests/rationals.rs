use steadyflow::rat::Rat;
use steadyflow::text::parse_i16;

fn rat(n: i64, d: i64) -> Rat {
    Rat::new(n, d).unwrap()
}

#[test]
fn construction_reduces_to_lowest_terms() {
    let r = rat(144, 1000);
    assert_eq!(r.num(), 18);
    assert_eq!(r.den(), 125);
}

#[test]
fn negative_denominator_is_normalized() {
    let r = rat(3, -6);
    assert_eq!(r.num(), -1);
    assert_eq!(r.den(), 2);
}

#[test]
fn zero_denominator_is_rejected() {
    assert!(Rat::new(1, 0).is_none());
}

#[test]
fn addition_is_exact() {
    let r = rat(1, 3).add(&rat(1, 6)).unwrap();
    assert_eq!(r.num(), 1);
    assert_eq!(r.den(), 2);
}

#[test]
fn subtraction_is_exact() {
    let r = rat(1, 2).sub(&rat(2, 3)).unwrap();
    assert_eq!(r.num(), -1);
    assert_eq!(r.den(), 6);
}

#[test]
fn multiplication_is_exact() {
    let r = rat(6, 5).mul(&rat(10, 3)).unwrap();
    assert_eq!(r.num(), 4);
    assert_eq!(r.den(), 1);
}

#[test]
fn division_is_exact() {
    let r = rat(1, 2).div(&rat(-3, 4)).unwrap();
    assert_eq!(r.num(), -2);
    assert_eq!(r.den(), 3);
}

#[test]
fn division_by_zero_is_none() {
    assert!(rat(1, 2).div(&Rat::zero()).is_none());
}

#[test]
fn equality_ignores_representation() {
    assert!(rat(2, 4).eq_rat(&rat(1, 2)));
    assert!(!rat(2, 4).eq_rat(&rat(1, 3)));
}

#[test]
fn signs() {
    assert!(rat(-1, 2).is_neg());
    assert!(rat(1, 2).is_pos());
    assert!(Rat::zero().is_zero());
    assert!(rat(1, 2).neg().is_neg());
}

#[test]
fn parse_i16_accepts_plain_and_signed() {
    assert_eq!(parse_i16(&b"0".to_vec()), Some(0));
    assert_eq!(parse_i16(&b"42".to_vec()), Some(42));
    assert_eq!(parse_i16(&b"-7".to_vec()), Some(-7));
    assert_eq!(parse_i16(&b"+9".to_vec()), Some(9));
    assert_eq!(parse_i16(&b"32767".to_vec()), Some(32767));
    assert_eq!(parse_i16(&b"-32768".to_vec()), Some(-32768));
    assert_eq!(parse_i16(&b"007".to_vec()), Some(7));
}

#[test]
fn parse_i16_rejects_malformed_and_out_of_range() {
    assert_eq!(parse_i16(&b"".to_vec()), None);
    assert_eq!(parse_i16(&b"-".to_vec()), None);
    assert_eq!(parse_i16(&b"3x".to_vec()), None);
    assert_eq!(parse_i16(&b" 3".to_vec()), None);
    assert_eq!(parse_i16(&b"32768".to_vec()), None);
    assert_eq!(parse_i16(&b"-32769".to_vec()), None);
    assert_eq!(parse_i16(&b"99999999999999999999".to_vec()), None);
}
