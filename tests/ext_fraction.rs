use fractions::ExtFraction;

/// Parses text the way a caller with a float parser does: the bit pattern of
/// the double that the trimmed text spells, if it spells one.
fn parse(s: &str) -> Result<ExtFraction, String> {
    ExtFraction::from_str(s, s.trim().parse::<f64>().ok().map(f64::to_bits))
}

fn from_float(f: f64) -> ExtFraction {
    ExtFraction::from_float_bits(f.to_bits())
}

#[test]
fn test_creation() {
    let f = ExtFraction::new(4, 3);
    assert_eq!(f.numerator(), 4);
    assert_eq!(f.denominator(), 3);

    let f = ExtFraction::new(8, 6);
    assert_eq!(f.numerator(), 4);
    assert_eq!(f.denominator(), 3);

    let f = ExtFraction::new(-5, 4);
    assert_eq!(f.numerator(), -5);
    assert_eq!(f.denominator(), 4);
}

#[test]
fn test_zero_denominator() {
    let f = ExtFraction::new(1, 0);
    assert!(f.is_infinite());
    assert!(!f.is_finite());
}

#[test]
fn test_from_integer() {
    let f = ExtFraction::from_integer(5);
    assert_eq!(f.numerator(), 5);
    assert_eq!(f.denominator(), 1);
}

#[test]
fn test_addition() {
    let f1 = ExtFraction::new(1, 2);
    let f2 = ExtFraction::new(1, 3);
    let result = f1 + f2;
    assert_eq!(result.numerator(), 5);
    assert_eq!(result.denominator(), 6);
}

#[test]
fn test_subtraction() {
    let f1 = ExtFraction::new(3, 4);
    let f2 = ExtFraction::new(1, 4);
    let result = f1 - f2;
    assert_eq!(result.numerator(), 1);
    assert_eq!(result.denominator(), 2);
}

#[test]
fn test_multiplication() {
    let f1 = ExtFraction::new(2, 3);
    let f2 = ExtFraction::new(3, 4);
    let result = f1 * f2;
    assert_eq!(result.numerator(), 1);
    assert_eq!(result.denominator(), 2);
}

#[test]
fn test_division() {
    let f1 = ExtFraction::new(3, 4);
    let f2 = ExtFraction::new(1, 2);
    let result = f1 / f2;
    assert_eq!(result.numerator(), 3);
    assert_eq!(result.denominator(), 2);
}

#[test]
fn test_division_by_zero() {
    let f1 = ExtFraction::new(1, 2);
    let f2 = ExtFraction::new(0, 1);
    let result = f1 / f2;
    assert!(result.is_infinite());
}

#[test]
fn test_negation() {
    let f = ExtFraction::new(3, 4);
    let result = -f;
    assert_eq!(result.numerator(), -3);
    assert_eq!(result.denominator(), 4);
}

#[test]
fn test_comparison() {
    let f1 = ExtFraction::new(1, 2);
    let f2 = ExtFraction::new(1, 3);
    assert!(f1 > f2);
    assert!(f2 < f1);
    assert!(f1 >= f2);
    assert!(f2 <= f1);
    assert_eq!(f1, ExtFraction::new(2, 4));
}

#[test]
fn test_display() {
    let f = ExtFraction::new(3, 4);
    assert_eq!(f.to_string(), "3/4");

    let f = ExtFraction::new(5, 1);
    assert_eq!(f.to_string(), "5");
}

#[test]
fn test_from_str() {
    let f = parse("3/4").unwrap();
    assert_eq!(f.numerator(), 3);
    assert_eq!(f.denominator(), 4);

    let f = parse("5").unwrap();
    assert_eq!(f.numerator(), 5);
    assert_eq!(f.denominator(), 1);
}

#[test]
fn test_pow() {
    let f = ExtFraction::new(2, 3);
    let result = f.pow(2);
    assert_eq!(result.numerator(), 4);
    assert_eq!(result.denominator(), 9);

    let result = f.pow(-1);
    assert_eq!(result.numerator(), 3);
    assert_eq!(result.denominator(), 2);
}

#[test]
fn test_limit_denominator() {
    let f = ExtFraction::new(22, 7);
    let result = f.limit_denominator(10).unwrap();
    assert_eq!(result.numerator(), 22);
    assert_eq!(result.denominator(), 7);
}

#[test]
fn test_is_integer() {
    let f = ExtFraction::new(4, 2);
    assert!(f.is_integer());

    let f = ExtFraction::new(3, 4);
    assert!(!f.is_integer());
}

#[test]
fn test_special_values() {
    let zero = ExtFraction::from_integer(0);
    let one = ExtFraction::from_integer(1);

    // Positive infinity
    let pos_inf = one / zero;
    assert!(pos_inf.is_infinite());
    assert!(!pos_inf.is_finite());
    assert!(!pos_inf.is_nan());
    assert_eq!(pos_inf.to_string(), "inf");

    // Negative infinity
    let neg_inf = -one / zero;
    assert!(neg_inf.is_infinite());
    assert_eq!(neg_inf.to_string(), "-inf");

    // NaN
    let nan = zero / zero;
    assert!(nan.is_nan());
    assert!(!nan.is_finite());
    assert!(!nan.is_infinite());
    assert_eq!(nan.to_string(), "nan");

    // NaN is not equal to itself
    assert!(nan != nan);

    // Infinity comparisons
    assert!(pos_inf > ExtFraction::from_integer(1000));
    assert!(neg_inf < ExtFraction::from_integer(-1000));
    assert!(pos_inf > neg_inf);
    assert_eq!(pos_inf, pos_inf);
    assert_eq!(neg_inf, neg_inf);
}

#[test]
fn test_infinity_operations() {
    let zero = ExtFraction::from_integer(0);
    let one = ExtFraction::from_integer(1);
    let two = ExtFraction::from_integer(2);
    let inf = one / zero;

    // Addition
    assert_eq!(inf + two, inf);
    assert_eq!(two + inf, inf);

    // Subtraction
    assert_eq!(inf - two, inf);
    assert!((inf - inf).is_nan());

    // Multiplication
    assert_eq!(inf * two, inf);
    assert!((zero * inf).is_nan());

    // Division
    assert_eq!(inf / two, inf);
    assert_eq!(two / inf, zero);
}

#[test]
fn test_from_float_special() {
    let pos_inf = from_float(f64::INFINITY);
    assert!(pos_inf.is_infinite());
    assert_eq!(pos_inf.to_string(), "inf");

    let neg_inf = from_float(f64::NEG_INFINITY);
    assert!(neg_inf.is_infinite());
    assert_eq!(neg_inf.to_string(), "-inf");

    let nan = from_float(f64::NAN);
    assert!(nan.is_nan());
    assert_eq!(nan.to_string(), "nan");
}

#[test]
fn test_from_str_special() {
    let pos_inf = parse("inf").unwrap();
    assert!(pos_inf.is_infinite());

    let neg_inf = parse("-inf").unwrap();
    assert!(neg_inf.is_infinite());

    let nan = parse("nan").unwrap();
    assert!(nan.is_nan());
}
