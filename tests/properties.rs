use fractions::ExtFraction;

fn parse(s: &str) -> Result<ExtFraction, String> {
    ExtFraction::from_str(s, s.trim().parse::<f64>().ok().map(f64::to_bits))
}

fn frac(n: i128, d: i128) -> ExtFraction {
    ExtFraction::new(n, d)
}

fn whole(n: i128) -> ExtFraction {
    ExtFraction::from_integer(n)
}

fn terms(f: ExtFraction) -> (i128, i128) {
    f.as_integer_ratio()
}

#[test]
fn construct_reduces_with_positive_denominator() {
    assert_eq!(terms(frac(6, -4)), (-3, 2));
    assert_eq!(terms(frac(-6, -4)), (3, 2));
    assert_eq!(terms(frac(0, -7)), (0, 1));
    assert_eq!(terms(frac(i128::MIN, 2)), (i128::MIN / 2, 1));
    assert_eq!(terms(frac(i128::MAX, i128::MAX)), (1, 1));
    let f = frac(84, 36);
    assert_eq!(terms(frac(f.numerator(), f.denominator())), terms(f));
}

#[test]
fn construct_special_values() {
    assert!(frac(0, 0).is_nan());
    assert_eq!(terms(frac(5, 0)), (1, 0));
    assert_eq!(terms(frac(-5, 0)), (-1, 0));
    assert_eq!(terms(ExtFraction::infinity(true)), (1, 0));
    assert_eq!(terms(ExtFraction::infinity(false)), (-1, 0));
    assert_eq!(terms(ExtFraction::nan()), (0, 0));
}

#[test]
fn equivalent_constructions_are_equal() {
    assert_eq!(frac(4, 3), frac(8, 6));
    assert_ne!(frac(4, 3), frac(3, 4));
}

#[test]
fn field_laws_on_sample_values() {
    let a = frac(3, 7);
    let b = frac(-5, 4);
    let c = frac(11, 6);
    assert_eq!(a + b, b + a);
    assert_eq!(a * b, b * a);
    assert_eq!((a + b) + c, a + (b + c));
    assert_eq!((a * b) * c, a * (b * c));
    assert_eq!(a * (b + c), a * b + a * c);
    assert_eq!(a + whole(0), a);
    assert_eq!(a * whole(1), a);
    assert_eq!(a + (-a), whole(0));
    assert_eq!(a * (whole(1) / a), whole(1));
    assert_eq!(terms((a + b) + c), (85, 84));
}

#[test]
fn arithmetic_exact_values() {
    assert_eq!(terms(frac(1, 6) + frac(1, 10)), (4, 15));
    assert_eq!(terms(frac(1, 6) - frac(1, 10)), (1, 15));
    assert_eq!(terms(frac(-4, 9) * frac(3, 8)), (-1, 6));
    assert_eq!(terms(frac(-4, 9) / frac(-2, 3)), (2, 3));
    assert_eq!(terms(frac(1, 2) / frac(-1, 3)), (-3, 2));
    assert_eq!(terms(frac(1, 2) + 1), (3, 2));
    assert_eq!(terms(1 - frac(1, 4)), (3, 4));
    assert_eq!(terms(frac(2, 3) * 6), (4, 1));
    assert_eq!(terms(3 / frac(3, 5)), (5, 1));
}

#[test]
fn large_terms_cancel_before_multiplying() {
    let big = i128::MAX / 3;
    let a = frac(big, 7);
    let b = frac(7, big);
    assert_eq!(terms(a * b), (1, 1));
    let p = 1i128 << 100;
    assert_eq!(terms(frac(1, p) + frac(1, p)), (1, 1i128 << 99));
}

#[test]
fn ordering_is_total_and_transitive_on_samples() {
    let a = frac(-7, 3);
    let b = frac(1, 9);
    let c = frac(5, 2);
    assert!(a < b && b < c && a < c);
    assert!(!(a > b) && a != b);
    assert_eq!(frac(2, 4).partial_cmp(&frac(1, 2)), Some(std::cmp::Ordering::Equal));
    let inf = ExtFraction::infinity(true);
    let ninf = ExtFraction::infinity(false);
    assert!(ninf < a && c < inf && ninf < inf);
    let huge = frac(i128::MAX, 2);
    let huge2 = frac(i128::MAX - 2, 2);
    assert!(huge2 < huge);
    assert!(!(frac(i128::MAX - 1, i128::MAX) < frac(i128::MAX - 2, i128::MAX - 1)));
}

#[test]
fn nan_is_unordered() {
    let nan = ExtFraction::nan();
    assert!(nan != nan);
    assert_eq!(nan.partial_cmp(&nan), None);
    assert_eq!(nan.partial_cmp(&whole(1)), None);
    assert!(!(nan < whole(1)) && !(nan > whole(1)) && !(nan == whole(1)));
}

#[test]
fn infinity_algebra() {
    let inf = whole(1) / whole(0);
    let ninf = whole(-1) / whole(0);
    assert_eq!(inf + 2, inf);
    assert!((inf - inf).is_nan());
    assert!((whole(0) * inf).is_nan());
    assert_eq!(2 / inf, whole(0));
    assert!(inf > whole(1000));
    assert!(ninf < whole(-1000));
    assert_eq!(inf + inf, inf);
    assert!((inf + ninf).is_nan());
    assert_eq!(inf - ninf, inf);
    assert_eq!(ninf - inf, inf);
    assert_eq!(whole(3) - inf, ninf);
    assert_eq!(ninf * ninf, inf);
    assert_eq!(inf * whole(-2), ninf);
    assert_eq!(inf / whole(-2), inf);
    assert_eq!(inf / inf, whole(0));
    assert_eq!(whole(-3) / whole(0), ninf);
    assert_eq!(-inf, ninf);
    assert!((-ExtFraction::nan()).is_nan());
}

#[test]
fn power_laws_on_samples() {
    let a = frac(-2, 3);
    assert_eq!(a.pow(0), whole(1));
    assert_eq!(ExtFraction::infinity(true).pow(0), whole(1));
    assert_eq!(a.pow(3), a * a * a);
    assert_eq!(terms(a.pow(3)), (-8, 27));
    assert_eq!(a.pow(-3), (whole(1) / a).pow(3));
    assert_eq!(terms(a.pow(-3)), (-27, 8));
    assert_eq!(whole(0).pow(-2), ExtFraction::infinity(true));
    assert_eq!(whole(0).pow(0), whole(1));
    assert_eq!(ExtFraction::infinity(false).pow(3), ExtFraction::infinity(false));
    assert_eq!(ExtFraction::infinity(true).pow(-1), whole(0));
    assert!(ExtFraction::nan().pow(0).is_nan());
    assert_eq!(whole(-1).pow(i32::MAX), whole(-1));
    assert_eq!(whole(1).pow(i32::MIN), whole(1));
    assert_eq!(terms(whole(2).pow(126)), (1i128 << 126, 1));
}

#[test]
fn limit_denominator_best_approximations() {
    let f = frac(355, 113);
    assert_eq!(terms(f.limit_denominator(100).unwrap()), (311, 99));
    assert_eq!(terms(f.limit_denominator(7).unwrap()), (22, 7));
    assert_eq!(terms(f.limit_denominator(1).unwrap()), (3, 1));
    assert_eq!(terms(f.limit_denominator(113).unwrap()), (355, 113));
    assert_eq!(terms(frac(-355, 113).limit_denominator(7).unwrap()), (-22, 7));
    assert_eq!(terms(frac(1, 2).limit_denominator(1).unwrap()), (0, 1));
    assert_eq!(terms(frac(3, 10).limit_denominator(2).unwrap()), (1, 2));
    let big = frac(i128::MAX - 1, i128::MAX);
    assert_eq!(terms(big.limit_denominator(1000).unwrap()), (1, 1));
}

#[test]
fn limit_denominator_rejects_bound_below_one() {
    assert!(frac(1, 3).limit_denominator(0).is_err());
    assert!(frac(1, 3).limit_denominator(-5).is_err());
    assert!(whole(4).limit_denominator(0).is_err());
    assert!(ExtFraction::nan().limit_denominator(0).unwrap().is_nan());
    assert!(ExtFraction::infinity(true).limit_denominator(0).unwrap().is_infinite());
}

#[test]
fn format_and_parse_round_trip() {
    for f in [frac(3, 4), frac(-7, 2), whole(0), whole(-12), frac(i128::MAX, 3), whole(i128::MAX), whole(-i128::MAX)] {
        assert_eq!(parse(&f.to_string()).unwrap(), f);
    }
    assert_eq!(parse("3/4").unwrap().to_string(), "3/4");
    assert_eq!(frac(-7, 2).to_string(), "-7/2");
}

#[test]
fn parse_trims_and_ignores_keyword_case() {
    assert_eq!(terms(parse("  6/8 \t").unwrap()), (3, 4));
    assert!(parse(" INF ").unwrap() == ExtFraction::infinity(true));
    assert!(parse("+Infinity").unwrap() == ExtFraction::infinity(true));
    assert!(parse("-InF").unwrap() == ExtFraction::infinity(false));
    assert!(parse("NaN").unwrap().is_nan());
    assert!(parse("1/0").unwrap() == ExtFraction::infinity(true));
    assert_eq!(terms(parse("+12").unwrap()), (12, 1));
    assert_eq!(terms(parse("-3/-6").unwrap()), (1, 2));
}

#[test]
fn parse_errors() {
    assert_eq!(parse("1/2/3").unwrap_err(), "Invalid fraction format");
    assert_eq!(parse("x/2").unwrap_err(), "Invalid numerator");
    assert_eq!(parse("/2").unwrap_err(), "Invalid numerator");
    assert_eq!(parse("1/y").unwrap_err(), "Invalid denominator");
    assert_eq!(parse("1.2.3").unwrap_err(), "Invalid float");
    assert_eq!(parse("abc").unwrap_err(), "Invalid integer");
    assert_eq!(parse("").unwrap_err(), "Invalid integer");
    assert_eq!(parse("99999999999999999999999999999999999999999").unwrap_err(), "Invalid integer");
    assert_eq!(parse("-170141183460469231731687303715884105728").unwrap_err(), "Value out of range");
    assert_eq!(parse("1/-170141183460469231731687303715884105728").unwrap_err(), "Value out of range");
    assert_eq!(terms(parse("2/-170141183460469231731687303715884105728").unwrap()), (-1, 1i128 << 126));
}

#[test]
fn float_conversion_is_exact() {
    assert_eq!(ExtFraction::from_float_bits(0.5f64.to_bits()), frac(1, 2));
    assert_eq!(terms(ExtFraction::from_float_bits(0.1f64.to_bits())), (3602879701896397, 36028797018963968));
    assert_eq!(terms(ExtFraction::from_float_bits((-2.75f64).to_bits())), (-11, 4));
    assert_eq!(terms(ExtFraction::from_float_bits(1024.0f64.to_bits())), (1024, 1));
    assert_eq!(terms(ExtFraction::from_float_bits(0.0f64.to_bits())), (0, 1));
    assert_eq!(terms(ExtFraction::from_float_bits((-0.0f64).to_bits())), (0, 1));
    assert_eq!(terms(ExtFraction::from_float_bits(1e300f64.to_bits())), (i128::MAX, 1));
    assert_eq!(terms(ExtFraction::from_float_bits((-1e300f64).to_bits())), (-i128::MAX, 1));
    assert_eq!(terms(ExtFraction::from_float_bits(2f64.powi(-100).to_bits())), (1, 1i128 << 100));
    let tiny = ExtFraction::from_float_bits(f64::MIN_POSITIVE.to_bits());
    assert_eq!(terms(tiny), (1, i128::MAX));
    assert!(ExtFraction::from_float_bits(f64::INFINITY.to_bits()) == ExtFraction::infinity(true));
    assert!(ExtFraction::from_float_bits(f64::NEG_INFINITY.to_bits()) == ExtFraction::infinity(false));
    assert!(ExtFraction::from_float_bits(f64::NAN.to_bits()).is_nan());
}

#[test]
fn parse_decimal_goes_through_the_double() {
    assert_eq!(parse("0.5").unwrap(), frac(1, 2));
    assert_eq!(terms(parse(" 0.1 ").unwrap()), (3602879701896397, 36028797018963968));
}

#[test]
fn queries() {
    assert!(whole(7).is_integer());
    assert!(!ExtFraction::infinity(true).is_integer());
    assert!(!ExtFraction::nan().is_integer());
    assert!(frac(1, 3).is_finite());
    assert_eq!(ExtFraction::infinity(false).numerator(), -1);
    assert_eq!(ExtFraction::infinity(false).denominator(), 0);
}

#[test]
fn checked_operations_report_overflow() {
    let max = whole(i128::MAX);
    assert!(max.checked_add(whole(1)).is_none());
    assert!(whole(-i128::MAX).checked_sub(whole(1)).is_none());
    assert!(max.checked_mul(whole(2)).is_none());
    assert!(max.checked_div(frac(1, 2)).is_none());
    assert!(whole(2).checked_pow(127).is_none());
    assert!(whole(2).checked_pow(-127).is_none());
    assert_eq!(terms(frac(1, 2).checked_add(frac(1, 3)).unwrap()), (5, 6));
    assert_eq!(terms(frac(1, 2).checked_sub(frac(1, 3)).unwrap()), (1, 6));
    assert_eq!(terms(frac(2, 3).checked_mul(frac(3, 4)).unwrap()), (1, 2));
    assert_eq!(terms(frac(3, 4).checked_div(frac(1, 2)).unwrap()), (3, 2));
    assert_eq!(terms(whole(2).checked_pow(126).unwrap()), (1i128 << 126, 1));
    assert_eq!(terms(whole(2).checked_pow(-126).unwrap()), (1, 1i128 << 126));
    assert!(max.checked_add(ExtFraction::infinity(false)).unwrap() == ExtFraction::infinity(false));
    assert!(ExtFraction::nan().checked_pow(1000).unwrap().is_nan());
}
