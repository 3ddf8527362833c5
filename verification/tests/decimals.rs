use orderbook_backend::decimal::Decimal;

fn d(text: &str) -> Decimal {
    Decimal::parse(text).unwrap()
}

#[test]
fn texts_have_no_needless_places() {
    assert_eq!(d("1.500").to_text(), "1.5");
    assert_eq!(d("100").to_text(), "100");
    assert_eq!(d("100.00").to_text(), "100");
    assert_eq!(d("0.00000100").to_text(), "0.000001");
    assert_eq!(d("-2.50").to_text(), "-2.5");
    assert_eq!(d("0.000").to_text(), "0");
    assert_eq!(d("-0").to_text(), "0");
}

#[test]
fn two_places_are_cut_or_filled() {
    assert_eq!(d("1.999").to_two_places(), "1.99");
    assert_eq!(d("7").to_two_places(), "7.00");
    assert_eq!(d("-3.1").to_two_places(), "-3.10");
    assert_eq!(d("0.005").to_two_places(), "0.00");
}

#[test]
fn reading_reports_what_is_no_decimal() {
    assert!(Decimal::parse("abc").is_err());
    assert!(Decimal::parse("").is_err());
    assert!(Decimal::parse("1.2.3").is_err());
    assert!(!Decimal::parse("x").unwrap_err().is_empty());
    assert_eq!(d("12.34"), Decimal::from_parts(1234, 2).unwrap());
    assert_eq!(d("-12.34"), Decimal::from_parts(-1234, 2).unwrap());
    assert_eq!(d("+5"), Decimal::from_int(5));
}

#[test]
fn parts_have_limits() {
    let largest: i128 = (1i128 << 96) - 1;
    assert!(Decimal::from_parts(largest, 28).is_some());
    assert!(Decimal::from_parts(-largest, 0).is_some());
    assert!(Decimal::from_parts(largest + 1, 0).is_none());
    assert!(Decimal::from_parts(1, 29).is_none());
}

#[test]
fn equal_values_are_equal_whatever_their_places() {
    assert_eq!(d("1.0"), d("1.000"));
    assert_ne!(d("1.0"), d("1.001"));
    assert_eq!(d("1.0").to_text(), d("1.000").to_text());
    assert_eq!(d("0"), d("-0.00"));
}

#[test]
fn exact_sums_products_and_differences() {
    assert_eq!(d("0.1").checked_add(d("0.2")).unwrap(), d("0.3"));
    assert_eq!(d("1.25").checked_add(d("-3")).unwrap(), d("-1.75"));
    assert_eq!(d("1").checked_sub(d("0.999")).unwrap(), d("0.001"));
    assert_eq!(d("1.5").checked_mul(d("-0.2")).unwrap(), d("-0.3"));
    assert_eq!(d("5.5").checked_sub(d("5.50")).unwrap(), Decimal::zero());
}

#[test]
fn quotients_are_exact_or_rounded() {
    assert_eq!(d("252").checked_div(d("2.5")).unwrap(), d("100.8"));
    assert_eq!(d("1").checked_div(d("3")).unwrap().to_text(), "0.3333333333333333333333333333");
    assert_eq!(d("2").checked_div(d("3")).unwrap().to_text(), "0.6666666666666666666666666667");
    assert!(d("1").checked_div(Decimal::zero()).is_none());
}

#[test]
fn sums_and_products_round_where_they_must() {
    let third = d("1").checked_div(d("3")).unwrap();
    assert_eq!(
        d("10").checked_add(third).unwrap().to_text(),
        "10.333333333333333333333333333"
    );
    assert_eq!(
        d("10").checked_sub(third).unwrap().to_text(),
        "9.666666666666666666666666667"
    );
    assert_eq!(
        third.checked_mul(third).unwrap().to_text(),
        "0.1111111111111111111111111111"
    );
}

#[test]
fn overflow_has_no_result() {
    let largest = Decimal::from_parts((1i128 << 96) - 1, 0).unwrap();
    assert!(largest.checked_add(largest).is_none());
    assert!(largest.negate().checked_sub(largest).is_none());
    assert!(largest.checked_mul(d("2")).is_none());
    assert!(largest.checked_div(d("0.5")).is_none());
}

#[test]
fn order_and_sign() {
    assert!(d("0.99").less(d("1")));
    assert!(!d("1.00").less(d("1")));
    assert!(!d("2").less(d("-3")));
    assert!(d("-3").less(d("2")));
    assert_eq!(d("3").min(d("2.5")), d("2.5"));
    assert!(d("1").is_sign_positive());
    assert!(!d("-1").is_sign_positive());
    assert_eq!(d("-4.5").abs(), d("4.5"));
    assert_eq!(d("4.5").negate(), d("-4.5"));
    assert!(d("0.00").is_zero());
    assert!(!d("0.01").is_zero());
}

#[test]
fn quotients_that_a_decimal_can_hold_are_exact() {
    assert_eq!(d("201").checked_div(d("2")).unwrap(), d("100.5"));
    assert_eq!(d("406").checked_div(d("4")).unwrap(), d("101.5"));
    assert_eq!(d("2").checked_div(d("100")).unwrap(), d("0.02"));
    assert_eq!(d("6").checked_div(d("0.3")).unwrap(), d("20"));
    assert_eq!(d("-1.00").checked_div(d("8")).unwrap(), d("-0.125"));
    assert_eq!(
        d("39614081257132168796771975166").checked_div(d("5")).unwrap().to_text(),
        "7922816251426433759354395033.2"
    );
    assert_eq!(
        d("79228162514264337593543950335").checked_div(d("10")).unwrap().to_text(),
        "7922816251426433759354395033.5"
    );
    assert_eq!(
        d("0.0000000000000000000000000003").checked_div(d("3")).unwrap(),
        Decimal::from_parts(1, 28).unwrap()
    );
}

#[test]
fn rounded_results_are_near() {
    let third = d("301").checked_div(d("3")).unwrap();
    assert_eq!(third.to_text(), "100.33333333333333333333333333");
    let off = third.checked_mul(d("3")).unwrap().checked_sub(d("301")).unwrap().abs();
    assert!(off.less(d("0.00000000000000000000000003")));
    assert_eq!(
        d("0.00000000000001").checked_mul(d("0.000000000000015")).unwrap().to_text(),
        "0.0000000000000000000000000002"
    );
    assert_eq!(
        d("79228162514264337593543950335").checked_add(d("0.4")).unwrap().to_text(),
        "79228162514264337593543950335"
    );
    assert_eq!(
        d("79228162514264337593543950334").checked_sub(d("-0.6")).unwrap().to_text(),
        "79228162514264337593543950335"
    );
    assert_eq!(
        d("20000000000000").checked_mul(d("5000000000000.0000000000000000")).unwrap(),
        d("100000000000000000000000000")
    );
}

#[test]
fn two_places_tell_the_value_alone() {
    for (a, b) in [("66.6", "66.6000"), ("-1.239", "-1.2390"), ("7", "7.000")] {
        assert_eq!(d(a).to_two_places(), d(b).to_two_places());
    }
}
