use stock_average::decimal::{
    amount_text, average, mean, parse_amount, Amount, MANTISSA_BOUND, MAX_SCALE,
};
use stock_average::error::ServiceError;

fn texts(prices: &[&str]) -> Vec<String> {
    prices.iter().map(|p| String::from(*p)).collect()
}

fn amount(mantissa: i128, scale: u32) -> Amount {
    Amount { mantissa, scale }
}

fn average_text(prices: &[&str]) -> Result<String, ServiceError> {
    average(&texts(prices)).map(amount_text)
}

#[test]
fn limits_are_those_of_a_96_bit_decimal() {
    assert_eq!(MANTISSA_BOUND, 1i128 << 96);
    assert_eq!(MAX_SCALE, 28);
}

#[test]
fn fits_tells_what_a_decimal_can_hold() {
    assert!(amount(0, 0).fits());
    assert!(amount(1010, 2).fits());
    assert!(amount(-1010, 28).fits());
    assert!(amount(MANTISSA_BOUND - 1, 0).fits());
    assert!(amount(-(MANTISSA_BOUND - 1), 0).fits());
    assert!(!amount(MANTISSA_BOUND, 0).fits());
    assert!(!amount(-MANTISSA_BOUND, 0).fits());
    assert!(!amount(1, 29).fits());
}

#[test]
fn parse_amount_keeps_every_digit() {
    assert_eq!(parse_amount("10.10"), Ok(amount(1010, 2)));
    assert_eq!(parse_amount("12"), Ok(amount(12, 0)));
    assert_eq!(parse_amount("-0.005"), Ok(amount(-5, 3)));
    assert_eq!(parse_amount("187.4400"), Ok(amount(1874400, 4)));
}

#[test]
fn parse_amount_refuses_what_is_no_number() {
    assert_eq!(parse_amount(""), Err(ServiceError::NumericParseFailure));
    assert_eq!(parse_amount("abc"), Err(ServiceError::NumericParseFailure));
    assert_eq!(parse_amount("10,10"), Err(ServiceError::NumericParseFailure));
    assert_eq!(parse_amount("1.2.3"), Err(ServiceError::NumericParseFailure));
    assert_eq!(parse_amount(" 10.10"), Err(ServiceError::NumericParseFailure));
}

#[test]
fn amount_text_writes_the_point_where_the_scale_puts_it() {
    assert_eq!(amount_text(amount(1010, 2)), "10.10");
    assert_eq!(amount_text(amount(1100, 2)), "11.00");
    assert_eq!(amount_text(amount(12, 0)), "12");
    assert_eq!(amount_text(amount(-5, 3)), "-0.005");
    assert_eq!(amount_text(amount(0, 0)), "0");
}

#[test]
fn mean_divides_the_total_by_the_count() {
    assert_eq!(mean(&vec![amount(1000, 2), amount(1200, 2)]).map(amount_text), Ok(String::from("11.00")));
    assert_eq!(mean(&vec![amount(1010, 2), amount(1020, 2)]).map(amount_text), Ok(String::from("10.15")));
    assert_eq!(mean(&vec![amount(7, 0)]).map(amount_text), Ok(String::from("7")));
}

#[test]
fn mean_of_whole_numbers_may_have_a_fraction() {
    assert_eq!(mean(&vec![amount(1, 0), amount(2, 0)]).map(amount_text), Ok(String::from("1.50")));
}

#[test]
fn mean_adds_numbers_of_different_scales() {
    assert_eq!(mean(&vec![amount(15, 1), amount(250, 2)]), Ok(amount(200, 2)));
}

#[test]
fn mean_of_nothing_is_a_division_by_zero() {
    assert_eq!(mean(&Vec::new()), Err(ServiceError::DivisionByZero));
}

#[test]
fn mean_reports_a_total_that_does_not_fit() {
    let largest = amount(MANTISSA_BOUND - 1, 0);
    assert_eq!(mean(&vec![largest, largest]), Err(ServiceError::Overflow));
}

#[test]
fn average_is_exact_in_decimal() {
    assert_eq!(
        average_text(&["10.10", "10.20", "10.10"]),
        Ok(String::from("10.133333333333333333333333333"))
    );
}

#[test]
fn average_has_no_binary_rounding() {
    assert_eq!(average_text(&["0.1", "0.2"]), Ok(String::from("0.150")));
}

#[test]
fn average_of_three_tenths() {
    assert_eq!(average_text(&["0.10", "0.20", "0.30"]), Ok(String::from("0.20")));
}

#[test]
fn average_of_two_prices_with_cents() {
    assert_eq!(average_text(&["1.10", "2.20"]), Ok(String::from("1.65")));
}

#[test]
fn average_of_two_prices() {
    assert_eq!(average_text(&["12.00", "10.00"]), Ok(String::from("11.00")));
}

#[test]
fn average_of_one_price_is_that_price() {
    assert_eq!(average_text(&["187.44"]), Ok(String::from("187.44")));
}

#[test]
fn average_of_no_price_is_a_division_by_zero() {
    assert_eq!(average(&Vec::new()), Err(ServiceError::DivisionByZero));
}

#[test]
fn average_refuses_a_price_that_is_no_number() {
    assert_eq!(average(&texts(&["10.00", "n/a"])), Err(ServiceError::NumericParseFailure));
    assert_eq!(average(&texts(&["", "10.00"])), Err(ServiceError::NumericParseFailure));
}

#[test]
fn average_reports_a_total_that_does_not_fit() {
    let largest = "79228162514264337593543950335";
    assert_eq!(average(&texts(&[largest, largest])), Err(ServiceError::Overflow));
}

#[test]
fn average_refuses_a_bad_price_even_behind_an_overflow() {
    let largest = "79228162514264337593543950335";
    assert_eq!(
        average(&texts(&[largest, largest, "x"])),
        Err(ServiceError::NumericParseFailure)
    );
}
