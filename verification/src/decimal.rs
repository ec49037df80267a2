//! Exact decimal numbers and their average.
//!
//! The numbers are those of `rust_decimal`: an integer of up to 96 bits with
//! a sign, and the count of its digits that stand behind the decimal point.
//! Reading, adding, dividing and writing them is `rust_decimal`'s work; what
//! it returns is named here, and the average is stated over those names.

use vstd::prelude::*;
use core::str::FromStr;
use crate::error::ServiceError;

verus! {

/// The most digits that can stand behind the decimal point.
pub const MAX_SCALE: u32 = 28;

/// The bound of the mantissa: two to the power of 96.
pub const MANTISSA_BOUND: i128 = 79_228_162_514_264_337_593_543_950_336;

/// A decimal number: `mantissa` divided by ten to the power of `scale`.
#[derive(Clone, Copy, Debug, PartialEq, Eq, Structural)]
pub struct Amount {
    pub mantissa: i128,
    pub scale: u32,
}

impl Amount {
    /// The number is one that `rust_decimal` can hold.
    pub open spec fn is_decimal(self) -> bool {
        -MANTISSA_BOUND < self.mantissa < MANTISSA_BOUND && self.scale <= MAX_SCALE
    }

    /// The whole number `count`.
    pub open spec fn of_count(count: nat) -> Amount {
        Amount { mantissa: count as i128, scale: 0 }
    }

    /// Whether `rust_decimal` can hold the number.
    pub fn fits(&self) -> (fits: bool)
        ensures
            fits == self.is_decimal(),
    {
        -MANTISSA_BOUND < self.mantissa && self.mantissa < MANTISSA_BOUND && self.scale
            <= MAX_SCALE
    }
}

/// `rust_decimal::Error`, of which nothing is read.
#[verifier::external_type_specification]
#[verifier::external_body]
pub struct ExRustDecimalError(rust_decimal::Error);

/// The number that `rust_decimal::Decimal::from_str` reads from `text`;
/// `None` where it reports an error.
pub uninterp spec fn decimal_of_text(text: Seq<char>) -> Option<Amount>;

/// The sum that `rust_decimal::Decimal::checked_add` gives for `a` and `b`;
/// `None` where it gives none.
pub uninterp spec fn decimal_sum(a: Amount, b: Amount) -> Option<Amount>;

/// The quotient that `rust_decimal::Decimal::checked_div` gives for `a`
/// divided by `b`; `None` where it gives none.
pub uninterp spec fn decimal_quotient(a: Amount, b: Amount) -> Option<Amount>;

/// The text that `rust_decimal::Decimal` writes for `a` when it is
/// displayed.
pub uninterp spec fn decimal_text(a: Amount) -> Seq<char>;

/// `rust_decimal::Decimal::from_str`. The contract names what was read
/// `decimal_of_text`, and claims of it what the type's documentation says
/// of every `Decimal`: a mantissa of less than 96 bits and a scale of 28 at
/// most.
#[verifier::external_body]
fn read_decimal(text: &str) -> (read: Result<Amount, rust_decimal::Error>)
    ensures
        match read {
            Ok(amount) => decimal_of_text(text@) == Some(amount) && amount.is_decimal(),
            Err(_) => decimal_of_text(text@) is None,
        },
{
    match rust_decimal::Decimal::from_str(text) {
        Ok(decimal) => Ok(Amount { mantissa: decimal.mantissa(), scale: decimal.scale() }),
        Err(error) => Err(error),
    }
}

/// `rust_decimal::Decimal::checked_add`. The contract names the sum
/// `decimal_sum`, and claims of it the limits of every `Decimal`.
#[verifier::external_body]
fn add_decimals(a: Amount, b: Amount) -> (sum: Option<Amount>)
    requires
        a.is_decimal(),
        b.is_decimal(),
    ensures
        sum == decimal_sum(a, b),
        sum matches Some(amount) ==> amount.is_decimal(),
{
    let x = rust_decimal::Decimal::from_i128_with_scale(a.mantissa, a.scale);
    let y = rust_decimal::Decimal::from_i128_with_scale(b.mantissa, b.scale);
    match x.checked_add(y) {
        Some(decimal) => Some(Amount { mantissa: decimal.mantissa(), scale: decimal.scale() }),
        None => None,
    }
}

/// `rust_decimal::Decimal::checked_div`. The contract names the quotient
/// `decimal_quotient`, and claims of it the limits of every `Decimal`.
#[verifier::external_body]
fn divide_decimals(a: Amount, b: Amount) -> (quotient: Option<Amount>)
    requires
        a.is_decimal(),
        b.is_decimal(),
    ensures
        quotient == decimal_quotient(a, b),
        quotient matches Some(amount) ==> amount.is_decimal(),
{
    let x = rust_decimal::Decimal::from_i128_with_scale(a.mantissa, a.scale);
    let y = rust_decimal::Decimal::from_i128_with_scale(b.mantissa, b.scale);
    match x.checked_div(y) {
        Some(decimal) => Some(Amount { mantissa: decimal.mantissa(), scale: decimal.scale() }),
        None => None,
    }
}

/// The whole number `count` as a decimal, as `rust_decimal` makes one of
/// a `usize`: the number itself, with no digit behind the decimal point.
fn decimal_of_count(count: usize) -> (amount: Amount)
    ensures
        amount == Amount::of_count(count as nat),
        amount.is_decimal(),
{
    Amount { mantissa: count as i128, scale: 0 }
}

/// `to_string` of a `rust_decimal::Decimal`, which displays it. The
/// contract names the text `decimal_text`.
#[verifier::external_body]
fn write_decimal(a: Amount) -> (text: String)
    requires
        a.is_decimal(),
    ensures
        text@ == decimal_text(a),
{
    rust_decimal::Decimal::from_i128_with_scale(a.mantissa, a.scale).to_string()
}

/// The sum of `amounts`, added one after the other to zero; `None` where a
/// sum on the way does not fit.
pub open spec fn total(amounts: Seq<Amount>) -> Option<Amount>
    decreases amounts.len(),
{
    if amounts.len() == 0 {
        Some(Amount::of_count(0))
    } else {
        match total(amounts.drop_last()) {
            Some(sum) => decimal_sum(sum, amounts.last()),
            None => None,
        }
    }
}

/// The mean of `amounts`: their total divided by their number.
pub open spec fn mean_of(amounts: Seq<Amount>) -> Result<Amount, ServiceError> {
    if amounts.len() == 0 {
        Err(ServiceError::DivisionByZero)
    } else {
        match total(amounts) {
            None => Err(ServiceError::Overflow),
            Some(sum) => match decimal_quotient(sum, Amount::of_count(amounts.len())) {
                None => Err(ServiceError::Overflow),
                Some(mean) => Ok(mean),
            },
        }
    }
}

/// Every one of `prices` reads as a decimal number.
pub open spec fn all_decimal(prices: Seq<Seq<char>>) -> bool {
    forall|i: int| 0 <= i < prices.len() ==> (#[trigger] decimal_of_text(prices[i])) is Some
}

/// The numbers that `prices` read as.
pub open spec fn amounts_of(prices: Seq<Seq<char>>) -> Seq<Amount> {
    Seq::new(prices.len(), |i: int| decimal_of_text(prices[i])->0)
}

/// The average of `prices`: `DivisionByZero` where there is no price,
/// `NumericParseFailure` where one of them is no decimal number, else the
/// mean of the numbers they read as.
pub open spec fn average_of(prices: Seq<Seq<char>>) -> Result<Amount, ServiceError> {
    if prices.len() == 0 {
        Err(ServiceError::DivisionByZero)
    } else if !all_decimal(prices) {
        Err(ServiceError::NumericParseFailure)
    } else {
        mean_of(amounts_of(prices))
    }
}

/// Where the first amounts have no total, neither have all.
pub proof fn lemma_total_needs_every_sum(amounts: Seq<Amount>, n: int)
    requires
        0 <= n <= amounts.len(),
        total(amounts.take(n)) is None,
    ensures
        total(amounts) is None,
    decreases amounts.len() - n,
{
    if n < amounts.len() {
        assert(amounts.take(n + 1).drop_last() =~= amounts.take(n));
        lemma_total_needs_every_sum(amounts, n + 1);
    } else {
        assert(amounts.take(n) =~= amounts);
    }
}

/// Reads a decimal number.
///
/// Fails with `NumericParseFailure` where `text` is no decimal number.
pub fn parse_amount(text: &str) -> (read: Result<Amount, ServiceError>)
    ensures
        match read {
            Ok(amount) => decimal_of_text(text@) == Some(amount) && amount.is_decimal(),
            Err(error) => error == ServiceError::NumericParseFailure && decimal_of_text(text@)
                is None,
        },
{
    match read_decimal(text) {
        Ok(amount) => Ok(amount),
        Err(_) => Err(ServiceError::NumericParseFailure),
    }
}

/// Writes a decimal number: its digits, with the decimal point where the
/// scale puts it.
pub fn amount_text(amount: Amount) -> (text: String)
    requires
        amount.is_decimal(),
    ensures
        text@ == decimal_text(amount),
{
    write_decimal(amount)
}

/// The mean of `amounts`.
///
/// Fails with `DivisionByZero` where there is no amount, and with
/// `Overflow` where the total or the mean does not fit a decimal.
pub fn mean(amounts: &Vec<Amount>) -> (mean: Result<Amount, ServiceError>)
    requires
        forall|i: int| 0 <= i < amounts@.len() ==> (#[trigger] amounts@[i]).is_decimal(),
    ensures
        mean == mean_of(amounts@),
        mean matches Ok(amount) ==> amount.is_decimal(),
{
    if amounts.len() == 0 {
        return Err(ServiceError::DivisionByZero);
    }
    let mut sum = decimal_of_count(0);
    let mut i: usize = 0;
    while i < amounts.len()
        invariant
            i <= amounts@.len(),
            forall|k: int| 0 <= k < amounts@.len() ==> (#[trigger] amounts@[k]).is_decimal(),
            total(amounts@.take(i as int)) == Some(sum),
            sum.is_decimal(),
        decreases amounts@.len() - i,
    {
        proof {
            assert(amounts@.take(i + 1).drop_last() =~= amounts@.take(i as int));
            assert(amounts@.take(i + 1).last() == amounts@[i as int]);
        }
        match add_decimals(sum, amounts[i]) {
            Some(next) => {
                sum = next;
            },
            None => {
                proof {
                    lemma_total_needs_every_sum(amounts@, i + 1);
                }
                return Err(ServiceError::Overflow);
            },
        }
        i += 1;
    }
    assert(amounts@.take(i as int) =~= amounts@);
    match divide_decimals(sum, decimal_of_count(amounts.len())) {
        Some(mean) => Ok(mean),
        None => Err(ServiceError::Overflow),
    }
}

/// The average of `prices`, each a decimal number as a text.
///
/// Fails with `DivisionByZero` where there is no price, with
/// `NumericParseFailure` where one of them is no decimal number, and with
/// `Overflow` where the total or the mean does not fit a decimal.
pub fn average(prices: &Vec<String>) -> (average: Result<Amount, ServiceError>)
    ensures
        average == average_of(prices.deep_view()),
        average matches Ok(amount) ==> amount.is_decimal(),
{
    if prices.len() == 0 {
        return Err(ServiceError::DivisionByZero);
    }
    let ghost texts = prices.deep_view();
    let mut amounts: Vec<Amount> = Vec::new();
    let mut i: usize = 0;
    while i < prices.len()
        invariant
            i <= prices@.len(),
            texts == prices.deep_view(),
            amounts@.len() == i,
            forall|k: int|
                0 <= k < i ==> decimal_of_text(texts[k]) == Some(#[trigger] amounts@[k])
                    && amounts@[k].is_decimal(),
        decreases prices@.len() - i,
    {
        match parse_amount(prices[i].as_str()) {
            Ok(amount) => {
                amounts.push(amount);
            },
            Err(error) => {
                assert(decimal_of_text(texts[i as int]) is None);
                return Err(error);
            },
        }
        i += 1;
    }
    assert forall|k: int| 0 <= k < texts.len() implies (#[trigger] decimal_of_text(
        texts[k],
    )) is Some by {
        assert(decimal_of_text(texts[k]) == Some(amounts@[k]));
    }
    assert(amounts@ =~= amounts_of(texts));
    mean(&amounts)
}

} // verus!
