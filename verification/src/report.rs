//! The request and the answer: the address that is asked for the data, the
//! summary that is served, and the way from the upstream answer to it.

use vstd::prelude::*;
use vstd::string::StringExecFns;
use crate::config::Config;
use crate::decimal::{amount_text, average, average_of, decimal_text};
use crate::error::ServiceError;
use crate::json::{document_of, parse_json, Json, JsonValue};
use crate::parser::{series_of, time_series_from_json, SERIES_FIELD};
use crate::series::recent_closes;

verus! {

/// Where the upstream API is found.
pub const STOCK_API: &'static str = "https://www.alphavantage.co";

/// What is served where no summary can be made.
pub const FAILURE_BODY: &'static str = "err :(";

/// The address that is asked for the daily series of `symbol`.
pub open spec fn url_of(api_token: Seq<char>, symbol: Seq<char>) -> Seq<char> {
    STOCK_API@ + "/query?apikey="@ + api_token
        + "&function=TIME_SERIES_DAILY_ADJUSTED&symbol="@ + symbol
}

/// `prices` one after the other, with a comma and a blank between each two.
pub open spec fn joined(prices: Seq<Seq<char>>) -> Seq<char>
    decreases prices.len(),
{
    if prices.len() == 0 {
        Seq::empty()
    } else if prices.len() == 1 {
        prices[0]
    } else {
        joined(prices.drop_last()) + ", "@ + prices.last()
    }
}

/// The summary: the symbol, the prices in square brackets, the average.
pub open spec fn summary_line(symbol: Seq<char>, prices: Seq<Seq<char>>, average: Seq<char>) -> Seq<
    char,
> {
    symbol + " data=["@ + joined(prices) + "], average="@ + average
}

/// What a document gives for `symbol` and `ndays`: the summary of the
/// closing prices of its most recent days and of their average, or the
/// reason why there is none.
pub open spec fn report_of_document(symbol: Seq<char>, ndays: nat, document: JsonValue) -> Result<
    Seq<char>,
    ServiceError,
> {
    match series_of(document) {
        None => Err(ServiceError::ParseFailure),
        Some(days) => {
            let prices = recent_closes(days, ndays);
            match average_of(prices) {
                Err(error) => Err(error),
                Ok(mean) => Ok(summary_line(symbol, prices, decimal_text(mean))),
            }
        },
    }
}

/// What an upstream answer gives for `symbol` and `ndays`, the answer taken
/// as the document that was read from it, `None` where it is no JSON.
pub open spec fn report_of(symbol: Seq<char>, ndays: nat, document: Option<JsonValue>) -> Result<
    Seq<char>,
    ServiceError,
> {
    match document {
        None => Err(ServiceError::ParseFailure),
        Some(document) => report_of_document(symbol, ndays, document),
    }
}

/// The body that is served: the summary where there is one, the same few
/// words for every failure.
pub open spec fn body_of(report: Result<Seq<char>, ServiceError>) -> Seq<char> {
    match report {
        Ok(line) => line,
        Err(_) => FAILURE_BODY@,
    }
}

/// The views of a report that holds a `String`.
pub open spec fn report_view(report: Result<String, ServiceError>) -> Result<
    Seq<char>,
    ServiceError,
> {
    match report {
        Ok(line) => Ok(line@),
        Err(error) => Err(error),
    }
}

/// A document without the member that holds the days gives no summary but
/// a `ParseFailure`, and the body that is served for it is the one of all
/// failures.
pub proof fn lemma_missing_series_fails(symbol: Seq<char>, ndays: nat, document: JsonValue)
    requires
        document.field(SERIES_FIELD@) is None,
    ensures
        series_of(document) is None,
        report_of_document(symbol, ndays, document) == Err::<Seq<char>, ServiceError>(
            ServiceError::ParseFailure,
        ),
        body_of(report_of_document(symbol, ndays, document)) == FAILURE_BODY@,
{
}

/// A series of no days has no average: the summary fails with
/// `DivisionByZero`, whatever number of days is asked for. So does every
/// series when no day is asked for.
pub proof fn lemma_nothing_to_average(symbol: Seq<char>, ndays: nat, document: JsonValue)
    requires
        series_of(document) is Some,
        series_of(document)->0.len() == 0 || ndays == 0,
    ensures
        report_of_document(symbol, ndays, document) == Err::<Seq<char>, ServiceError>(
            ServiceError::DivisionByZero,
        ),
{
}

/// The address that is asked for the daily series of `symbol`.
pub fn make_url(api_token: &str, symbol: &str) -> (url: String)
    ensures
        url@ == url_of(api_token@, symbol@),
{
    let mut url = String::from_str(STOCK_API);
    url.append("/query?apikey=");
    url.append(api_token);
    url.append("&function=TIME_SERIES_DAILY_ADJUSTED&symbol=");
    url.append(symbol);
    url
}

/// `prices` one after the other, with a comma and a blank between each two.
pub fn join_prices(prices: &Vec<String>) -> (text: String)
    ensures
        text@ == joined(prices.deep_view()),
{
    let ghost texts = prices.deep_view();
    let mut text = String::new();
    let mut i: usize = 0;
    assert(texts.take(0) =~= Seq::<Seq<char>>::empty());
    while i < prices.len()
        invariant
            i <= prices@.len(),
            texts == prices.deep_view(),
            text@ == joined(texts.take(i as int)),
        decreases prices@.len() - i,
    {
        proof {
            let longer = texts.take(i + 1);
            assert(longer.drop_last() =~= texts.take(i as int));
            assert(longer.last() == prices@[i as int]@);
            if i == 0 {
                assert(Seq::<char>::empty() + prices@[0]@ =~= prices@[0]@);
            }
        }
        if i > 0 {
            text.append(", ");
        }
        text.append(prices[i].as_str());
        i += 1;
    }
    assert(texts.take(i as int) =~= texts);
    text
}

/// The summary of `prices` and their `average` for `symbol`.
pub fn summary(symbol: &str, prices: &Vec<String>, average: &str) -> (line: String)
    ensures
        line@ == summary_line(symbol@, prices.deep_view(), average@),
{
    let mut line = String::from_str(symbol);
    line.append(" data=[");
    let list = join_prices(prices);
    line.append(list.as_str());
    line.append("], average=");
    line.append(average);
    line
}

/// Makes the summary for `symbol` out of a document: reads its time
/// series, picks the closing prices of the `ndays` most recent days and
/// averages them.
///
/// Fails with `ParseFailure` where the document has not the expected
/// shape, and as `average` does.
pub fn report_from_json(symbol: &str, ndays: usize, document: &Json) -> (report: Result<
    String,
    ServiceError,
>)
    ensures
        report_view(report) == report_of_document(symbol@, ndays as nat, document@),
{
    let series = match time_series_from_json(document) {
        Ok(series) => series,
        Err(error) => {
            return Err(error);
        },
    };
    let prices = series.recent(ndays);
    match average(&prices) {
        Ok(mean) => {
            let mean_text = amount_text(mean);
            Ok(summary(symbol, &prices, mean_text.as_str()))
        },
        Err(error) => Err(error),
    }
}

/// Makes the summary for `symbol` out of the upstream answer.
///
/// Fails with `ParseFailure` where the answer is no JSON, and as
/// `report_from_json` does.
pub fn report(symbol: &str, ndays: usize, body: &str) -> (report: Result<String, ServiceError>)
    ensures
        report_view(report) == report_of(symbol@, ndays as nat, document_of(body@)),
{
    match parse_json(body) {
        Ok(document) => report_from_json(symbol, ndays, &document),
        Err(error) => Err(error),
    }
}

/// Answers a request: `fetched` is what asking the address of `make_url`
/// gave, the body of the upstream answer or the failure to get one.
///
/// The body that is served is the summary, or `FAILURE_BODY` where the
/// fetch failed or no summary can be made.
pub fn respond(config: &Config, fetched: Result<String, ServiceError>) -> (body: String)
    ensures
        body@ == match fetched {
            Ok(answer) => body_of(
                report_of(config@.symbol, config@.ndays as nat, document_of(answer@)),
            ),
            Err(_) => FAILURE_BODY@,
        },
{
    let made = match fetched {
        Ok(answer) => report(config.symbol.as_str(), config.ndays, answer.as_str()),
        Err(error) => Err(error),
    };
    match made {
        Ok(line) => line,
        Err(_) => String::from_str(FAILURE_BODY),
    }
}

} // verus!
