//! Reading the daily time series out of the upstream answer.
//!
//! The answer is a JSON object. Its member `Time Series (Daily)` is an object
//! again, with one member for each day: the name is the date, the value an
//! object whose member `4. close` holds the closing price as a text.

use vstd::prelude::*;
use crate::error::ServiceError;
use crate::json::{document_of, member_value, parse_json, Json, JsonValue};
use crate::order::comes_before;
use crate::series::{ascending, lemma_with_day, recent_closes, with_day, TimeSeries};

verus! {

/// The name of the member that holds the days.
pub const SERIES_FIELD: &'static str = "Time Series (Daily)";

/// The name of the member of a day that holds its closing price.
pub const CLOSE_FIELD: &'static str = "4. close";

/// The closing price that the entry of a day gives: the text of its member
/// `4. close`. `None` for an entry without that member, or whose closing
/// price is no text.
pub open spec fn close_of(day: JsonValue) -> Option<Seq<char>> {
    match day.field(CLOSE_FIELD@) {
        Some(JsonValue::Text(close)) => Some(close),
        _ => None,
    }
}

/// The days that the members of the series object stand for, `None` where
/// one of them gives no closing price. Each member in turn sets the closing
/// price of its date.
pub open spec fn days_of_members(members: Seq<(Seq<char>, JsonValue)>) -> Option<
    Seq<(Seq<char>, Seq<char>)>,
>
    decreases members.len(),
{
    if members.len() == 0 {
        Some(Seq::empty())
    } else {
        match (days_of_members(members.drop_last()), close_of(members.last().1)) {
            (Some(days), Some(close)) => Some(with_day(days, members.last().0, close)),
            _ => None,
        }
    }
}

/// The days of the time series in `document`, `None` where the document
/// has not the expected shape.
pub open spec fn series_of(document: JsonValue) -> Option<Seq<(Seq<char>, Seq<char>)>> {
    match document.field(SERIES_FIELD@) {
        Some(JsonValue::Object(members)) => days_of_members(members),
        _ => None,
    }
}

/// The closing price that `members` give for `date`: that of the last
/// member of that name, `None` where there is no such member or it gives
/// no closing price.
pub open spec fn close_on(members: Seq<(Seq<char>, JsonValue)>, date: Seq<char>) -> Option<
    Seq<char>,
> {
    match member_value(members, date) {
        Some(day) => close_of(day),
        None => None,
    }
}

/// The days of the time series in the answer `body`, `None` where the
/// answer is no JSON or a document of another shape.
pub open spec fn series_of_text(body: Seq<char>) -> Option<Seq<(Seq<char>, Seq<char>)>> {
    match document_of(body) {
        Some(document) => series_of(document),
        None => None,
    }
}

/// The closing prices that are picked from the members of a series object
/// when `ndays` days are asked for.
pub open spec fn picked_of(members: Seq<(Seq<char>, JsonValue)>, ndays: nat) -> Seq<Seq<char>> {
    recent_closes(days_of_members(members)->0, ndays)
}

/// The date of the day whose closing price is picked at place `j`: that of
/// the last day for `j` zero, of the day before it for `j` one, and so on.
pub open spec fn date_picked(members: Seq<(Seq<char>, JsonValue)>, j: int) -> Seq<char> {
    let days = days_of_members(members)->0;
    days[days.len() - 1 - j].0
}

/// Where some members stand for no series, neither do more members.
pub proof fn lemma_days_need_every_member(members: Seq<(Seq<char>, JsonValue)>, n: int)
    requires
        0 <= n <= members.len(),
        days_of_members(members.take(n)) is None,
    ensures
        days_of_members(members) is None,
    decreases members.len() - n,
{
    if n < members.len() {
        assert(members.take(n + 1).drop_last() =~= members.take(n));
        lemma_days_need_every_member(members, n + 1);
    } else {
        assert(members.take(n) =~= members);
    }
}

/// The days read from the members of a series object are in the order of
/// their dates, and they are what the members say: a date has the closing
/// price `close` exactly where the last member of that name gives `close`.
pub proof fn lemma_days_of_members(members: Seq<(Seq<char>, JsonValue)>)
    requires
        days_of_members(members) is Some,
    ensures
        ascending(days_of_members(members)->0),
        forall|date: Seq<char>, close: Seq<char>|
            #![trigger days_of_members(members)->0.contains((date, close))]
            days_of_members(members)->0.contains((date, close)) <==> close_on(members, date)
                == Some(close),
    decreases members.len(),
{
    let days = days_of_members(members)->0;
    if members.len() == 0 {
        assert forall|date: Seq<char>, close: Seq<char>| !days.contains((date, close)) by {}
    } else {
        let rest = members.drop_last();
        let last = members.last();
        let before = days_of_members(rest)->0;
        let last_close = close_of(last.1)->0;
        lemma_days_of_members(rest);
        lemma_with_day(before, last.0, last_close);
        assert forall|date: Seq<char>, close: Seq<char>|
            days.contains((date, close)) <==> close_on(members, date) == Some(close) by {
            let day = (date, close);
            assert(days.contains(day) <==> (day == (last.0, last_close) || (before.contains(day)
                && day.0 != last.0)));
            assert(before.contains((date, close)) <==> close_on(rest, date) == Some(close));
        }
    }
}

/// A series object whose members all have different names gives as many
/// days as it has members.
pub proof fn lemma_days_count(members: Seq<(Seq<char>, JsonValue)>)
    requires
        days_of_members(members) is Some,
        forall|i: int, j: int|
            #![trigger members[i], members[j]]
            0 <= i < j < members.len() ==> members[i].0 != members[j].0,
    ensures
        days_of_members(members)->0.len() == members.len(),
        forall|k: int|
            #![trigger members[k]]
            0 <= k < members.len() ==> exists|i: int|
                0 <= i < members.len() && (#[trigger] days_of_members(members)->0[i]).0
                    == members[k].0,
    decreases members.len(),
{
    let days = days_of_members(members)->0;
    if members.len() > 0 {
        let rest = members.drop_last();
        let last = members.last();
        let before = days_of_members(rest)->0;
        let last_close = close_of(last.1)->0;
        assert forall|i: int, j: int| 0 <= i < j < rest.len() implies rest[i].0 != rest[j].0 by {
            assert(rest[i] == members[i] && rest[j] == members[j]);
        }
        lemma_days_count(rest);
        lemma_days_of_members(rest);
        lemma_days_of_members(members);
        assert forall|i: int| 0 <= i < before.len() implies (#[trigger] before[i]).0 != last.0 by {
            let day = before[i];
            assert(day == (day.0, day.1));
            assert(before.contains((day.0, day.1)));
            assert(close_on(rest, day.0) == Some(day.1));
            assert(member_value(rest, day.0) is Some);
            lemma_member_value_is_member(rest, day.0);
            let k = choose|k: int| 0 <= k < rest.len() && rest[k].0 == day.0;
            assert(rest[k] == members[k] && last == members[members.len() - 1]);
        }
        lemma_with_new_day(before, last.0, last_close);
        assert forall|k: int|
            #![trigger members[k]]
            0 <= k < members.len() implies exists|i: int|
            0 <= i < members.len() && (#[trigger] days[i]).0 == members[k].0 by {
            let close = close_of(members[k].1)->0;
            lemma_member_value_of_distinct(members, k);
            lemma_days_need_every_member_at(members, k);
            assert(days.contains((members[k].0, close)));
            let i = choose|i: int| 0 <= i < days.len() && days[i] == (members[k].0, close);
            assert(days[i].0 == members[k].0);
        }
    }
}

/// What is picked from a series object of `K` members with different names
/// when `ndays` days are asked for: `ndays` closing prices, or `K` where
/// there are fewer members; each is the closing price that the member of
/// its date gives; and they come with the latest date first, the dates
/// falling from one to the next.
pub proof fn lemma_recent_of_members(members: Seq<(Seq<char>, JsonValue)>, ndays: nat)
    requires
        days_of_members(members) is Some,
        forall|i: int, j: int|
            #![trigger members[i], members[j]]
            0 <= i < j < members.len() ==> members[i].0 != members[j].0,
    ensures
        days_of_members(members)->0.len() == members.len(),
        ndays <= members.len() ==> picked_of(members, ndays).len() == ndays,
        ndays > members.len() ==> picked_of(members, ndays).len() == members.len(),
        forall|j: int|
            0 <= j < picked_of(members, ndays).len() ==> close_on(members, date_picked(members, j))
                == Some(#[trigger] picked_of(members, ndays)[j]),
        forall|j: int, k: int|
            0 <= j < k < picked_of(members, ndays).len() ==> comes_before(
                #[trigger] date_picked(members, k),
                #[trigger] date_picked(members, j),
            ),
{
    let days = days_of_members(members)->0;
    let picked = picked_of(members, ndays);
    lemma_days_count(members);
    lemma_days_of_members(members);
    assert forall|j: int| 0 <= j < picked.len() implies close_on(members, date_picked(members, j))
        == Some(#[trigger] picked[j]) by {
        let day = days[days.len() - 1 - j];
        assert(day == (day.0, day.1));
        assert(days.contains((day.0, day.1)));
    }
    assert forall|j: int, k: int| 0 <= j < k < picked.len() implies comes_before(
        #[trigger] date_picked(members, k),
        #[trigger] date_picked(members, j),
    ) by {
        let earlier = days[days.len() - 1 - k];
        let later = days[days.len() - 1 - j];
        assert(comes_before(earlier.0, later.0));
    }
}

/// A name that has a value among the members is the name of one of them.
proof fn lemma_member_value_is_member(members: Seq<(Seq<char>, JsonValue)>, name: Seq<char>)
    requires
        member_value(members, name) is Some,
    ensures
        exists|k: int| 0 <= k < members.len() && #[trigger] members[k].0 == name,
    decreases members.len(),
{
    if members.last().0 == name {
        assert(members[members.len() - 1].0 == name);
    } else {
        lemma_member_value_is_member(members.drop_last(), name);
        let k = choose|k: int|
            0 <= k < members.drop_last().len() && #[trigger] members.drop_last()[k].0 == name;
        assert(members[k].0 == name);
    }
}

/// Among members of different names, the value of a member's name is that
/// member's value.
proof fn lemma_member_value_of_distinct(members: Seq<(Seq<char>, JsonValue)>, k: int)
    requires
        0 <= k < members.len(),
        forall|i: int, j: int|
            #![trigger members[i], members[j]]
            0 <= i < j < members.len() ==> members[i].0 != members[j].0,
    ensures
        member_value(members, members[k].0) == Some(members[k].1),
    decreases members.len(),
{
    if k < members.len() - 1 {
        let rest = members.drop_last();
        assert(members[k].0 != members[members.len() - 1].0);
        assert forall|i: int, j: int| 0 <= i < j < rest.len() implies rest[i].0 != rest[j].0 by {
            assert(rest[i] == members[i] && rest[j] == members[j]);
        }
        assert(rest[k] == members[k]);
        lemma_member_value_of_distinct(rest, k);
    }
}

/// Where the members stand for a series, each of them gives a closing
/// price.
proof fn lemma_days_need_every_member_at(members: Seq<(Seq<char>, JsonValue)>, k: int)
    requires
        0 <= k < members.len(),
        days_of_members(members) is Some,
    ensures
        close_of(members[k].1) is Some,
    decreases members.len(),
{
    if k < members.len() - 1 {
        assert(members.drop_last()[k] == members[k]);
        lemma_days_need_every_member_at(members.drop_last(), k);
    }
}

/// Setting a day whose date the series does not have yet adds one day.
proof fn lemma_with_new_day(days: Seq<(Seq<char>, Seq<char>)>, date: Seq<char>, close: Seq<char>)
    requires
        forall|i: int| 0 <= i < days.len() ==> (#[trigger] days[i]).0 != date,
    ensures
        with_day(days, date, close).len() == days.len() + 1,
    decreases days.len(),
{
    if days.len() > 0 {
        assert(days.last() == days[days.len() - 1]);
        if !comes_before(days.last().0, date) {
            let rest = days.drop_last();
            assert forall|i: int| 0 <= i < rest.len() implies (#[trigger] rest[i]).0 != date by {
                assert(rest[i] == days[i]);
            }
            lemma_with_new_day(rest, date, close);
        }
    }
}

/// Reads the time series out of a JSON document.
///
/// Fails with `ParseFailure` where the document is no object with a member
/// `Time Series (Daily)` that is an object, or where the entry of some day
/// is no object with a text as its member `4. close`.
pub fn time_series_from_json(document: &Json) -> (read: Result<TimeSeries, ServiceError>)
    ensures
        match read {
            Ok(series) => series_of(document@) == Some(series@),
            Err(error) => error == ServiceError::ParseFailure && series_of(document@) is None,
        },
{
    match document.field(SERIES_FIELD) {
        Some(Json::Object(members)) => {
            let ghost all = document@.field(SERIES_FIELD@)->0->Object_0;
            let mut series = TimeSeries::new();
            let mut i: usize = 0;
            while i < members.len()
                invariant
                    i <= members@.len(),
                    all.len() == members@.len(),
                    forall|k: int|
                        0 <= k < all.len() ==> #[trigger] all[k] == (
                            members@[k].name@,
                            members@[k].value@,
                        ),
                    series_of(document@) == days_of_members(all),
                    days_of_members(all.take(i as int)) == Some(series@),
                decreases members@.len() - i,
            {
                proof {
                    assert(all.take(i + 1).drop_last() =~= all.take(i as int));
                    assert(all.take(i + 1).last() == all[i as int]);
                }
                match members[i].value.field(CLOSE_FIELD) {
                    Some(Json::Text(close)) => {
                        series.insert(members[i].name.clone(), close.clone());
                    },
                    _ => {
                        proof {
                            lemma_days_need_every_member(all, i + 1);
                        }
                        return Err(ServiceError::ParseFailure);
                    },
                }
                i += 1;
            }
            assert(all.take(i as int) =~= all);
            Ok(series)
        },
        _ => Err(ServiceError::ParseFailure),
    }
}

/// Reads the time series out of the upstream answer.
///
/// Fails with `ParseFailure` where the answer is no JSON document, or a
/// document of another shape than `time_series_from_json` expects.
pub fn parse_time_series(body: &str) -> (read: Result<TimeSeries, ServiceError>)
    ensures
        match read {
            Ok(series) => series_of_text(body@) == Some(series@),
            Err(error) => error == ServiceError::ParseFailure && series_of_text(body@) is None,
        },
{
    match parse_json(body) {
        Ok(document) => time_series_from_json(&document),
        Err(error) => Err(error),
    }
}

} // verus!
