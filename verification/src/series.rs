//! The daily time series: closing prices keyed by date, kept in the order of
//! the dates.

use vstd::prelude::*;
use crate::order::{
    comes_before, lemma_before_asymmetric, lemma_before_irreflexive, lemma_before_total,
    lemma_before_transitive, precedes,
};

verus! {

/// The dates of `days` rise strictly from each day to the next.
pub open spec fn ascending(days: Seq<(Seq<char>, Seq<char>)>) -> bool {
    forall|i: int, j: int|
        #![trigger days[i], days[j]]
        0 <= i < j < days.len() ==> comes_before(days[i].0, days[j].0)
}

/// `days` with the closing price of `date` set to `close`: the day takes the
/// place that its date gives it, and replaces a day of the same date.
pub open spec fn with_day(days: Seq<(Seq<char>, Seq<char>)>, date: Seq<char>, close: Seq<char>) -> Seq<
    (Seq<char>, Seq<char>),
>
    decreases days.len(),
{
    if days.len() == 0 {
        seq![(date, close)]
    } else if comes_before(days.last().0, date) {
        days.push((date, close))
    } else if days.last().0 == date {
        days.drop_last().push((date, close))
    } else {
        with_day(days.drop_last(), date, close).push(days.last())
    }
}

/// The closing prices of the last `ndays` days of `days`, the latest first;
/// all of them where there are fewer days than that.
pub open spec fn recent_closes(days: Seq<(Seq<char>, Seq<char>)>, ndays: nat) -> Seq<Seq<char>> {
    let count = if ndays <= days.len() {
        ndays
    } else {
        days.len()
    };
    Seq::new(count, |j: int| days[days.len() - 1 - j].1)
}

/// Setting a day keeps the dates ascending, and changes nothing but the
/// closing price of that date: the days of the result are the new day and
/// the old days of other dates.
pub proof fn lemma_with_day(days: Seq<(Seq<char>, Seq<char>)>, date: Seq<char>, close: Seq<char>)
    requires
        ascending(days),
    ensures
        ascending(with_day(days, date, close)),
        forall|day: (Seq<char>, Seq<char>)|
            #![trigger with_day(days, date, close).contains(day)]
            #![trigger days.contains(day)]
            with_day(days, date, close).contains(day) <==> (day == (date, close) || (days.contains(
                day,
            ) && day.0 != date)),
    decreases days.len(),
{
    let result = with_day(days, date, close);
    let new_day = (date, close);
    if days.len() == 0 {
        assert(result[0] == new_day);
    } else {
        let last = days.last();
        let rest = days.drop_last();
        assert forall|k: int| 0 <= k < rest.len() implies comes_before(
            #[trigger] rest[k].0,
            last.0,
        ) by {
            assert(rest[k] == days[k] && last == days[days.len() - 1]);
        }
        assert forall|day: (Seq<char>, Seq<char>)| days.contains(day) <==> (rest.contains(day)
            || day == last) by {
            if days.contains(day) {
                let k = choose|k: int| 0 <= k < days.len() && days[k] == day;
                if k < rest.len() {
                    assert(rest[k] == day);
                }
            }
            if rest.contains(day) {
                let k = choose|k: int| 0 <= k < rest.len() && rest[k] == day;
                assert(days[k] == day);
            }
            if day == last {
                assert(days[days.len() - 1] == day);
            }
        }
        if comes_before(last.0, date) {
            assert forall|k: int| 0 <= k < days.len() implies comes_before(
                #[trigger] days[k].0,
                date,
            ) by {
                if k < rest.len() {
                    assert(rest[k] == days[k]);
                    lemma_before_transitive(days[k].0, last.0, date);
                }
            }
            assert forall|i: int, j: int| 0 <= i < j < result.len() implies comes_before(
                result[i].0,
                result[j].0,
            ) by {
                if j < days.len() {
                    assert(result[i] == days[i] && result[j] == days[j]);
                } else {
                    assert(result[i] == days[i]);
                }
            }
            assert forall|day: (Seq<char>, Seq<char>)| result.contains(day) <==> (day == new_day
                || (days.contains(day) && day.0 != date)) by {
                if result.contains(day) {
                    let k = choose|k: int| 0 <= k < result.len() && result[k] == day;
                    if k < days.len() {
                        assert(days[k] == day);
                        lemma_before_irreflexive(date);
                    }
                }
                if day == new_day {
                    assert(result[days.len() as int] == day);
                }
                if days.contains(day) && day.0 != date {
                    let k = choose|k: int| 0 <= k < days.len() && days[k] == day;
                    assert(result[k] == day);
                }
            }
        } else if last.0 == date {
            assert forall|i: int, j: int| 0 <= i < j < result.len() implies comes_before(
                result[i].0,
                result[j].0,
            ) by {
                if j < rest.len() {
                    assert(result[i] == days[i] && result[j] == days[j]);
                } else {
                    assert(result[i] == rest[i]);
                }
            }
            assert forall|day: (Seq<char>, Seq<char>)| result.contains(day) <==> (day == new_day
                || (days.contains(day) && day.0 != date)) by {
                if result.contains(day) {
                    let k = choose|k: int| 0 <= k < result.len() && result[k] == day;
                    if k < rest.len() {
                        assert(rest[k] == day);
                        lemma_before_irreflexive(date);
                    }
                }
                if day == new_day {
                    assert(result[rest.len() as int] == day);
                }
                if days.contains(day) && day.0 != date {
                    let k = choose|k: int| 0 <= k < rest.len() && rest[k] == day;
                    assert(result[k] == day);
                }
            }
        } else {
            let inner = with_day(rest, date, close);
            assert(ascending(rest)) by {
                assert forall|i: int, j: int| 0 <= i < j < rest.len() implies comes_before(
                    rest[i].0,
                    rest[j].0,
                ) by {
                    assert(rest[i] == days[i] && rest[j] == days[j]);
                }
            }
            lemma_with_day(rest, date, close);
            lemma_before_total(last.0, date);
            assert(comes_before(date, last.0));
            assert forall|i: int, j: int| 0 <= i < j < result.len() implies comes_before(
                result[i].0,
                result[j].0,
            ) by {
                if j < inner.len() {
                    assert(result[i] == inner[i] && result[j] == inner[j]);
                } else {
                    let day = inner[i];
                    assert(result[i] == day && result[j] == last);
                    assert(inner.contains(day));
                    assert(day == new_day || rest.contains(day));
                    if day != new_day {
                        let k = choose|k: int| 0 <= k < rest.len() && rest[k] == day;
                        assert(comes_before(rest[k].0, last.0));
                    }
                }
            }
            assert forall|day: (Seq<char>, Seq<char>)| result.contains(day) <==> (day == new_day
                || (days.contains(day) && day.0 != date)) by {
                assert(inner.contains(day) <==> (day == new_day || (rest.contains(day) && day.0
                    != date)));
                assert(days.contains(day) <==> (rest.contains(day) || day == last));
                if result.contains(day) {
                    let k = choose|k: int| 0 <= k < result.len() && result[k] == day;
                    if k < inner.len() {
                        assert(inner[k] == day);
                        assert(inner.contains(day));
                    } else {
                        assert(day == last);
                    }
                }
                if inner.contains(day) {
                    let k = choose|k: int| 0 <= k < inner.len() && inner[k] == day;
                    assert(result[k] == day);
                }
                if day == last {
                    assert(result[inner.len() as int] == day);
                }
            }
        }
    }
}

/// What a selection of the most recent days holds: as many closing prices as
/// were asked for, or all where the series has fewer; the price of the last
/// day first, then that of the day before it, and so on, so that the dates
/// they belong to fall strictly.
pub proof fn lemma_recent_latest_first(days: Seq<(Seq<char>, Seq<char>)>, ndays: nat)
    requires
        ascending(days),
    ensures
        ndays <= days.len() ==> recent_closes(days, ndays).len() == ndays,
        ndays > days.len() ==> recent_closes(days, ndays).len() == days.len(),
        forall|j: int|
            0 <= j < recent_closes(days, ndays).len() ==> #[trigger] recent_closes(days, ndays)[j]
                == days[days.len() - 1 - j].1,
        forall|j: int, k: int|
            #![trigger days[days.len() - 1 - j], days[days.len() - 1 - k]]
            0 <= j < k < recent_closes(days, ndays).len() ==> comes_before(
                days[days.len() - 1 - k].0,
                days[days.len() - 1 - j].0,
            ),
{
}

/// One day of a series: its date and its closing price, both as received.
struct Quote {
    date: String,
    close: String,
}

/// The days that a run of quotes stands for.
spec fn days_of(quotes: Seq<Quote>) -> Seq<(Seq<char>, Seq<char>)> {
    Seq::new(quotes.len(), |i: int| (quotes[i].date@, quotes[i].close@))
}

/// A daily time series: closing prices by date, the dates ascending.
///
/// A date occurs once. The closing price is kept as the text that was
/// received, so that nothing of it is lost before it is read as a decimal.
pub struct TimeSeries {
    quotes: Vec<Quote>,
}

impl View for TimeSeries {
    type V = Seq<(Seq<char>, Seq<char>)>;

    /// The days of the series, each as its date and its closing price, in
    /// the order of the dates.
    closed spec fn view(&self) -> Seq<(Seq<char>, Seq<char>)> {
        days_of(self.quotes@)
    }
}

impl TimeSeries {
    #[verifier::type_invariant]
    spec fn in_order(&self) -> bool {
        ascending(self@)
    }

    /// The series of no days.
    pub fn new() -> (series: TimeSeries)
        ensures
            series@ == Seq::<(Seq<char>, Seq<char>)>::empty(),
    {
        let series = TimeSeries { quotes: Vec::new() };
        assert(series@ =~= Seq::<(Seq<char>, Seq<char>)>::empty());
        series
    }

    /// The number of days. Whoever reads a series learns here what holds
    /// of every series: its dates ascend.
    pub fn len(&self) -> (n: usize)
        ensures
            n == self@.len(),
            ascending(self@),
    {
        proof {
            use_type_invariant(self);
        }
        self.quotes.len()
    }

    /// The date and the closing price of the day at `index`, counted from
    /// the earliest day.
    pub fn day(&self, index: usize) -> (day: Option<(String, String)>)
        ensures
            match day {
                Some(d) => index < self@.len() && (d.0@, d.1@) == self@[index as int],
                None => index >= self@.len(),
            },
    {
        if index < self.quotes.len() {
            Some((self.quotes[index].date.clone(), self.quotes[index].close.clone()))
        } else {
            None
        }
    }

    /// Sets the closing price of `date` to `close`.
    pub fn insert(&mut self, date: String, close: String)
        ensures
            final(self)@ == with_day(old(self)@, date@, close@),
            ascending(final(self)@),
    {
        proof {
            use_type_invariant(&*self);
            lemma_with_day(self@, date@, close@);
        }
        let ghost days = self@;
        let mut quotes: Vec<Quote> = Vec::new();
        assert(days_of(quotes@) =~= Seq::<(Seq<char>, Seq<char>)>::empty());
        core::mem::swap(&mut self.quotes, &mut quotes);
        let mut pos: usize = quotes.len();
        assert(days.take(pos as int) =~= days && days.skip(pos as int) =~= Seq::empty());
        while pos > 0 && precedes(date.as_str(), quotes[pos - 1].date.as_str())
            invariant
                pos <= days.len(),
                days == days_of(quotes@),
                with_day(days, date@, close@) == with_day(days.take(pos as int), date@, close@)
                    + days.skip(pos as int),
            decreases pos,
        {
            proof {
                let head = days.take(pos as int);
                assert(head.last() == days[pos - 1]);
                lemma_before_asymmetric(date@, head.last().0);
                lemma_before_irreflexive(date@);
                assert(head.drop_last() =~= days.take(pos - 1));
                assert(with_day(head, date@, close@) == with_day(days.take(pos - 1), date@, close@).push(
                    days[pos - 1],
                ));
                assert(with_day(days.take(pos - 1), date@, close@).push(days[pos - 1]) + days.skip(
                    pos as int,
                ) =~= with_day(days.take(pos - 1), date@, close@) + days.skip(pos - 1));
            }
            pos -= 1;
        }
        let ghost head = days.take(pos as int);
        if pos > 0 && quotes[pos - 1].date == date {
            proof {
                assert(head.last() == days[pos - 1]);
                lemma_before_irreflexive(date@);
                assert(with_day(head, date@, close@) == head.drop_last().push((date@, close@)));
            }
            quotes.set(pos - 1, Quote { date, close });
            assert(days_of(quotes@) =~= head.drop_last().push((date@, close@)) + days.skip(
                pos as int,
            ));
        } else {
            proof {
                if pos > 0 {
                    assert(head.last() == days[pos - 1]);
                    lemma_before_total(head.last().0, date@);
                    assert(with_day(head, date@, close@) == head.push((date@, close@)));
                } else {
                    assert(with_day(head, date@, close@) =~= head.push((date@, close@)));
                }
            }
            quotes.insert(pos, Quote { date, close });
            assert(days_of(quotes@) =~= head.push((date@, close@)) + days.skip(pos as int));
        }
        self.quotes = quotes;
    }

    /// The closing prices of the `ndays` most recent days, the latest first.
    ///
    /// Where the series has fewer days than that, all of them are given.
    pub fn recent(&self, ndays: usize) -> (prices: Vec<String>)
        ensures
            prices.deep_view() == recent_closes(self@, ndays as nat),
            prices@.len() == recent_closes(self@, ndays as nat).len(),
    {
        let len = self.quotes.len();
        let count = if ndays <= len {
            ndays
        } else {
            len
        };
        let mut prices: Vec<String> = Vec::new();
        let mut j: usize = 0;
        while j < count
            invariant
                j <= count <= len,
                len == self.quotes@.len(),
                prices@.len() == j,
                forall|k: int| 0 <= k < j ==> (#[trigger] prices@[k])@ == self@[len - 1 - k].1,
            decreases count - j,
        {
            prices.push(self.quotes[len - 1 - j].close.clone());
            j += 1;
        }
        assert(prices.deep_view() =~= recent_closes(self@, ndays as nat));
        prices
    }
}

} // verus!
