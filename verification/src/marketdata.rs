//! Currencies, prices and dated market prices.

use crate::assets::Instrument;
use crate::decimal::DecimalValue;
use vstd::prelude::*;

verus! {

/// A currency, identified by its ISO code.
#[derive(Debug)]
pub struct Currency {
    pub iso_code: String,
    pub name: String,
}

impl Currency {
    pub fn new(iso_code: String, name: String) -> (r: Currency)
        ensures
            r.iso_code == iso_code,
            r.name == name,
    {
        Currency { iso_code, name }
    }

    /// The ISO code as a sequence of characters: the identity of the currency.
    pub open spec fn code(&self) -> Seq<char> {
        self.iso_code@
    }

    /// Whether both are the same currency.
    pub fn same_as(&self, other: &Currency) -> (r: bool)
        ensures
            r == (self.code() == other.code()),
    {
        self.iso_code == other.iso_code
    }
}

/// What a price is to the matching rules: the currency's code and the value
/// in units of 10^-28.
pub struct PriceView {
    pub code: Seq<char>,
    pub units: int,
}

/// An exact decimal value tagged with a currency.
#[derive(Clone, Copy, Debug)]
pub struct Price {
    currency: &'static Currency,
    value: DecimalValue,
}

impl View for Price {
    type V = PriceView;

    open spec fn view(&self) -> PriceView {
        PriceView { code: self.spec_currency().code(), units: self.spec_value().units() }
    }
}

impl Price {
    pub closed spec fn spec_currency(&self) -> Currency {
        *self.currency
    }

    pub closed spec fn spec_value(&self) -> DecimalValue {
        self.value
    }

    pub fn new(currency: &'static Currency, value: DecimalValue) -> (r: Price)
        ensures
            r.spec_currency() == *currency,
            r.spec_value() == value,
            r@ == (PriceView { code: currency.code(), units: value.units() }),
    {
        Price { currency, value }
    }

    pub fn currency(&self) -> (r: &Currency)
        ensures
            *r == self.spec_currency(),
            r.code() == self@.code,
    {
        self.currency
    }

    pub fn value(&self) -> (r: DecimalValue)
        ensures
            r == self.spec_value(),
            r.units() == self@.units,
    {
        self.value
    }

    /// Whether the price is greater than zero.
    pub fn is_positive(&self) -> (r: bool)
        ensures
            r == (self@.units > 0),
    {
        self.value.is_positive()
    }

    /// Whether both prices are in the same currency.
    pub fn same_currency(&self, other: &Price) -> (r: bool)
        ensures
            r == (self@.code == other@.code),
    {
        self.currency.same_as(other.currency)
    }

    /// Compares two prices of one currency: `Some(true)` when `self` is at
    /// most `other`. Prices of different currencies do not compare.
    pub fn at_most(&self, other: &Price) -> (r: Option<bool>)
        ensures
            r is Some <==> self@.code == other@.code,
            r matches Some(b) ==> b == (self@.units <= other@.units),
    {
        if self.currency.same_as(other.currency) {
            Some(self.value.le(&other.value))
        } else {
            None
        }
    }

    /// Whether both prices are the same amount of the same currency.
    pub fn same_price(&self, other: &Price) -> (r: bool)
        ensures
            r == (self@ == other@),
    {
        self.currency.same_as(other.currency) && self.value.same_value(&other.value)
    }
}

/// A day of the calendar.
#[derive(Clone, Copy, Debug, PartialEq, Eq, Structural)]
pub struct CalendarDate {
    pub year: i32,
    pub month: u32,
    pub day: u32,
}

impl CalendarDate {
    /// The month and the day of the month are in the calendar's ranges.
    pub open spec fn in_range(&self) -> bool {
        1 <= self.month <= 12 && 1 <= self.day <= 31
    }

    /// The date, or nothing when the month or the day is out of range.
    pub fn new(year: i32, month: u32, day: u32) -> (r: Option<CalendarDate>)
        ensures
            r is Some <==> 1 <= month <= 12 && 1 <= day <= 31,
            r matches Some(d) ==> d == (CalendarDate { year, month, day }),
    {
        if 1 <= month && month <= 12 && 1 <= day && day <= 31 {
            Some(CalendarDate { year, month, day })
        } else {
            None
        }
    }
}

/// A point in time: seconds and nanoseconds since the Unix epoch, and the
/// local offset from UTC in seconds that it was read with.
#[derive(Clone, Copy, Debug, PartialEq, Eq, Structural)]
pub struct Timestamp {
    pub seconds: i64,
    pub nanos: u32,
    pub offset: i32,
}

/// The price of an instrument on a day, and when it was recorded.
#[derive(Clone, Copy, Debug)]
pub struct MarketDataPrice {
    date: CalendarDate,
    underlying: Instrument,
    price: Price,
    insertion_date: Timestamp,
}

impl MarketDataPrice {
    pub closed spec fn spec_date(&self) -> CalendarDate {
        self.date
    }

    pub closed spec fn spec_underlying(&self) -> Instrument {
        self.underlying
    }

    pub closed spec fn spec_price(&self) -> Price {
        self.price
    }

    pub closed spec fn spec_insertion_date(&self) -> Timestamp {
        self.insertion_date
    }

    /// The record of `price` for `date`, or for `today` when no date is
    /// given, inserted at `now`.
    pub fn recorded(
        date: Option<CalendarDate>,
        underlying: Instrument,
        price: Price,
        today: CalendarDate,
        now: Timestamp,
    ) -> (r: MarketDataPrice)
        ensures
            r.spec_date() == (match date {
                Some(d) => d,
                None => today,
            }),
            r.spec_underlying() == underlying,
            r.spec_price() == price,
            r.spec_insertion_date() == now,
    {
        MarketDataPrice {
            date: match date {
                Some(d) => d,
                None => today,
            },
            underlying,
            price,
            insertion_date: now,
        }
    }

    /// The record of `price` for `date`, inserted now. With no date given it
    /// is for the day that the local clock shows.
    pub fn new(date: Option<CalendarDate>, underlying: Instrument, price: Price) -> (r:
        MarketDataPrice)
        ensures
            date matches Some(d) ==> r.spec_date() == d,
            date is None ==> r.spec_date().in_range(),
            r.spec_underlying() == underlying,
            r.spec_price() == price,
    {
        let today = local_today();
        let now = local_now();
        MarketDataPrice::recorded(date, underlying, price, today, now)
    }

    pub fn date(&self) -> (r: &CalendarDate)
        ensures
            *r == self.spec_date(),
    {
        &self.date
    }

    pub fn underlying(&self) -> (r: &Instrument)
        ensures
            *r == self.spec_underlying(),
    {
        &self.underlying
    }

    pub fn price(&self) -> (r: &Price)
        ensures
            *r == self.spec_price(),
    {
        &self.price
    }

    pub fn insertion_date(&self) -> (r: &Timestamp)
        ensures
            *r == self.spec_insertion_date(),
    {
        &self.insertion_date
    }
}

/// Calls chrono's `Local::today` and reads the year, the month and the day of
/// the result through `Datelike`. Trusted: the month is from 1 to 12 and the
/// day from 1 to 31, as `Datelike` documents. Which day it is depends on the
/// clock and the time zone of the machine.
#[verifier::external_body]
#[allow(deprecated)]
fn local_today() -> (r: CalendarDate)
    ensures
        r.in_range(),
{
    let today = chrono::Local::today();
    CalendarDate {
        year: chrono::Datelike::year(&today),
        month: chrono::Datelike::month(&today),
        day: chrono::Datelike::day(&today),
    }
}

/// Calls chrono's `Local::now` and reads the seconds, the nanoseconds and the
/// offset of the result. Nothing is claimed of them: they depend on the clock
/// and the time zone of the machine.
#[verifier::external_body]
fn local_now() -> (r: Timestamp) {
    let now = chrono::Local::now();
    Timestamp {
        seconds: now.timestamp(),
        nanos: now.timestamp_subsec_nanos(),
        offset: now.offset().local_minus_utc(),
    }
}

} // verus!
