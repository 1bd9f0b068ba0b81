//! Application configuration, as plain values.
//!
//! The configuration file is TOML; reading it is the program's job. These are
//! the values the library works with once it has been read.

use vstd::prelude::*;

use crate::text::{nat_text, zero_padded};

verus! {

/// Application configuration.
#[derive(Clone, Debug)]
pub struct Config {
    pub app: AppConfig,
    pub database: DatabaseConfig,
    /// Configuration for the "production" http server.
    pub server: ServerConfig,
    /// Additional servers to spawn for local development.
    pub demo_servers: Vec<ServerConfig>,
    pub markets: Vec<MarketConfig>,
}

#[derive(Clone, Debug)]
pub struct AppConfig {
    /// The email address of the user who can administer markets.
    pub admin_email: String,
    /// The suffix to remove from user emails when displaying them.
    pub email_suffix: String,
    /// The opening balance of new users, in 10^-6 points.
    pub opening_balance_micros: i64,
}

#[derive(Clone, Debug)]
pub struct ServerConfig {
    /// The interface address and port to listen on, e.g. `127.0.0.1:5591`.
    pub listen: String,
    /// The url prefix, in case the app is not hosted at the root of a domain.
    ///
    /// E.g. `/predictomatic`. If the prefix is not empty, it must start with
    /// a slash. The prefix must not end with a slash.
    pub prefix: String,
    /// Use this as fallback email when the `X-Email` header is not set.
    ///
    /// Only development builds honour it.
    pub unsafe_user_email: Option<String>,
}

#[derive(Clone, Debug)]
pub struct DatabaseConfig {
    /// Path to the database file.
    pub path: String,
}

#[derive(Copy, Clone, Debug, PartialEq, Eq, Structural)]
pub enum MarketKind {
    Binary,
    Date,
}

impl MarketKind {
    /// The name of the kind in the configuration file: `binary` or `date`.
    pub open spec fn name(self) -> Seq<char> {
        match self {
            MarketKind::Binary => "binary"@,
            MarketKind::Date => "date"@,
        }
    }

    /// The name of the kind in the configuration file: `binary` or `date`.
    pub fn to_string(&self) -> (r: String)
        ensures
            r@ == self.name(),
    {
        match self {
            MarketKind::Binary => "binary".to_owned(),
            MarketKind::Date => "date".to_owned(),
        }
    }
}

#[derive(Clone, Debug)]
pub struct MarketConfig {
    pub slug: String,
    pub title: String,
    pub description: String,
    pub kind: MarketKind,
    pub outcomes: Vec<String>,
    /// The amount to bootstrap the AMM with, in 10^-6 points.
    ///
    /// This is paid for by minting new points from the system account.
    pub fund_micros: i64,
    /// Date at which the market opens.
    ///
    /// Should be a TOML datetime with `Z` offset, e.g. `2026-02-19T14:12:00Z`.
    /// When absent, the market opens at creation.
    pub opens_at: Option<Datetime>,
    /// Date at which the market closes, a TOML datetime like `opens_at`.
    ///
    /// This prevents trades in a market whose resolution is known before
    /// the admin can resolve it. When absent, the market has no close date.
    pub closes_at: Option<Datetime>,
}

/// A TOML date.
#[derive(Copy, Clone, Debug)]
pub struct Date {
    pub year: u16,
    pub month: u8,
    pub day: u8,
}

/// A TOML time of day; the seconds and the fraction are optional.
#[derive(Copy, Clone, Debug)]
pub struct Time {
    pub hour: u8,
    pub minute: u8,
    pub second: Option<u8>,
    pub nanosecond: Option<u32>,
}

/// The offset of a TOML datetime from UTC.
#[derive(Copy, Clone, Debug)]
pub enum Offset {
    Z,
    Custom { minutes: i16 },
}

/// A TOML datetime: a date, a time, or both, with an optional offset.
#[derive(Copy, Clone, Debug)]
pub struct Datetime {
    pub date: Option<Date>,
    pub time: Option<Time>,
    pub offset: Option<Offset>,
}

/// A number with at least two digits.
pub open spec fn two_digits(n: nat) -> Seq<char> {
    zero_padded(nat_text(n), 2)
}

/// `s` without the copies of `c` at its end.
pub open spec fn trimmed_end(s: Seq<char>, c: char) -> Seq<char>
    decreases s.len(),
{
    if s.len() > 0 && s.last() == c {
        trimmed_end(s.drop_last(), c)
    } else {
        s
    }
}

/// A fraction of a second in nanoseconds, as the digits after the point:
/// nine digits without the trailing zeros, and at least one digit.
pub open spec fn fraction_text(nanos: nat) -> Seq<char> {
    let t = trimmed_end(zero_padded(nat_text(nanos), 9), '0');
    if t.len() == 0 {
        seq!['0']
    } else {
        t
    }
}

/// `YYYY-MM-DD`.
pub open spec fn date_text(d: Date) -> Seq<char> {
    zero_padded(nat_text(d.year as nat), 4) + seq!['-'] + two_digits(d.month as nat) + seq!['-'] + two_digits(
        d.day as nat,
    )
}

/// `HH:MM`, then `:SS` when there are seconds (or a fraction), then `.` and
/// the fraction when there is one.
pub open spec fn time_text(t: Time) -> Seq<char> {
    let seconds = match t.second {
        Some(s) => seq![':'] + two_digits(s as nat),
        None => if t.nanosecond is Some {
            seq![':', '0', '0']
        } else {
            Seq::empty()
        },
    };
    let fraction = match t.nanosecond {
        Some(n) => seq!['.'] + fraction_text(n as nat),
        None => Seq::empty(),
    };
    two_digits(t.hour as nat) + seq![':'] + two_digits(t.minute as nat) + seconds + fraction
}

/// Whether a datetime has a date, a time, and the `Z` offset.
pub open spec fn is_utc_datetime(dt: Datetime) -> bool {
    &&& dt.date is Some
    &&& dt.time is Some
    &&& dt.offset matches Some(Offset::Z)
}

/// The text of a UTC datetime: `YYYY-MM-DDTHH:MM:SSZ`, as in `time_text`.
pub open spec fn utc_datetime_text(dt: Datetime) -> Seq<char> {
    date_text(dt.date->0) + seq!['T'] + time_text(dt.time->0) + seq!['Z']
}

/// The text that the `toml` crate's `Display` of `Datetime` writes for a
/// datetime with a date, a time and the `Z` offset: the date, `T`, the time
/// and `Z`, as `utc_datetime_text` says.
#[verifier::external_body]
fn datetime_text(dt: &Datetime) -> (r: String)
    requires
        is_utc_datetime(*dt),
    ensures
        r@ == utc_datetime_text(*dt),
{
    let d = dt.date.unwrap();
    let t = dt.time.unwrap();
    let value = toml::value::Datetime {
        date: Some(toml::value::Date { year: d.year, month: d.month, day: d.day }),
        time: Some(toml::value::Time { hour: t.hour, minute: t.minute, second: t.second, nanosecond: t.nanosecond }),
        offset: Some(toml::value::Offset::Z),
    };
    value.to_string()
}

/// Format a TOML datetime as the ISO-8601 UTC text that markets are stored with.
///
/// Only datetimes with a date, a time and the `Z` offset are supported.
pub fn as_iso8601(dt: &Datetime) -> (r: String)
    requires
        is_utc_datetime(*dt),
    ensures
        r@ == utc_datetime_text(*dt),
{
    datetime_text(dt)
}

/// Whether an optional datetime is absent or supported by `as_iso8601`.
pub open spec fn optional_utc(dt: Option<Datetime>) -> bool {
    dt matches Some(d) ==> is_utc_datetime(d)
}

impl MarketConfig {
    pub fn opens_at_iso8601(&self) -> (r: Option<String>)
        requires
            optional_utc(self.opens_at),
        ensures
            match self.opens_at {
                Some(d) => r matches Some(t) && t@ == utc_datetime_text(d),
                None => r is None,
            },
    {
        match &self.opens_at {
            Some(d) => Some(as_iso8601(d)),
            None => None,
        }
    }

    pub fn closes_at_iso8601(&self) -> (r: Option<String>)
        requires
            optional_utc(self.closes_at),
        ensures
            match self.closes_at {
                Some(d) => r matches Some(t) && t@ == utc_datetime_text(d),
                None => r is None,
            },
    {
        match &self.closes_at {
            Some(d) => Some(as_iso8601(d)),
            None => None,
        }
    }
}


/// `a < b`, or `a == b` and then `rest`: one step of a lexicographic order.
pub open spec fn lt_then(a: int, b: int, rest: bool) -> bool {
    a < b || (a == b && rest)
}

/// The fields of a datetime in the order in which they count: year, month,
/// day, hour, minute, second, nanosecond. Absent parts count as zero; the
/// configuration gives datetimes in UTC, so the offset is not looked at.
pub open spec fn instant_fields(dt: Datetime) -> (int, int, int, int, int, int, int) {
    let (year, month, day) = match dt.date {
        Some(d) => (d.year as int, d.month as int, d.day as int),
        None => (0, 0, 0),
    };
    let (hour, minute, second, nanosecond) = match dt.time {
        Some(t) => (
            t.hour as int,
            t.minute as int,
            match t.second {
                Some(s) => s as int,
                None => 0,
            },
            match t.nanosecond {
                Some(n) => n as int,
                None => 0,
            },
        ),
        None => (0, 0, 0, 0),
    };
    (year, month, day, hour, minute, second, nanosecond)
}

/// Whether the datetime `a` comes before `b`.
pub open spec fn earlier(a: Datetime, b: Datetime) -> bool {
    let x = instant_fields(a);
    let y = instant_fields(b);
    lt_then(x.0, y.0, lt_then(x.1, y.1, lt_then(x.2, y.2, lt_then(x.3, y.3, lt_then(x.4, y.4, lt_then(
        x.5,
        y.5,
        lt_then(x.6, y.6, false),
    ))))))
}

/// Whether the fields of a datetime lie in their calendar ranges: month at
/// most 12, day at most 31, hour at most 23, minute at most 59, second at
/// most 60 (a leap second), and nanosecond below a billion.
pub open spec fn fields_in_range(dt: Datetime) -> bool {
    &&& (dt.date matches Some(d) ==> d.month <= 12 && d.day <= 31)
    &&& (dt.time matches Some(t) ==> {
        &&& t.hour <= 23
        &&& t.minute <= 59
        &&& (t.second matches Some(s) ==> s <= 60)
        &&& (t.nanosecond matches Some(n) ==> n < 1_000_000_000)
    })
}

/// The moment a datetime stands for, as a count of nanoseconds on a clock
/// whose every year has 13 months of 32 days, every minute 61 seconds: a
/// later datetime has a larger count. Absent parts count as zero.
pub open spec fn moment(dt: Datetime) -> int {
    let (year, month, day): (int, int, int) = match dt.date {
        Some(d) => (d.year as int, d.month as int, d.day as int),
        None => (0, 0, 0),
    };
    let (hour, minute): (int, int) = match dt.time {
        Some(t) => (t.hour as int, t.minute as int),
        None => (0, 0),
    };
    let second: int = match dt.time {
        Some(t) => match t.second {
            Some(s) => s as int,
            None => 0,
        },
        None => 0,
    };
    let nanosecond: int = match dt.time {
        Some(t) => match t.nanosecond {
            Some(n) => n as int,
            None => 0,
        },
        None => 0,
    };
    ((((((year * 13 + month) * 32 + day) * 24 + hour) * 60 + minute) * 61 + second) * 1_000_000_000) + nanosecond
}

/// The order of datetimes is the order of time: of two datetimes, the one
/// that stands for the earlier moment comes first. So a datetime with an
/// earlier minute in the same hour is earlier, whatever its seconds.
pub proof fn law_earlier_is_chronological(a: Datetime, b: Datetime)
    requires
        fields_in_range(a),
        fields_in_range(b),
    ensures
        earlier(a, b) <==> moment(a) < moment(b),
{
}

/// Whether a market with these dates takes trades at `now`: it has opened
/// (`opens_at <= now`) and not yet closed (`now < closes_at`).
pub open spec fn trading_open(opens_at: Option<Datetime>, closes_at: Option<Datetime>, now: Datetime) -> bool {
    &&& (opens_at matches Some(o) ==> !earlier(now, o))
    &&& (closes_at matches Some(c) ==> earlier(now, c))
}

fn step_before(a: u32, b: u32, rest: bool) -> (r: bool)
    ensures
        r == lt_then(a as int, b as int, rest),
{
    a < b || (a == b && rest)
}

fn fields_of(dt: &Datetime) -> (r: (u32, u32, u32, u32, u32, u32, u32))
    ensures
        (r.0 as int, r.1 as int, r.2 as int, r.3 as int, r.4 as int, r.5 as int, r.6 as int) == instant_fields(*dt),
{
    let (year, month, day): (u32, u32, u32) = match dt.date {
        Some(d) => (d.year as u32, d.month as u32, d.day as u32),
        None => (0, 0, 0),
    };
    let (hour, minute, second, nanosecond): (u32, u32, u32, u32) = match dt.time {
        Some(t) => (
            t.hour as u32,
            t.minute as u32,
            match t.second {
                Some(s) => s as u32,
                None => 0,
            },
            match t.nanosecond {
                Some(n) => n,
                None => 0,
            },
        ),
        None => (0, 0, 0, 0),
    };
    (year, month, day, hour, minute, second, nanosecond)
}

/// Whether the datetime `a` comes before `b`; see `earlier`.
pub fn is_earlier(a: &Datetime, b: &Datetime) -> (r: bool)
    ensures
        r == earlier(*a, *b),
        fields_in_range(*a) && fields_in_range(*b) ==> (r <==> moment(*a) < moment(*b)),
{
    proof {
        if fields_in_range(*a) && fields_in_range(*b) {
            law_earlier_is_chronological(*a, *b);
        }
    }
    let x = fields_of(a);
    let y = fields_of(b);
    let r6 = step_before(x.6, y.6, false);
    let r5 = step_before(x.5, y.5, r6);
    let r4 = step_before(x.4, y.4, r5);
    let r3 = step_before(x.3, y.3, r4);
    let r2 = step_before(x.2, y.2, r3);
    let r1 = step_before(x.1, y.1, r2);
    step_before(x.0, y.0, r1)
}

/// Whether a market with these dates takes trades at `now`; see `trading_open`.
pub fn is_trading_open(opens_at: Option<Datetime>, closes_at: Option<Datetime>, now: &Datetime) -> (r: bool)
    ensures
        r == trading_open(opens_at, closes_at, *now),
{
    let opened = match &opens_at {
        Some(o) => !is_earlier(now, o),
        None => true,
    };
    let not_closed = match &closes_at {
        Some(c) => is_earlier(now, c),
        None => true,
    };
    opened && not_closed
}

} // verus!
