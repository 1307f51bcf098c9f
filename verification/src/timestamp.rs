//! Derivation of an approximate calendar timestamp from a raw count of
//! elapsed seconds since the Unix epoch.
//!
//! The derivation is deliberately approximate: a year is a fixed 365 days, a
//! leap day is subtracted once for every four whole elapsed years, and the
//! month lengths come from a fixed non-leap table. When the leap adjustment
//! exceeds the seconds already elapsed in the current 365-day year, the
//! subtraction wraps around the `u64` range; the resulting day-of-year then
//! lies past 366 and the month is clamped to 12 with the day left as is.

use vstd::prelude::*;

verus! {

pub const SECONDS_PER_MINUTE: u64 = 60;

pub const SECONDS_PER_HOUR: u64 = 3600;

pub const SECONDS_PER_DAY: u64 = 86400;

pub const SECONDS_PER_YEAR: u64 = 365 * 86400;

pub const EPOCH_YEAR: u64 = 1970;

/// An approximate calendar timestamp together with the raw elapsed-seconds
/// value it was derived from. Every derived field is a pure function of
/// `raw`; see [`stamp_of`].
#[derive(PartialEq, Eq, Structural, Clone, Copy, Debug)]
pub struct LogTimeStamp {
    pub hours: u64,
    pub minutes: u64,
    pub seconds: u64,
    pub days: u64,
    pub months: u64,
    pub years: u64,
    pub raw: u64,
}

/// Seconds subtracted from the elapsed part of the current 365-day year as a
/// coarse leap adjustment: one day per four whole elapsed years.
pub open spec fn spec_leap_adjust(x: u64) -> int {
    x as int / (SECONDS_PER_YEAR as int) / 4 * (SECONDS_PER_DAY as int)
}

/// The leap-adjusted seconds elapsed within the current 365-day year, with
/// `u64` wrap-around when the adjustment exceeds the elapsed part.
pub open spec fn spec_adjusted_year_secs(x: u64) -> int {
    let rem = x as int % (SECONDS_PER_YEAR as int);
    let lead = spec_leap_adjust(x);
    if lead <= rem {
        rem - lead
    } else {
        rem - lead + 0x1_0000_0000_0000_0000
    }
}

/// Day of the year, starting at 1. Values past 366 arise only from the
/// wrap-around in [`spec_adjusted_year_secs`].
pub open spec fn spec_day_of_year(x: u64) -> int {
    spec_adjusted_year_secs(x) / (SECONDS_PER_DAY as int) + 1
}

/// The month that day-of-year `d` falls in, under the fixed non-leap table
/// (31, 28, 31, 30, 31, 30, 31, 31, 30, 31, 30, 31); past 366 the month is
/// clamped to 12.
pub open spec fn month_of_yday(d: int) -> u64 {
    if d <= 31 {
        1
    } else if d <= 59 {
        2
    } else if d <= 90 {
        3
    } else if d <= 120 {
        4
    } else if d <= 151 {
        5
    } else if d <= 181 {
        6
    } else if d <= 212 {
        7
    } else if d <= 243 {
        8
    } else if d <= 273 {
        9
    } else if d <= 304 {
        10
    } else if d <= 334 {
        11
    } else {
        12
    }
}

/// The day of the month that day-of-year `d` falls on, under the same fixed
/// table; past 366 the day is left as is.
pub open spec fn day_of_month_of_yday(d: int) -> int {
    if d <= 31 {
        d
    } else if d <= 59 {
        d - 31
    } else if d <= 90 {
        d - 59
    } else if d <= 120 {
        d - 90
    } else if d <= 151 {
        d - 120
    } else if d <= 181 {
        d - 151
    } else if d <= 212 {
        d - 181
    } else if d <= 243 {
        d - 212
    } else if d <= 273 {
        d - 243
    } else if d <= 304 {
        d - 273
    } else if d <= 334 {
        d - 304
    } else if d <= 366 {
        d - 334
    } else {
        d
    }
}

/// The timestamp derived from `x` elapsed seconds: the unique well-formed
/// timestamp with raw value `x`.
pub open spec fn stamp_of(x: u64) -> LogTimeStamp {
    LogTimeStamp {
        hours: ((x as int % (SECONDS_PER_DAY as int)) / (SECONDS_PER_HOUR as int)) as u64,
        minutes: ((x as int % (SECONDS_PER_HOUR as int)) / (SECONDS_PER_MINUTE as int)) as u64,
        seconds: (x as int % (SECONDS_PER_MINUTE as int)) as u64,
        days: day_of_month_of_yday(spec_day_of_year(x)) as u64,
        months: month_of_yday(spec_day_of_year(x)),
        years: (EPOCH_YEAR as int + x as int / (SECONDS_PER_YEAR as int)) as u64,
        raw: x,
    }
}

impl LogTimeStamp {
    /// A timestamp is well formed when its derived fields agree with its raw
    /// elapsed-seconds value.
    pub open spec fn wf(&self) -> bool {
        *self == stamp_of(self.raw)
    }

    /// Derives the timestamp for `x` elapsed seconds since the epoch.
    pub fn from_secs(x: u64) -> (r: LogTimeStamp)
        ensures
            r == stamp_of(x),
            r.wf(),
    {
        let years_elapsed: u64 = x / SECONDS_PER_YEAR;
        let quads: u64 = years_elapsed / 4;
        proof {
            assert(years_elapsed <= u64::MAX / SECONDS_PER_YEAR) by (nonlinear_arith)
                requires
                    years_elapsed == x / SECONDS_PER_YEAR,
                    x <= u64::MAX,
            ;
            assert(quads * SECONDS_PER_DAY <= u64::MAX) by (nonlinear_arith)
                requires
                    quads <= u64::MAX / SECONDS_PER_YEAR / 4,
            ;
        }
        let lead: u64 = quads * SECONDS_PER_DAY;
        let rem: u64 = x % SECONDS_PER_YEAR;
        let adjusted: u64 = if lead <= rem {
            rem - lead
        } else {
            u64::MAX - (lead - rem) + 1
        };
        let mut days: u64 = adjusted / SECONDS_PER_DAY + 1;
        let months: u64;
        if days <= 31 {
            months = 1;
        } else if days <= 59 {
            months = 2;
            days = days - 31;
        } else if days <= 90 {
            months = 3;
            days = days - 59;
        } else if days <= 120 {
            months = 4;
            days = days - 90;
        } else if days <= 151 {
            months = 5;
            days = days - 120;
        } else if days <= 181 {
            months = 6;
            days = days - 151;
        } else if days <= 212 {
            months = 7;
            days = days - 181;
        } else if days <= 243 {
            months = 8;
            days = days - 212;
        } else if days <= 273 {
            months = 9;
            days = days - 243;
        } else if days <= 304 {
            months = 10;
            days = days - 273;
        } else if days <= 334 {
            months = 11;
            days = days - 304;
        } else if days <= 366 {
            months = 12;
            days = days - 334;
        } else {
            months = 12;
        }
        LogTimeStamp {
            hours: (x % SECONDS_PER_DAY) / SECONDS_PER_HOUR,
            minutes: (x % SECONDS_PER_HOUR) / SECONDS_PER_MINUTE,
            seconds: x % SECONDS_PER_MINUTE,
            days,
            months,
            years: EPOCH_YEAR + x / SECONDS_PER_YEAR,
            raw: x,
        }
    }
}

/// The character for the decimal digit `d`.
pub open spec fn digit_char(d: nat) -> char {
    if d == 0 {
        '0'
    } else if d == 1 {
        '1'
    } else if d == 2 {
        '2'
    } else if d == 3 {
        '3'
    } else if d == 4 {
        '4'
    } else if d == 5 {
        '5'
    } else if d == 6 {
        '6'
    } else if d == 7 {
        '7'
    } else if d == 8 {
        '8'
    } else {
        '9'
    }
}

/// The decimal rendering of `n`, without leading zeros (`0` renders as "0").
pub open spec fn spec_digits(n: nat) -> Seq<char>
    decreases n,
{
    if n < 10 {
        seq![digit_char(n)]
    } else {
        spec_digits(n / 10).push(digit_char(n % 10))
    }
}

/// The canonical rendering of a timestamp: day, month and year separated by
/// periods, then " - ", then hours, minutes and seconds separated by colons,
/// each field in decimal without zero padding.
pub open spec fn spec_render(ts: LogTimeStamp) -> Seq<char> {
    spec_digits(ts.days as nat) + seq!['.'] + spec_digits(ts.months as nat) + seq!['.']
        + spec_digits(ts.years as nat) + seq![' ', '-', ' '] + spec_digits(ts.hours as nat)
        + seq![':'] + spec_digits(ts.minutes as nat) + seq![':'] + spec_digits(ts.seconds as nat)
}

fn digit_str(d: u64) -> (r: &'static str)
    requires
        d < 10,
    ensures
        r@ == seq![digit_char(d as nat)],
{
    let r = if d == 0 {
        "0"
    } else if d == 1 {
        "1"
    } else if d == 2 {
        "2"
    } else if d == 3 {
        "3"
    } else if d == 4 {
        "4"
    } else if d == 5 {
        "5"
    } else if d == 6 {
        "6"
    } else if d == 7 {
        "7"
    } else if d == 8 {
        "8"
    } else {
        "9"
    };
    proof {
        reveal_strlit("0");
        reveal_strlit("1");
        reveal_strlit("2");
        reveal_strlit("3");
        reveal_strlit("4");
        reveal_strlit("5");
        reveal_strlit("6");
        reveal_strlit("7");
        reveal_strlit("8");
        reveal_strlit("9");
        assert(r@ =~= seq![digit_char(d as nat)]);
    }
    r
}

fn u64_to_string(n: u64) -> (s: String)
    ensures
        s@ == spec_digits(n as nat),
    decreases n,
{
    if n < 10 {
        let mut s = String::new();
        s.append(digit_str(n));
        proof {
            assert(s@ =~= seq![digit_char(n as nat)]);
        }
        s
    } else {
        let mut s = u64_to_string(n / 10);
        s.append(digit_str(n % 10));
        s
    }
}

impl LogTimeStamp {
    /// Renders the timestamp as `D.M.Y - H:M:S` without zero padding.
    pub fn render(&self) -> (s: String)
        ensures
            s@ == spec_render(*self),
    {
        let mut s = u64_to_string(self.days);
        s.append(".");
        let months = u64_to_string(self.months);
        s.append(months.as_str());
        s.append(".");
        let years = u64_to_string(self.years);
        s.append(years.as_str());
        s.append(" - ");
        let hours = u64_to_string(self.hours);
        s.append(hours.as_str());
        s.append(":");
        let minutes = u64_to_string(self.minutes);
        s.append(minutes.as_str());
        s.append(":");
        let seconds = u64_to_string(self.seconds);
        s.append(seconds.as_str());
        proof {
            reveal_strlit(".");
            reveal_strlit(" - ");
            reveal_strlit(":");
            assert(s@ =~= spec_render(*self));
        }
        s
    }
}

/// Relies on `std::time::SystemTime`: `now()` followed by
/// `duration_since(UNIX_EPOCH)` and `Duration::as_secs` yields the whole
/// seconds elapsed since 1970-01-01T00:00:00Z. A clock reading before the
/// epoch is treated as fatal, matching the component's error model.
#[verifier::external_body]
fn clock_seconds() -> u64 {
    std::time::SystemTime::now()
        .duration_since(std::time::SystemTime::UNIX_EPOCH)
        .unwrap()
        .as_secs()
}

/// Reads the wall clock and derives the timestamp for the current moment.
pub fn get_current_time() -> (r: LogTimeStamp)
    ensures
        r.wf(),
{
    let x = clock_seconds();
    LogTimeStamp::from_secs(x)
}

/// Two well-formed timestamps with the same raw elapsed-seconds value agree
/// on every derived field: derivation is a pure function of the raw value.
pub proof fn lemma_timestamp_deterministic(a: LogTimeStamp, b: LogTimeStamp)
    requires
        a.wf(),
        b.wf(),
        a.raw == b.raw,
    ensures
        a == b,
{
}

/// Every character of `s` is a decimal digit.
pub open spec fn all_digits(s: Seq<char>) -> bool {
    forall|i: int| 0 <= i < s.len() ==> '0' <= #[trigger] s[i] <= '9'
}

/// A non-empty run of decimal digits with no leading zero (a single "0" is
/// allowed).
pub open spec fn digit_group(s: Seq<char>) -> bool {
    &&& s.len() >= 1
    &&& all_digits(s)
    &&& s.len() > 1 ==> s[0] != '0'
}

/// The rendered shape: six digit groups joined by the literal separators
/// `.`, `.`, ` - `, `:`, `:`.
pub open spec fn rendered_shape(s: Seq<char>) -> bool {
    exists|d: Seq<char>, mo: Seq<char>, y: Seq<char>, h: Seq<char>, mi: Seq<char>, se: Seq<char>|
        {
            &&& digit_group(d)
            &&& digit_group(mo)
            &&& digit_group(y)
            &&& digit_group(h)
            &&& digit_group(mi)
            &&& digit_group(se)
            &&& s == d + seq!['.'] + mo + seq!['.'] + y + seq![' ', '-', ' '] + h + seq![':'] + mi
                + seq![':'] + se
        }
}

/// The decimal rendering of any value is a digit group, and starts with a
/// nonzero digit unless the value is zero.
pub proof fn lemma_digits_group(n: nat)
    ensures
        digit_group(spec_digits(n)),
        n > 0 ==> spec_digits(n)[0] != '0',
        n == 0 ==> spec_digits(n) == seq!['0'],
    decreases n,
{
    if n < 10 {
        assert(spec_digits(n) == seq![digit_char(n)]);
    } else {
        lemma_digits_group(n / 10);
    }
}

/// Whatever its field values, a rendered timestamp matches the literal
/// pattern `D+.M+.Y+ - H+:M+:S+` with no leading zeros in any group.
pub proof fn lemma_render_shape(ts: LogTimeStamp)
    ensures
        rendered_shape(spec_render(ts)),
{
    lemma_digits_group(ts.days as nat);
    lemma_digits_group(ts.months as nat);
    lemma_digits_group(ts.years as nat);
    lemma_digits_group(ts.hours as nat);
    lemma_digits_group(ts.minutes as nat);
    lemma_digits_group(ts.seconds as nat);
    let d = spec_digits(ts.days as nat);
    let mo = spec_digits(ts.months as nat);
    let y = spec_digits(ts.years as nat);
    let h = spec_digits(ts.hours as nat);
    let mi = spec_digits(ts.minutes as nat);
    let se = spec_digits(ts.seconds as nat);
    assert(spec_render(ts) == d + seq!['.'] + mo + seq!['.'] + y + seq![' ', '-', ' '] + h
        + seq![':'] + mi + seq![':'] + se);
}

/// At each boundary of the fixed month-length table, the day-of-year maps to
/// the next month with the day-of-month starting over at 1.
pub proof fn lemma_month_boundaries(x: u64)
    ensures
        spec_day_of_year(x) == 31 ==> stamp_of(x).months == 1 && stamp_of(x).days == 31,
        spec_day_of_year(x) == 32 ==> stamp_of(x).months == 2 && stamp_of(x).days == 1,
        spec_day_of_year(x) == 59 ==> stamp_of(x).months == 2 && stamp_of(x).days == 28,
        spec_day_of_year(x) == 60 ==> stamp_of(x).months == 3 && stamp_of(x).days == 1,
        spec_day_of_year(x) == 90 ==> stamp_of(x).months == 3 && stamp_of(x).days == 31,
        spec_day_of_year(x) == 91 ==> stamp_of(x).months == 4 && stamp_of(x).days == 1,
        spec_day_of_year(x) == 120 ==> stamp_of(x).months == 4 && stamp_of(x).days == 30,
        spec_day_of_year(x) == 121 ==> stamp_of(x).months == 5 && stamp_of(x).days == 1,
        spec_day_of_year(x) == 151 ==> stamp_of(x).months == 5 && stamp_of(x).days == 31,
        spec_day_of_year(x) == 152 ==> stamp_of(x).months == 6 && stamp_of(x).days == 1,
        spec_day_of_year(x) == 181 ==> stamp_of(x).months == 6 && stamp_of(x).days == 30,
        spec_day_of_year(x) == 182 ==> stamp_of(x).months == 7 && stamp_of(x).days == 1,
        spec_day_of_year(x) == 212 ==> stamp_of(x).months == 7 && stamp_of(x).days == 31,
        spec_day_of_year(x) == 213 ==> stamp_of(x).months == 8 && stamp_of(x).days == 1,
        spec_day_of_year(x) == 243 ==> stamp_of(x).months == 8 && stamp_of(x).days == 31,
        spec_day_of_year(x) == 244 ==> stamp_of(x).months == 9 && stamp_of(x).days == 1,
        spec_day_of_year(x) == 273 ==> stamp_of(x).months == 9 && stamp_of(x).days == 30,
        spec_day_of_year(x) == 274 ==> stamp_of(x).months == 10 && stamp_of(x).days == 1,
        spec_day_of_year(x) == 304 ==> stamp_of(x).months == 10 && stamp_of(x).days == 31,
        spec_day_of_year(x) == 305 ==> stamp_of(x).months == 11 && stamp_of(x).days == 1,
        spec_day_of_year(x) == 334 ==> stamp_of(x).months == 11 && stamp_of(x).days == 30,
        spec_day_of_year(x) == 335 ==> stamp_of(x).months == 12 && stamp_of(x).days == 1,
{
}



/// Distinct decimal digits render as distinct characters.
proof fn lemma_digit_char_injective(d1: nat, d2: nat)
    requires
        d1 < 10,
        d2 < 10,
        digit_char(d1) == digit_char(d2),
    ensures
        d1 == d2,
{
}

/// A decimal rendering has one character exactly for values under ten.
proof fn lemma_digits_len(n: nat)
    ensures
        spec_digits(n).len() >= 1,
        n < 10 <==> spec_digits(n).len() == 1,
    decreases n,
{
    if n >= 10 {
        lemma_digits_len(n / 10);
    }
}

/// Decimal rendering is injective: equal digit strings come from equal
/// values.
pub proof fn lemma_digits_injective(n: nat, m: nat)
    requires
        spec_digits(n) == spec_digits(m),
    ensures
        n == m,
    decreases n,
{
    lemma_digits_len(n);
    lemma_digits_len(m);
    if n < 10 && m < 10 {
        assert(spec_digits(n)[0] == digit_char(n));
        assert(spec_digits(m)[0] == digit_char(m));
        lemma_digit_char_injective(n, m);
    } else if n >= 10 && m >= 10 {
        let sn = spec_digits(n / 10);
        let sm = spec_digits(m / 10);
        assert(spec_digits(n).last() == digit_char(n % 10));
        assert(spec_digits(m).last() == digit_char(m % 10));
        lemma_digit_char_injective(n % 10, m % 10);
        assert(sn =~= spec_digits(n).drop_last());
        assert(sm =~= spec_digits(m).drop_last());
        lemma_digits_injective(n / 10, m / 10);
    }
}

/// A digit run followed by a non-digit separator parses uniquely: equal
/// concatenations split into equal parts.
proof fn lemma_digit_sep_split(a1: Seq<char>, b1: Seq<char>, a2: Seq<char>, b2: Seq<char>, sep: char)
    requires
        all_digits(a1),
        all_digits(a2),
        !('0' <= sep <= '9'),
        a1 + seq![sep] + b1 == a2 + seq![sep] + b2,
    ensures
        a1 == a2,
        b1 == b2,
{
    let s1 = a1 + seq![sep] + b1;
    let s2 = a2 + seq![sep] + b2;
    if a1.len() < a2.len() {
        assert(s1[a1.len() as int] == sep);
        assert(s2[a1.len() as int] == a2[a1.len() as int]);
        assert(false);
    } else if a2.len() < a1.len() {
        assert(s2[a2.len() as int] == sep);
        assert(s1[a2.len() as int] == a1[a2.len() as int]);
        assert(false);
    } else {
        assert forall|i: int| 0 <= i < a1.len() implies a1[i] == a2[i] by {
            assert(s1[i] == a1[i]);
            assert(s2[i] == a2[i]);
        }
        assert(a1 =~= a2);
        assert(s1.len() == a1.len() + 1 + b1.len());
        assert(s2.len() == a2.len() + 1 + b2.len());
        assert(b1.len() == b2.len());
        assert forall|i: int| 0 <= i < b1.len() implies b1[i] == b2[i] by {
            assert(s1[a1.len() + 1 + i] == b1[i]);
            assert(s2[a2.len() + 1 + i] == b2[i]);
        }
        assert(b1 =~= b2);
    }
}

/// The rendering of the time-of-day half is injective in hours, minutes and
/// seconds.
proof fn lemma_time_render_injective(a: LogTimeStamp, b: LogTimeStamp)
    requires
        spec_digits(a.hours as nat) + seq![':'] + (spec_digits(a.minutes as nat) + seq![':']
            + spec_digits(a.seconds as nat)) == spec_digits(b.hours as nat) + seq![':'] + (
        spec_digits(b.minutes as nat) + seq![':'] + spec_digits(b.seconds as nat)),
    ensures
        a.hours == b.hours,
        a.minutes == b.minutes,
        a.seconds == b.seconds,
{
    lemma_digits_group(a.hours as nat);
    lemma_digits_group(b.hours as nat);
    lemma_digits_group(a.minutes as nat);
    lemma_digits_group(b.minutes as nat);
    lemma_digit_sep_split(
        spec_digits(a.hours as nat),
        spec_digits(a.minutes as nat) + seq![':'] + spec_digits(a.seconds as nat),
        spec_digits(b.hours as nat),
        spec_digits(b.minutes as nat) + seq![':'] + spec_digits(b.seconds as nat),
        ':',
    );
    lemma_digits_injective(a.hours as nat, b.hours as nat);
    lemma_digit_sep_split(
        spec_digits(a.minutes as nat),
        spec_digits(a.seconds as nat),
        spec_digits(b.minutes as nat),
        spec_digits(b.seconds as nat),
        ':',
    );
    lemma_digits_injective(a.minutes as nat, b.minutes as nat);
    lemma_digits_injective(a.seconds as nat, b.seconds as nat);
}

/// The rendering, regrouped so that each separator splits off one field.
spec fn render_regrouped(t: LogTimeStamp) -> Seq<char> {
    spec_digits(t.days as nat) + seq!['.'] + (spec_digits(t.months as nat) + seq!['.'] + (
    spec_digits(t.years as nat) + seq![' '] + (seq!['-', ' '] + (spec_digits(t.hours as nat)
        + seq![':'] + (spec_digits(t.minutes as nat) + seq![':'] + spec_digits(
        t.seconds as nat,
    ))))))
}

#[verifier::rlimit(100)]
proof fn lemma_render_regroup(t: LogTimeStamp)
    ensures
        spec_render(t) == render_regrouped(t),
{
    assert(spec_render(t) =~= render_regrouped(t));
}

/// Rendering is injective in the six derived fields: equal renderings mean
/// equal day, month, year, hour, minute and second.
pub proof fn lemma_render_injective(a: LogTimeStamp, b: LogTimeStamp)
    requires
        spec_render(a) == spec_render(b),
    ensures
        a.days == b.days,
        a.months == b.months,
        a.years == b.years,
        a.hours == b.hours,
        a.minutes == b.minutes,
        a.seconds == b.seconds,
{
    lemma_render_regroup(a);
    lemma_render_regroup(b);
    lemma_digits_group(a.days as nat);
    lemma_digits_group(b.days as nat);
    lemma_digits_group(a.months as nat);
    lemma_digits_group(b.months as nat);
    lemma_digits_group(a.years as nat);
    lemma_digits_group(b.years as nat);
    let za = seq!['-', ' '] + (spec_digits(a.hours as nat) + seq![':'] + (spec_digits(
        a.minutes as nat,
    ) + seq![':'] + spec_digits(a.seconds as nat)));
    let zb = seq!['-', ' '] + (spec_digits(b.hours as nat) + seq![':'] + (spec_digits(
        b.minutes as nat,
    ) + seq![':'] + spec_digits(b.seconds as nat)));
    let ya_rest = spec_digits(a.years as nat) + seq![' '] + za;
    let yb_rest = spec_digits(b.years as nat) + seq![' '] + zb;
    let ma_rest = spec_digits(a.months as nat) + seq!['.'] + ya_rest;
    let mb_rest = spec_digits(b.months as nat) + seq!['.'] + yb_rest;
    lemma_digit_sep_split(spec_digits(a.days as nat), ma_rest, spec_digits(b.days as nat), mb_rest, '.');
    lemma_digits_injective(a.days as nat, b.days as nat);
    lemma_digit_sep_split(spec_digits(a.months as nat), ya_rest, spec_digits(b.months as nat), yb_rest, '.');
    lemma_digits_injective(a.months as nat, b.months as nat);
    lemma_digit_sep_split(spec_digits(a.years as nat), za, spec_digits(b.years as nat), zb, ' ');
    lemma_digits_injective(a.years as nat, b.years as nat);
    assert(za.skip(2) =~= spec_digits(a.hours as nat) + seq![':'] + (spec_digits(a.minutes as nat)
        + seq![':'] + spec_digits(a.seconds as nat)));
    assert(zb.skip(2) =~= spec_digits(b.hours as nat) + seq![':'] + (spec_digits(b.minutes as nat)
        + seq![':'] + spec_digits(b.seconds as nat)));
    lemma_time_render_injective(a, b);
}


/// Within the month table, month and day-of-month together determine the
/// day-of-year.
proof fn lemma_yday_inverse(d1: int, d2: int)
    requires
        d1 >= 1,
        d2 >= 1,
        month_of_yday(d1) == month_of_yday(d2),
        day_of_month_of_yday(d1) == day_of_month_of_yday(d2),
    ensures
        d1 == d2,
{
}

/// The six derived fields determine the raw value: distinct elapsed-seconds
/// values never derive the same calendar fields.
pub proof fn lemma_stamp_fields_injective(x: u64, y: u64)
    requires
        stamp_of(x).hours == stamp_of(y).hours,
        stamp_of(x).minutes == stamp_of(y).minutes,
        stamp_of(x).seconds == stamp_of(y).seconds,
        stamp_of(x).days == stamp_of(y).days,
        stamp_of(x).months == stamp_of(y).months,
        stamp_of(x).years == stamp_of(y).years,
    ensures
        x == y,
{
    let xi = x as int;
    let yi = y as int;
    let yr = SECONDS_PER_YEAR as int;
    let sd = SECONDS_PER_DAY as int;
    let two64: int = 0x1_0000_0000_0000_0000;

    // The three time-of-day fields pin down the seconds within the day.
    vstd::arithmetic::div_mod::lemma_mod_mod(xi, 3600, 24);
    vstd::arithmetic::div_mod::lemma_mod_mod(yi, 3600, 24);
    vstd::arithmetic::div_mod::lemma_mod_mod(xi, 60, 60);
    vstd::arithmetic::div_mod::lemma_mod_mod(yi, 60, 60);
    vstd::arithmetic::div_mod::lemma_fundamental_div_mod(xi % sd, 3600);
    vstd::arithmetic::div_mod::lemma_fundamental_div_mod(yi % sd, 3600);
    vstd::arithmetic::div_mod::lemma_fundamental_div_mod(xi % 3600, 60);
    vstd::arithmetic::div_mod::lemma_fundamental_div_mod(yi % 3600, 60);
    assert((xi % sd) / 3600 == (yi % sd) / 3600);
    assert((xi % 3600) / 60 == (yi % 3600) / 60);
    assert(xi % 60 == yi % 60);
    assert(xi % sd == yi % sd);

    // The year field pins down the count of whole elapsed years.
    assert(xi < yr * 600000000000 && yi < yr * 600000000000);
    vstd::arithmetic::div_mod::lemma_multiply_divide_lt(xi, yr, 600000000000);
    vstd::arithmetic::div_mod::lemma_multiply_divide_lt(yi, yr, 600000000000);
    let q = xi / yr;
    assert(q == yi / yr);

    // Month and day-of-month pin down the day-of-year.
    let lead = (q / 4) * sd;
    vstd::arithmetic::div_mod::lemma_div_is_ordered(q, 599999999999, 4);
    assert(lead < 12960000000000000);
    let adjx = spec_adjusted_year_secs(x);
    let adjy = spec_adjusted_year_secs(y);
    let dx = spec_day_of_year(x);
    let d2 = spec_day_of_year(y);
    assert(adjx / sd >= 0 && adjy / sd >= 0) by {
        vstd::arithmetic::div_mod::lemma_div_pos_is_pos(adjx, sd);
        vstd::arithmetic::div_mod::lemma_div_pos_is_pos(adjy, sd);
    }
    assert(dx >= 1 && d2 >= 1);
    lemma_yday_inverse(dx, d2);

    // Each append of a whole leap-adjustment or year is a multiple of a day,
    // so the adjusted seconds agree with the raw value modulo one day.
    vstd::arithmetic::div_mod::lemma_fundamental_div_mod(xi, yr);
    vstd::arithmetic::div_mod::lemma_fundamental_div_mod(yi, yr);
    let a = -(365 * q + q / 4);
    if lead <= xi % yr {
        // The day-of-year stays within the table, so both sides are on the
        // unwrapped branch.
        assert(adjx == sd * a + xi);
        vstd::arithmetic::div_mod::lemma_mod_multiples_vanish(a, xi, sd);
        assert(adjx % sd == xi % sd);
        assert(adjx < 365 * sd);
        vstd::arithmetic::div_mod::lemma_multiply_divide_lt(adjx, sd, 365);
        assert(dx <= 365);
        assert(lead <= yi % yr) by {
            if lead > yi % yr {
                assert(adjy >= two64 - lead);
                assert(adjy >= 367 * sd);
                vstd::arithmetic::div_mod::lemma_div_is_ordered(367 * sd, adjy, sd);
                vstd::arithmetic::div_mod::lemma_div_multiples_vanish(367, sd);
                assert(d2 >= 368);
            }
        }
        assert(adjy == sd * a + yi);
        vstd::arithmetic::div_mod::lemma_mod_multiples_vanish(a, yi, sd);
        assert(adjy % sd == yi % sd);
    } else {
        // Both sides wrap past the table.
        assert(adjx == sd * a + (xi + two64));
        vstd::arithmetic::div_mod::lemma_mod_multiples_vanish(a, xi + two64, sd);
        assert(adjx >= two64 - lead);
        assert(adjx >= 367 * sd);
        vstd::arithmetic::div_mod::lemma_div_is_ordered(367 * sd, adjx, sd);
        vstd::arithmetic::div_mod::lemma_div_multiples_vanish(367, sd);
        assert(dx >= 368);
        assert(lead > yi % yr) by {
            if lead <= yi % yr {
                assert(adjy < 365 * sd);
                vstd::arithmetic::div_mod::lemma_multiply_divide_lt(adjy, sd, 365);
                assert(d2 <= 365);
            }
        }
        assert(adjy == sd * a + (yi + two64));
        vstd::arithmetic::div_mod::lemma_mod_multiples_vanish(a, yi + two64, sd);
        vstd::arithmetic::div_mod::lemma_add_mod_noop(xi, two64, sd);
        vstd::arithmetic::div_mod::lemma_add_mod_noop(yi, two64, sd);
        assert(adjx % sd == adjy % sd);
    }
    // Same day-of-year and same remainder within the day: the adjusted
    // seconds, and with them the raw values, coincide.
    vstd::arithmetic::div_mod::lemma_fundamental_div_mod(adjx, sd);
    vstd::arithmetic::div_mod::lemma_fundamental_div_mod(adjy, sd);
    assert(adjx == adjy);
}

} // verus!
