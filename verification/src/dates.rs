//! Calendar dates and instants, through the `time` crate.
use crate::numerals;
use crate::text;
use vstd::prelude::*;

verus! {

/// What an RFC 3339 text stands for: year, month and day in the offset that it
/// states, and the instant in nanoseconds since the Unix epoch; or the text of
/// the parse error.
pub uninterp spec fn rfc3339_moment(date: Seq<char>) -> Result<(i32, u8, u8, i128), Seq<char>>;

/// `time::OffsetDateTime::parse` with the RFC 3339 format. What it reads is a
/// function of the text alone: the date fields in the stated offset, and the
/// instant, which orders moments as `OffsetDateTime` itself does.
#[verifier::external_body]
pub(crate) fn parse_rfc3339(date: &str) -> (r: Result<(i32, u8, u8, i128), String>)
    ensures
        match r {
            Ok(moment) => rfc3339_moment(date@) == Result::<(i32, u8, u8, i128), Seq<char>>::Ok(
                moment,
            ),
            Err(e) => rfc3339_moment(date@) == Result::<(i32, u8, u8, i128), Seq<char>>::Err(e@),
        },
{
    let format = time::format_description::well_known::Rfc3339;
    match time::OffsetDateTime::parse(date, &format) {
        Ok(t) => Ok((t.year(), u8::from(t.month()), t.day(), t.unix_timestamp_nanos())),
        Err(e) => Err(e.to_string()),
    }
}

/// The Julian day that a text stands for under a `time` format description; or
/// the text of the error.
pub uninterp spec fn parsed_day(day: Seq<char>, format: Seq<char>) -> Result<i32, Seq<char>>;

/// `time::Date::parse` under the given format description. The result is a
/// function of both texts alone.
#[verifier::external_body]
pub(crate) fn parse_day(day: &str, format: &str) -> (r: Result<i32, String>)
    ensures
        match r {
            Ok(n) => parsed_day(day@, format@) == Result::<i32, Seq<char>>::Ok(n),
            Err(e) => parsed_day(day@, format@) == Result::<i32, Seq<char>>::Err(e@),
        },
{
    let items = match time::format_description::parse(format) {
        Ok(items) => items,
        Err(e) => return Err(e.to_string()),
    };
    match time::Date::parse(day, &items) {
        Ok(date) => Ok(date.to_julian_day()),
        Err(e) => Err(e.to_string()),
    }
}

/// Year, month and day of a Julian day, where the calendar reaches it.
pub uninterp spec fn calendar_day(julian_day: i32) -> Option<(i32, u8, u8)>;

/// `time::Date::from_julian_day`, taken apart into year, month and day.
#[verifier::external_body]
pub(crate) fn day_of_julian(julian_day: i32) -> (r: Option<(i32, u8, u8)>)
    ensures
        r == calendar_day(julian_day),
{
    match time::Date::from_julian_day(julian_day) {
        Ok(date) => Some((date.year(), u8::from(date.month()), date.day())),
        Err(_) => None,
    }
}

/// `YYYYMMDD`.
pub open spec fn day_text_spec(year: int, month: int, day: int) -> Seq<char> {
    numerals::padded_int(year, 4) + numerals::padded_int(month, 2) + numerals::padded_int(day, 2)
}

pub fn day_text(year: i32, month: u8, day: u8) -> (r: String)
    ensures
        r@ == day_text_spec(year as int, month as int, day as int),
{
    text::cat3(
        numerals::padded_decimal(year, 4).as_str(),
        numerals::padded_decimal(month as i32, 2).as_str(),
        numerals::padded_decimal(day as i32, 2).as_str(),
    )
}

/// The day of an RFC 3339 date, or what is wrong with it.
pub open spec fn day_spec(date: Seq<char>) -> Result<Seq<char>, Seq<char>> {
    match rfc3339_moment(date) {
        Ok((year, month, day, _)) => Ok(day_text_spec(year as int, month as int, day as int)),
        Err(e) => Err("bad RFC3339 date '"@ + date + "': "@ + e),
    }
}

/// `YYYYMMDD` of an RFC 3339 date.
pub fn day_of(date: &str) -> (r: Result<String, String>)
    ensures
        match r {
            Ok(day) => day_spec(date@) == Result::<Seq<char>, Seq<char>>::Ok(day@),
            Err(e) => day_spec(date@) == Result::<Seq<char>, Seq<char>>::Err(e@),
        },
{
    match parse_rfc3339(date) {
        Ok((year, month, day, _)) => Ok(day_text(year, month, day)),
        Err(e) => Err(text::cat4("bad RFC3339 date '", date, "': ", e.as_str())),
    }
}

/// The instant of an RFC 3339 date; none where it is not one.
pub open spec fn instant_spec(date: Seq<char>) -> Option<i128> {
    match rfc3339_moment(date) {
        Ok((_, _, _, nanos)) => Some(nanos),
        Err(_) => None,
    }
}

pub fn instant_of(date: &str) -> (r: Option<i128>)
    ensures
        r == instant_spec(date@),
{
    match parse_rfc3339(date) {
        Ok((_, _, _, nanos)) => Some(nanos),
        Err(_) => None,
    }
}

/// Does the calendar reach the day `keep_days` before `today`? It does, for
/// want of a day, where `today` is none.
pub open spec fn reaches(today: Seq<char>, keep_days: int) -> bool {
    match parsed_day(today, "[year][month][day]"@) {
        Ok(n) => n - keep_days >= i32::MIN && calendar_day((n - keep_days) as i32) is Some,
        Err(_) => true,
    }
}

pub fn has_cutoff(today: &str, keep_days: u32) -> (r: bool)
    ensures
        r == reaches(today@, keep_days as int),
{
    match parse_day(today, "[year][month][day]") {
        Ok(n) => {
            let m: i64 = n as i64 - keep_days as i64;
            m >= i32::MIN as i64 && day_of_julian(m as i32).is_some()
        },
        Err(_) => true,
    }
}

/// `YYYYMMDD` of the day `keep_days` before `today`; an error for a text that
/// is no day.
pub open spec fn cutoff_spec(today: Seq<char>, keep_days: int) -> Result<Seq<char>, Seq<char>> {
    match parsed_day(today, "[year][month][day]"@) {
        Err(e) => Err("bad YYYYMMDD day '"@ + today + "': "@ + e),
        Ok(n) => {
            let (year, month, day) = calendar_day((n - keep_days) as i32)->0;
            Ok(day_text_spec(year as int, month as int, day as int))
        },
    }
}

/// `today - keep_days` as `YYYYMMDD`.
pub fn cutoff_day(today: &str, keep_days: u32) -> (r: Result<String, String>)
    requires
        reaches(today@, keep_days as int),
    ensures
        match r {
            Ok(day) => cutoff_spec(today@, keep_days as int) == Result::<Seq<char>, Seq<char>>::Ok(
                day@,
            ),
            Err(e) => cutoff_spec(today@, keep_days as int) == Result::<Seq<char>, Seq<char>>::Err(
                e@,
            ),
        },
{
    match parse_day(today, "[year][month][day]") {
        Err(e) => Err(text::cat4("bad YYYYMMDD day '", today, "': ", e.as_str())),
        Ok(n) => {
            let m: i64 = n as i64 - keep_days as i64;
            let (year, month, day) = day_of_julian(m as i32).unwrap();
            Ok(day_text(year, month, day))
        },
    }
}

} // verus!
