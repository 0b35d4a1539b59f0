//! The calls into outside crates that the library makes: chrono for dates
//! and tabled for tables. Verus believes these contracts without proof.

use chrono::TimeZone;
use vstd::prelude::*;

verus! {

#[verifier::external_type_specification]
#[verifier::external_body]
pub struct ExChronoParseError(chrono::ParseError);

/// The Unix timestamp, in seconds, of the UTC date and time that chrono
/// reads from `text` with the format `format`, or `None` where chrono
/// refuses the text.
pub uninterp spec fn utc_timestamp(text: Seq<char>, format: Seq<char>) -> Option<int>;

/// chrono's rendering (`Display` of `DateTime<Utc>`, such as
/// `2023-01-02 03:04:05 UTC`) of the instant `timestamp` seconds after the
/// Unix epoch, or `None` where chrono has no date for it.
pub uninterp spec fn utc_text(timestamp: int) -> Option<Seq<char>>;

/// The markdown table, with a leading index column, that tabled renders
/// from a header row and records.
pub uninterp spec fn indexed_markdown_table(
    columns: Seq<Seq<char>>,
    records: Seq<Seq<Seq<char>>>,
) -> Seq<char>;

/// `Utc.datetime_from_str(text, format)`, then `DateTime::timestamp`: the
/// result is the named `utc_timestamp` of the two strings; chrono's error
/// comes back unchanged.
#[verifier::external_body]
#[allow(deprecated)]
pub(crate) fn utc_datetime_from_str(text: &str, format: &str) -> (r: Result<
    i64,
    chrono::ParseError,
>)
    ensures
        match r {
            Ok(t) => utc_timestamp(text@, format@) == Some(t as int),
            Err(_) => utc_timestamp(text@, format@) is None,
        },
{
    match chrono::Utc.datetime_from_str(text, format) {
        Ok(datetime) => Ok(datetime.timestamp()),
        Err(e) => Err(e),
    }
}

/// `DateTime::<Utc>::from_timestamp(timestamp, 0)`, rendered with
/// `to_string`: the result is the named `utc_text` of the timestamp.
#[verifier::external_body]
pub(crate) fn utc_datetime_text(timestamp: i64) -> (r: Option<String>)
    ensures
        match r {
            Some(s) => utc_text(timestamp as int) == Some(s@),
            None => utc_text(timestamp as int) is None,
        },
{
    match chrono::DateTime::<chrono::Utc>::from_timestamp(timestamp, 0) {
        Some(datetime) => Some(datetime.to_string()),
        None => None,
    }
}

/// `Utc::now().timestamp()`: the current time in whole seconds since the
/// Unix epoch. `Utc::now` builds its value from the seconds that the system
/// clock reads after the epoch and panics on a clock before the epoch, so
/// the result is never negative. Which time it is, is the clock's and is
/// not stated.
#[verifier::external_body]
pub(crate) fn utc_now_timestamp() -> (t: i64)
    ensures
        t >= 0,
{
    chrono::Utc::now().timestamp()
}

/// tabled: a `Builder` filled with `records` and the header `columns`,
/// given an index column (`Builder::index`), built and rendered with
/// `Style::markdown()`. The result is the named `indexed_markdown_table`.
#[verifier::external_body]
pub(crate) fn render_indexed_markdown(columns: Vec<String>, records: Vec<Vec<String>>) -> (s:
    String)
    ensures
        s@ == indexed_markdown_table(columns.deep_view(), records.deep_view()),
{
    let mut builder = tabled::builder::Builder::from_iter(records);
    builder.set_columns(columns);
    builder.index().build().with(tabled::Style::markdown()).to_string()
}

} // verus!
