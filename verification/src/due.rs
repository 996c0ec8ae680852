use std::fmt::Write;
use chrono::format::StrftimeItems;
use chrono::DateTime;
use chrono::NaiveDateTime;
use vstd::prelude::*;
use vstd::string::*;

verus! {

/// A point in time with no time zone: seconds since the start of 1970, and
/// nanoseconds within the second.
#[derive(Debug, Clone, Copy, PartialEq, Eq, Structural)]
pub struct Moment {
    pub seconds: i64,
    pub nanos: u32,
}

/// When a task is due, if it is due at all.
#[derive(Debug, Clone, Copy, PartialEq, Eq, Structural)]
pub struct DueDateTime {
    pub at: Option<Moment>,
}

/// The text that chrono writes for a point in time by a format, where it
/// can represent the point in time and write the format.
pub uninterp spec fn formatted_moment(seconds: i64, nanos: u32, format: Seq<char>) -> Option<
    Seq<char>,
>;

/// The point in time that chrono reads from a text by a format, as seconds
/// and nanoseconds, where the text is one for the format.
pub uninterp spec fn parsed_moment(text: Seq<char>, format: Seq<char>) -> Option<(i64, u32)>;

/// The error with which chrono refuses a text.
#[verifier::external_type_specification]
#[verifier::external_body]
pub struct ExParseError(chrono::ParseError);

/// chrono's `NaiveDateTime::format_with_items`, on the date and time that
/// `DateTime::from_timestamp` makes of the seconds and nanoseconds: the
/// text for that point in time by the format. There is no text where the
/// point in time is outside of what chrono represents, or where the format
/// cannot be written.
#[verifier::external_body]
fn format_moment(seconds: i64, nanos: u32, format: &str) -> (text: Option<String>)
    ensures
        (match text {
            Some(s) => Some(s@),
            None => None,
        }) == formatted_moment(seconds, nanos, format@),
{
    let date_time = DateTime::from_timestamp(seconds, nanos)?.naive_utc();
    let mut text = String::new();
    match write!(text, "{}", date_time.format_with_items(StrftimeItems::new(format))) {
        Ok(()) => Some(text),
        Err(_) => None,
    }
}

/// chrono's `NaiveDateTime::parse_from_str`: the point in time that the
/// text names by the format, as the seconds and nanoseconds that
/// `DateTime::timestamp` and `DateTime::timestamp_subsec_nanos` give for it.
#[verifier::external_body]
fn parse_moment(text: &str, format: &str) -> (r: Result<(i64, u32), chrono::ParseError>)
    ensures
        (match r {
            Ok(m) => Some(m),
            Err(_) => None,
        }) == parsed_moment(text@, format@),
{
    let date_time = NaiveDateTime::parse_from_str(text, format)?.and_utc();
    Ok((date_time.timestamp(), date_time.timestamp_subsec_nanos()))
}

impl DueDateTime {
    /// The due date at `at`, or none.
    pub fn new(at: Option<Moment>) -> (due: DueDateTime)
        ensures
            due.at == at,
    {
        DueDateTime { at }
    }

    /// The text that stands for the due date in a document: a fixed text
    /// where there is no due date, else year, month, day, hour, minute and
    /// second as fourteen digits. A point in time that chrono cannot
    /// represent has no text.
    pub open spec fn text(self) -> Option<Seq<char>> {
        match self.at {
            None => Some("No Due Date"@),
            Some(m) => formatted_moment(m.seconds, m.nanos, "%Y%m%d%H%M%S"@),
        }
    }

    /// The due date that a text stands for, where it stands for one.
    pub open spec fn read(text: Seq<char>) -> Option<DueDateTime> {
        if text == "No Due Date"@ {
            Some(DueDateTime { at: None })
        } else {
            match parsed_moment(text, "%Y%m%d%H%M%S"@) {
                Some(m) => Some(DueDateTime { at: Some(Moment { seconds: m.0, nanos: m.1 }) }),
                None => None,
            }
        }
    }

    /// The text that stands for the due date in a document; see `text`.
    pub fn to_text(&self) -> (text: Option<String>)
        ensures
            (match text {
                Some(s) => Some(s@),
                None => None,
            }) == self.text(),
    {
        match self.at {
            None => Some("No Due Date".to_owned()),
            Some(m) => format_moment(m.seconds, m.nanos, "%Y%m%d%H%M%S"),
        }
    }

    /// The due date that `text` stands for; see `read`.
    pub fn from_text(text: &str) -> (due: Option<DueDateTime>)
        ensures
            due == Self::read(text@),
    {
        if text.to_owned() == "No Due Date".to_owned() {
            Some(DueDateTime { at: None })
        } else {
            match parse_moment(text, "%Y%m%d%H%M%S") {
                Ok(m) => Some(DueDateTime { at: Some(Moment { seconds: m.0, nanos: m.1 }) }),
                Err(_) => None,
            }
        }
    }
}

} // verus!
