//! Text shown in the metadata panel: optional values and capture dates.
//!
//! Dates are read and written by the `time` crate; what it reads from a text
//! and writes for a date are named below, and the choice between the two
//! ways a capture date is written down is verified over those names.
use vstd::prelude::*;

verus! {

#[verifier::external_type_specification]
#[verifier::external_body]
pub struct ExOwnedFormatItem(time::format_description::OwnedFormatItem);

/// A calendar date and time of day, as the fields the `time` crate reports.
#[derive(Debug, Clone, Copy, PartialEq, Eq, Structural)]
pub struct DateTimeParts {
    pub year: i32,
    pub month: u8,
    pub day: u8,
    pub hour: u8,
    pub minute: u8,
    pub second: u8,
    pub nanosecond: u32,
}

/// A format description of the `time` crate, with the text it was read from.
pub struct DateFormat {
    text: String,
    items: time::format_description::OwnedFormatItem,
}

impl DateFormat {
    /// The text the description was read from.
    pub closed spec fn source(&self) -> Seq<char> {
        self.text@
    }
}

/// Whether the `time` crate accepts `text` as a format description.
pub uninterp spec fn format_description_valid(text: Seq<char>) -> bool;

/// The date and time the `time` crate reads from an RFC 3339 timestamp, in
/// the timestamp's own offset.
pub uninterp spec fn rfc3339_fields(value: Seq<char>) -> Option<DateTimeParts>;

/// The date and time the `time` crate reads from `value` laid out as the
/// format description `format` says.
pub uninterp spec fn described_fields(value: Seq<char>, format: Seq<char>) -> Option<DateTimeParts>;

/// The text the `time` crate writes for a date and time laid out as the
/// format description `format` says.
pub uninterp spec fn described_text(parts: DateTimeParts, format: Seq<char>) -> Option<Seq<char>>;

/// Whether `c` is an ASCII decimal digit.
pub open spec fn is_digit(c: char) -> bool {
    48 <= c as int <= 57
}

/// The value of the decimal digit `c`.
pub open spec fn digit_of(c: char) -> int {
    c as int - 48
}

/// The number written by the two digits of `v` at `i`.
pub open spec fn two_digits(v: Seq<char>, i: int) -> int {
    digit_of(v[i]) * 10 + digit_of(v[i + 1])
}

/// `value` is a camera timestamp `YYYY:MM:DD hh:mm:ss`, all fields in digits.
pub open spec fn in_camera_layout(value: Seq<char>) -> bool {
    &&& value.len() == 19
    &&& forall|i: int|
        0 <= i < 19 && i != 4 && i != 7 && i != 10 && i != 13 && i != 16 ==> is_digit(
            #[trigger] value[i],
        )
    &&& value[4] == ':' && value[7] == ':' && value[10] == ' '
    &&& value[13] == ':' && value[16] == ':'
}

/// The fields a camera timestamp writes down.
pub open spec fn camera_fields(value: Seq<char>) -> DateTimeParts {
    DateTimeParts {
        year: (two_digits(value, 0) * 100 + two_digits(value, 2)) as i32,
        month: two_digits(value, 5) as u8,
        day: two_digits(value, 8) as u8,
        hour: two_digits(value, 11) as u8,
        minute: two_digits(value, 14) as u8,
        second: two_digits(value, 17) as u8,
        nanosecond: 0,
    }
}

/// The two digits of `n` (below 100), tens first.
pub open spec fn two_digit_text(n: int) -> Seq<char> {
    seq![digit_char((n / 10) as nat), digit_char((n % 10) as nat)]
}

/// How a date and time of a year from 0 to 9999 is shown: `YYYY-MM-DD hh:mm:ss`,
/// every field zero-padded.
pub open spec fn shown_text(p: DateTimeParts) -> Seq<char> {
    two_digit_text(p.year as int / 100) + two_digit_text(p.year as int % 100) + seq!['-'] + two_digit_text(
        p.month as int,
    ) + seq!['-'] + two_digit_text(p.day as int) + seq![' '] + two_digit_text(p.hour as int)
        + seq![':'] + two_digit_text(p.minute as int) + seq![':'] + two_digit_text(p.second as int)
}

/// A camera timestamp with its date written with dashes.
pub open spec fn dashed(value: Seq<char>) -> Seq<char> {
    value.update(4, '-').update(7, '-')
}

/// Reads a format description with
/// `time::format_description::parse_owned::<1>`, the syntax that
/// `time::format_description::parse` reads. Claimed: a description comes back
/// exactly when the crate accepts the text, and it keeps that text.
#[verifier::external_body]
fn describe_format(text: &str) -> (r: Option<DateFormat>)
    ensures
        r is Some == format_description_valid(text@),
        r matches Some(f) ==> f.source() == text@,
{
    match time::format_description::parse_owned::<1>(text) {
        Ok(items) => Some(DateFormat { text: text.to_string(), items }),
        Err(_) => None,
    }
}

/// Reads an RFC 3339 timestamp with `time::OffsetDateTime::parse` and
/// reports its fields. Claimed: the result is a function of the text alone,
/// and there is none unless the fifth character is the dash after the year
/// (the parser reads exactly four year digits, then a dash).
#[verifier::external_body]
fn read_rfc3339(value: &str) -> (r: Option<DateTimeParts>)
    ensures
        r == rfc3339_fields(value@),
        !(value@.len() > 4 && value@[4] == '-') ==> r is None,
{
    let rfc3339 = time::format_description::well_known::Rfc3339;
    match time::OffsetDateTime::parse(value, &rfc3339) {
        Ok(dt) => Some(DateTimeParts {
            year: dt.year(),
            month: u8::from(dt.month()),
            day: dt.day(),
            hour: dt.hour(),
            minute: dt.minute(),
            second: dt.second(),
            nanosecond: dt.nanosecond(),
        }),
        Err(_) => None,
    }
}

/// Reads a date and time without offset with `time::PrimitiveDateTime::parse`
/// and reports its fields. Claimed: the result is a function of the text and
/// of the description's source text alone; and a camera timestamp read in the
/// camera layout gives the fields it writes down (`[year]` reads four digits,
/// the other components two, all as written).
#[verifier::external_body]
fn read_described(value: &str, format: &DateFormat) -> (r: Option<DateTimeParts>)
    ensures
        r == described_fields(value@, format.source()),
        format.source() == capture_layout() && in_camera_layout(value@) ==> (r matches Some(p)
            ==> p == camera_fields(value@)),
{
    match time::PrimitiveDateTime::parse(value, &format.items) {
        Ok(dt) => Some(DateTimeParts {
            year: dt.year(),
            month: u8::from(dt.month()),
            day: dt.day(),
            hour: dt.hour(),
            minute: dt.minute(),
            second: dt.second(),
            nanosecond: dt.nanosecond(),
        }),
        Err(_) => None,
    }
}

/// Writes a date and time with `time::PrimitiveDateTime::format`, after
/// building the value from its fields. Claimed: the result is a function of
/// the fields and of the description's source text alone; and in the shown
/// layout a year from 0 to 9999 is written as four digits and every other
/// field as two, zero-padded (the components' default padding).
#[verifier::external_body]
fn write_described(parts: &DateTimeParts, format: &DateFormat) -> (r: Option<String>)
    ensures
        r matches Some(s) ==> described_text(*parts, format.source()) == Some(s@),
        r is None ==> described_text(*parts, format.source()) is None,
        format.source() == display_layout() && 0 <= parts.year <= 9999 ==> (r matches Some(s)
            ==> s@ == shown_text(*parts)),
{
    let month = time::Month::try_from(parts.month).ok()?;
    let date = time::Date::from_calendar_date(parts.year, month, parts.day).ok()?;
    let clock = time::Time::from_hms_nano(parts.hour, parts.minute, parts.second, parts.nanosecond)
        .ok()?;
    time::PrimitiveDateTime::new(date, clock).format(&format.items).ok()
}

/// How capture dates are shown.
pub open spec fn display_layout() -> Seq<char> {
    "[year]-[month]-[day] [hour]:[minute]:[second]"@
}

/// How cameras write capture dates.
pub open spec fn capture_layout() -> Seq<char> {
    "[year]:[month]:[day] [hour]:[minute]:[second]"@
}

/// The date and time a stored timestamp stands for: an RFC 3339 reading
/// when there is one, else a reading in the camera layout.
pub open spec fn timestamp_reading(value: Seq<char>) -> Option<DateTimeParts> {
    match rfc3339_fields(value) {
        Some(p) => Some(p),
        None => if format_description_valid(capture_layout()) {
            described_fields(value, capture_layout())
        } else {
            None
        },
    }
}

/// The shown text of a stored timestamp.
pub open spec fn display_datetime(value: Seq<char>) -> Option<Seq<char>> {
    if !format_description_valid(display_layout()) {
        None
    } else {
        match timestamp_reading(value) {
            Some(p) => described_text(p, display_layout()),
            None => None,
        }
    }
}

/// The reading to show: the RFC 3339 one if there is one, else the one in
/// the camera layout.
pub fn preferred_reading(rfc3339: Option<DateTimeParts>, captured: Option<DateTimeParts>) -> (r:
    Option<DateTimeParts>)
    ensures
        r == (match rfc3339 {
            Some(p) => Some(p),
            None => captured,
        }),
{
    match rfc3339 {
        Some(p) => Some(p),
        None => captured,
    }
}

/// Shows a stored timestamp (RFC 3339, or the camera layout
/// `YYYY:MM:DD hh:mm:ss`) as `YYYY-MM-DD hh:mm:ss`; `None` when it is in
/// neither layout.
pub fn format_display_datetime(value: &str) -> (r: Option<String>)
    ensures
        match r {
            Some(s) => display_datetime(value@) == Some(s@),
            None => display_datetime(value@) is None,
        },
        in_camera_layout(value@) ==> (r matches Some(s) ==> s@ == dashed(value@)),
{
    let output = match describe_format("[year]-[month]-[day] [hour]:[minute]:[second]") {
        Some(f) => f,
        None => return None,
    };
    let rfc3339 = read_rfc3339(value);
    let captured = if rfc3339.is_some() {
        None
    } else {
        match describe_format("[year]:[month]:[day] [hour]:[minute]:[second]") {
            Some(capture) => read_described(value, &capture),
            None => None,
        }
    };
    proof {
        if in_camera_layout(value@) {
            crate::laws::law_camera_fields_shown_with_dashes(value@);
        }
    }
    match preferred_reading(rfc3339, captured) {
        Some(p) => write_described(&p, &output),
        None => None,
    }
}

/// The text shown for a value that may be missing.
pub open spec fn or_not_available(value: Option<Seq<char>>) -> Seq<char> {
    match value {
        Some(s) => s,
        None => "N/A"@,
    }
}

/// Shows a stored timestamp: its formatted form, the raw text when it cannot
/// be read, or `N/A` when there is none.
pub fn format_display_datetime_opt(value: Option<&str>) -> (r: String)
    ensures
        r@ == (match value {
            Some(raw) => match display_datetime(raw@) {
                Some(s) => s,
                None => raw@,
            },
            None => "N/A"@,
        }),
{
    match value {
        Some(raw) => match format_display_datetime(raw) {
            Some(s) => s,
            None => raw.to_string(),
        },
        None => "N/A".to_string(),
    }
}

/// Shows an optional text, `N/A` when it is missing.
pub fn format_optional_string(value: Option<String>) -> (r: String)
    ensures
        r@ == or_not_available(
            match value {
                Some(s) => Some(s@),
                None => None,
            },
        ),
{
    match value {
        Some(s) => s,
        None => "N/A".to_string(),
    }
}

/// The decimal digit `d` as a character.
pub open spec fn digit_char(d: nat) -> char {
    (48 + d) as char
}

/// The decimal writing of `n`, without sign or leading zeros.
pub open spec fn decimal(n: nat) -> Seq<char>
    decreases n,
{
    if n < 10 {
        seq![digit_char(n)]
    } else {
        decimal(n / 10).push(digit_char(n % 10))
    }
}

/// Writes a number with `ToString::to_string`, which for an unsigned integer
/// gives its decimal digits without sign or leading zeros.
#[verifier::external_body]
fn decimal_text(n: u64) -> (r: String)
    ensures
        r@ == decimal(n as nat),
{
    n.to_string()
}

/// Shows an optional number in decimal, `N/A` when it is missing.
pub fn format_optional_number(value: Option<u64>) -> (r: String)
    ensures
        r@ == or_not_available(
            match value {
                Some(n) => Some(decimal(n as nat)),
                None => None,
            },
        ),
{
    match value {
        Some(n) => decimal_text(n),
        None => "N/A".to_string(),
    }
}

} // verus!
