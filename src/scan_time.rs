//! The time of a scan, read from its file name, and the time between two scans.
//!
//! Scan files are named after the time the scan began: their stem starts
//! with `YYMMDD_HHMMSS`, in UTC. Times are held as seconds since the Unix epoch.

use vstd::prelude::*;
use vstd::std_specs::iter::IteratorSpec;

verus! {

/// The pattern of the time at the start of a scan file's stem.
pub const SCAN_TIME_FORMAT: &'static str = "%y%m%d_%H%M%S";

/// The number of characters of a stem that hold the time.
pub const SCAN_TIME_CHARS: usize = 13;

/// The last component of a path without its extension, if it has one.
pub uninterp spec fn file_stem_in(path: Seq<char>) -> Option<Seq<char>>;

/// The UTC time that `s` gives under the pattern `format`, in seconds since
/// the Unix epoch, if `s` matches the pattern.
pub uninterp spec fn utc_timestamp_of(s: Seq<char>, format: Seq<char>) -> Option<int>;

/// chrono's `ParseError`, the error of `NaiveDateTime::parse_from_str`;
/// opaque here, and read only as a failure to parse.
#[verifier::external_type_specification]
#[verifier::external_body]
pub struct ExParseError(chrono::ParseError);

/// The text of an optional string.
pub open spec fn string_option_view(o: Option<String>) -> Option<Seq<char>> {
    match o {
        Some(s) => Some(s@),
        None => None,
    }
}

/// Relies on std's `Path::file_stem`: the final component of the path without
/// its extension, read lossily as text.
#[verifier::external_body]
fn file_stem(path: &str) -> (r: Option<String>)
    ensures
        string_option_view(r) == file_stem_in(path@),
{
    std::path::Path::new(path).file_stem().map(|s| s.to_string_lossy().into_owned())
}

/// Relies on chrono's `NaiveDateTime::parse_from_str`: the text `s` read
/// under the strftime-like pattern `format`, taken as UTC.
#[verifier::external_body]
fn parse_utc(s: &Vec<char>, format: &str) -> (r: Result<i64, chrono::ParseError>)
    ensures
        match r {
            Ok(t) => utc_timestamp_of(s@, format@) == Some(t as int),
            Err(_) => utc_timestamp_of(s@, format@) is None,
        },
{
    let s: String = s.iter().collect();
    chrono::NaiveDateTime::parse_from_str(&s, format).map(|d| d.and_utc().timestamp())
}

/// The first `n` characters of `s`, or all of them where it is shorter.
pub open spec fn first_chars(s: Seq<char>, n: nat) -> Seq<char> {
    if s.len() <= n {
        s
    } else {
        s.subrange(0, n as int)
    }
}

/// The first `n` characters of `s`.
fn take_chars(s: &str, n: usize) -> (r: Vec<char>)
    ensures
        r@ == first_chars(s@, n as nat),
{
    broadcast use vstd::string::axiom_spec_iter, vstd::string::next_postcondition;

    let mut it = s.chars();
    let mut out: Vec<char> = Vec::new();
    while out.len() < n
        invariant
            out.len() <= n,
            out.len() <= s@.len(),
            out@ == s@.subrange(0, out.len() as int),
            it.remaining() == s@.subrange(out.len() as int, s@.len() as int),
        decreases n - out.len(),
    {
        match it.next() {
            Some(c) => {
                out.push(c);
            },
            None => {
                assert(out@ =~= s@);
                return out;
            },
        }
    }
    out
}

/// A path without a file stem.
#[derive(Clone, Debug, PartialEq, Eq)]
pub struct MissingFileStem {
    pub path: String,
}

/// Why the time of a scan, or the time between two scans, is not known.
#[derive(Clone, Debug, PartialEq, Eq)]
pub enum TimestampError {
    /// The path has no file stem.
    MissingFileStem(MissingFileStem),
    /// The file name does not hold a time in the expected pattern.
    Unparsed,
    /// The later scan does not come after the earlier one.
    NotIncreasing,
}

/// The time of the later of two scans, and the seconds between them.
#[derive(Clone, Copy, Debug, PartialEq, Eq)]
pub struct ScanInterval {
    /// The time of the later scan, in seconds since the Unix epoch.
    pub datetime: i64,
    /// The seconds from the earlier scan to the later one.
    pub seconds: u64,
}

/// The time given by the start of a scan file's stem, if it holds one.
pub open spec fn scan_time_of(path: Seq<char>) -> Option<int> {
    match file_stem_in(path) {
        Some(stem) => utc_timestamp_of(first_chars(stem, SCAN_TIME_CHARS as nat), SCAN_TIME_FORMAT@),
        None => None,
    }
}

/// Reads the time in the first characters of `stem`.
fn time_of_stem(stem: &str) -> (r: Result<i64, TimestampError>)
    ensures
        match utc_timestamp_of(first_chars(stem@, SCAN_TIME_CHARS as nat), SCAN_TIME_FORMAT@) {
            Some(t) => r matches Ok(u) && u as int == t,
            None => r == Err::<i64, TimestampError>(TimestampError::Unparsed),
        },
{
    let head = take_chars(stem, SCAN_TIME_CHARS);
    match parse_utc(&head, SCAN_TIME_FORMAT) {
        Ok(t) => Ok(t),
        Err(_) => Err(TimestampError::Unparsed),
    }
}

/// Reads the time of a scan from the first 13 characters of its file
/// stem, `YYMMDD_HHMMSS`.
pub fn datetime_from_path(path: &str) -> (r: Result<i64, TimestampError>)
    ensures
        match r {
            Ok(t) => scan_time_of(path@) == Some(t as int),
            Err(e) => e == TimestampError::Unparsed && scan_time_of(path@) is None,
        },
{
    match file_stem(path) {
        Some(stem) => time_of_stem(stem.as_str()),
        None => Err(TimestampError::Unparsed),
    }
}

/// Reads the time of a scan from the first 13 characters of its file
/// stem, `YYMMDD_HHMMSS`, telling a path without a stem apart.
pub fn riegl_datetime_from_path(path: &str) -> (r: Result<i64, TimestampError>)
    ensures
        match file_stem_in(path@) {
            None => r matches Err(TimestampError::MissingFileStem(m)) && m.path@ == path@,
            Some(stem) => match scan_time_of(path@) {
                Some(t) => r matches Ok(u) && u as int == t,
                None => r == Err::<i64, TimestampError>(TimestampError::Unparsed),
            },
        },
{
    match file_stem(path) {
        None => Err(TimestampError::MissingFileStem(MissingFileStem { path: path.to_owned() })),
        Some(stem) => time_of_stem(stem.as_str()),
    }
}

/// The interval from a scan at `before` to a scan at `after`, which must come
/// strictly later.
pub fn interval_between(before: i64, after: i64) -> (r: Result<ScanInterval, TimestampError>)
    ensures
        match r {
            Ok(i) => before < after && i.datetime == after && i.seconds == after - before,
            Err(e) => e == TimestampError::NotIncreasing && after <= before,
        },
{
    if after <= before {
        Err(TimestampError::NotIncreasing)
    } else {
        let seconds = (after as i128 - before as i128) as u64;
        Ok(ScanInterval { datetime: after, seconds })
    }
}

/// The interval between the scans in the files at `before` and `after`, by
/// their names.
pub fn scan_interval(before: &str, after: &str) -> (r: Result<ScanInterval, TimestampError>)
    ensures
        match (scan_time_of(before@), scan_time_of(after@)) {
            (Some(b), Some(a)) => if b < a {
                r matches Ok(i) && i.datetime == a && i.seconds == a - b
            } else {
                r == Err::<ScanInterval, TimestampError>(TimestampError::NotIncreasing)
            },
            _ => r == Err::<ScanInterval, TimestampError>(TimestampError::Unparsed),
        },
{
    let b = match datetime_from_path(before) {
        Ok(t) => t,
        Err(e) => return Err(e),
    };
    let a = match datetime_from_path(after) {
        Ok(t) => t,
        Err(e) => return Err(e),
    };
    interval_between(b, a)
}

} // verus!
