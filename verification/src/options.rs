//! What a run is asked to do: where to scan, how deep to list, and the share
//! below which an entry is left out.

use vstd::prelude::*;
use vstd::string::*;

verus! {

/// The settings of a run.
#[derive(Debug)]
pub struct Settings {
    /// The directory to scan.
    pub root: String,
    /// The deepest level that the report lists.
    pub depth: u32,
    /// The share of its parent, in percent, that an entry must reach to be
    /// listed.
    pub threshold: u32,
}

/// The depth to list where none is given or the given one is no number.
pub const DEFAULT_DEPTH: u32 = 1;

/// The threshold where none is given or the given one is no percentage.
pub const DEFAULT_THRESHOLD: u32 = 0;

/// The largest threshold: a share in percent lies between 0 and this.
pub const MAX_THRESHOLD: u32 = 100;

/// `c` is one of the digits 0 to 9.
pub open spec fn is_digit(c: char) -> bool {
    0x30 <= c as u32 <= 0x39
}

/// The number that the digits `s` write in decimal; `None` where `s` is
/// empty or holds anything but digits.
pub open spec fn digits_value(s: Seq<char>) -> Option<nat>
    decreases s.len(),
{
    if s.len() == 0 {
        None
    } else if !is_digit(s.last()) {
        None
    } else if s.len() == 1 {
        Some((s.last() as u32 - 0x30) as nat)
    } else {
        match digits_value(s.drop_last()) {
            Some(v) => Some(v * 10 + (s.last() as u32 - 0x30) as nat),
            None => None,
        }
    }
}

/// The 32-bit unsigned number that `text` writes: digits, with at most one
/// plus sign before them, of a value that fits; else `None`.
pub open spec fn decimal_u32(text: Seq<char>) -> Option<u32> {
    let digits = if text.len() > 0 && text[0] == '+' {
        text.skip(1)
    } else {
        text
    };
    match digits_value(digits) {
        Some(v) => if v <= u32::MAX {
            Some(v as u32)
        } else {
            None
        },
        None => None,
    }
}

/// Calls std's `u32::from_str` and drops what the error says. The contract
/// states what std documents: the text is an optional plus sign followed by
/// digits only; an empty text, any other character and a value beyond 32
/// bits are errors.
#[verifier::external_body]
fn parse_u32(text: &str) -> (n: Option<u32>)
    ensures
        n == decimal_u32(text@),
{
    let parsed: Result<u32, std::num::ParseIntError> = std::str::FromStr::from_str(text);
    parsed.ok()
}

/// The number in `given`, or `fallback` where nothing is given or it is no
/// number.
pub open spec fn number_or(given: Option<String>, fallback: u32) -> u32 {
    match given {
        Some(text) => match decimal_u32(text@) {
            Some(n) => n,
            None => fallback,
        },
        None => fallback,
    }
}

/// The threshold in `given`: the number it writes where that is a
/// percentage, 0 to 100; the default where nothing is given, where it is no
/// number, and where the number is above 100.
pub open spec fn threshold_of(given: Option<String>) -> u32 {
    if number_or(given, DEFAULT_THRESHOLD) <= MAX_THRESHOLD {
        number_or(given, DEFAULT_THRESHOLD)
    } else {
        DEFAULT_THRESHOLD
    }
}

fn read_number(given: Option<String>, fallback: u32) -> (n: u32)
    ensures
        n == number_or(given, fallback),
{
    match given {
        Some(text) => match parse_u32(text.as_str()) {
            Some(n) => n,
            None => fallback,
        },
        None => fallback,
    }
}

impl Settings {
    /// The settings for the values given on the command line: the directory,
    /// or `.` where none is given; the depth, or 1 where none is given or it
    /// is no number; the threshold, or 0 where none is given or it is no
    /// percentage between 0 and 100.
    pub fn from_values(
        directory: Option<String>,
        nest: Option<String>,
        percent: Option<String>,
    ) -> (settings: Settings)
        ensures
            settings.root@ == match directory {
                Some(d) => d@,
                None => "."@,
            },
            settings.depth == number_or(nest, DEFAULT_DEPTH),
            settings.threshold == threshold_of(percent),
            settings.threshold <= MAX_THRESHOLD,
    {
        let root = match directory {
            Some(d) => d,
            None => String::from_str("."),
        };
        let depth = read_number(nest, DEFAULT_DEPTH);
        let asked = read_number(percent, DEFAULT_THRESHOLD);
        let threshold = if asked <= MAX_THRESHOLD {
            asked
        } else {
            DEFAULT_THRESHOLD
        };
        Settings { root, depth, threshold }
    }
}

} // verus!
