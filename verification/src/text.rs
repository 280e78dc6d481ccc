//! The pieces of a report line: decimal numbers, blanks, and the size column.

use humansize::FileSize;
use pad::PadStr;
use vstd::prelude::*;
use vstd::string::*;

verus! {

/// `n` blanks.
pub open spec fn blanks(n: nat) -> Seq<char>
    decreases n,
{
    if n == 0 {
        Seq::empty()
    } else {
        blanks((n - 1) as nat) + " "@
    }
}

/// `s` with blanks in front of it up to `width` characters; `s` itself where
/// it is that long already.
pub open spec fn pad_left(s: Seq<char>, width: nat) -> Seq<char> {
    if s.len() >= width {
        s
    } else {
        blanks((width - s.len()) as nat) + s
    }
}

/// `s` with blanks behind it up to `width` characters.
pub open spec fn pad_right(s: Seq<char>, width: nat) -> Seq<char> {
    if s.len() >= width {
        s
    } else {
        s + blanks((width - s.len()) as nat)
    }
}

/// The decimal digit `d`.
pub open spec fn digit_text(d: nat) -> Seq<char> {
    if d == 0 {
        "0"@
    } else if d == 1 {
        "1"@
    } else if d == 2 {
        "2"@
    } else if d == 3 {
        "3"@
    } else if d == 4 {
        "4"@
    } else if d == 5 {
        "5"@
    } else if d == 6 {
        "6"@
    } else if d == 7 {
        "7"@
    } else if d == 8 {
        "8"@
    } else {
        "9"@
    }
}

/// `n` in decimal, without leading zeros.
pub open spec fn decimal_text(n: nat) -> Seq<char>
    decreases n,
{
    if n < 10 {
        digit_text(n)
    } else {
        decimal_text(n / 10) + digit_text(n % 10)
    }
}

/// Two blanks for each level of `depth`.
pub open spec fn indent_text(depth: nat) -> Seq<char>
    decreases depth,
{
    if depth == 0 {
        Seq::empty()
    } else {
        indent_text((depth - 1) as nat) + "  "@
    }
}

/// Every character of `s` is a printable ASCII character, blank to tilde.
pub open spec fn printable(s: Seq<char>) -> bool {
    forall|i: int| 0 <= i < s.len() ==> 0x20 <= #[trigger] (s[i] as u32) <= 0x7e
}

/// The text that humansize gives for `n` bytes with its decimal options
/// (powers of 1000, units B, KB, MB and so on).
pub uninterp spec fn decimal_size_text(n: u64) -> Seq<char>;

/// The size column of a report line: the decimal size text of `n`, right
/// aligned in ten characters.
pub open spec fn size_column(n: u64) -> Seq<char> {
    pad_left(decimal_size_text(n), 10)
}

/// Calls humansize's `FileSize::file_size` on a `u64` with
/// `file_size_opts::DECIMAL`. The contract names the text and claims that it
/// is printable ASCII: it is made of a formatted non-negative number, one
/// blank and a unit out of a fixed table. For an unsigned number the call
/// never returns the error.
#[verifier::external_body]
pub(crate) fn decimal_size(n: u64) -> (text: String)
    ensures
        text@ == decimal_size_text(n),
        printable(text@),
{
    match n.file_size(humansize::file_size_opts::DECIMAL) {
        Ok(text) => text,
        Err(message) => message,
    }
}

/// Calls pad's `PadStr::pad_to_width_with_alignment` with `Alignment::Right`.
/// The crate measures the text in display columns; of printable ASCII, where
/// each character takes one column, the contract claims that the text comes
/// back with blanks in front up to `width` characters, or unchanged where it
/// is that wide already. Of other text it claims nothing.
#[verifier::external_body]
pub(crate) fn right_aligned(text: &str, width: usize) -> (out: String)
    ensures
        printable(text@) ==> out@ == pad_left(text@, width as nat),
{
    text.pad_to_width_with_alignment(width, pad::Alignment::Right)
}

/// A string of `n` blanks.
pub fn blank_string(n: usize) -> (out: String)
    ensures
        out@ == blanks(n as nat),
{
    let mut out = String::new();
    let mut i: usize = 0;
    while i < n
        invariant
            i <= n,
            out@ == blanks(i as nat),
        decreases n - i,
    {
        out.append(" ");
        i += 1;
    }
    out
}

/// The indentation of a line at `depth`.
pub fn indent(depth: u32) -> (out: String)
    ensures
        out@ == indent_text(depth as nat),
{
    let mut out = String::new();
    let mut i: u32 = 0;
    while i < depth
        invariant
            i <= depth,
            out@ == indent_text(i as nat),
        decreases depth - i,
    {
        out.append("  ");
        i += 1;
    }
    out
}

fn digit(d: u32) -> (out: &'static str)
    requires
        d < 10,
    ensures
        out@ == digit_text(d as nat),
{
    match d {
        0 => "0",
        1 => "1",
        2 => "2",
        3 => "3",
        4 => "4",
        5 => "5",
        6 => "6",
        7 => "7",
        8 => "8",
        _ => "9",
    }
}

/// `n` written in decimal.
pub fn decimal(n: u32) -> (out: String)
    ensures
        out@ == decimal_text(n as nat),
    decreases n,
{
    if n < 10 {
        String::from_str(digit(n))
    } else {
        let mut out = decimal(n / 10);
        out.append(digit(n % 10));
        out
    }
}

/// `n` in decimal, right aligned in `width` characters.
pub fn decimal_padded(n: u32, width: usize) -> (out: String)
    ensures
        out@ == pad_left(decimal_text(n as nat), width as nat),
{
    let digits = decimal(n);
    let len = digits.as_str().unicode_len();
    if len >= width {
        digits
    } else {
        let mut out = blank_string(width - len);
        out.append(digits.as_str());
        out
    }
}

/// `text` with blanks behind it up to `width` characters.
pub fn left_aligned(text: &str, width: usize) -> (out: String)
    ensures
        out@ == pad_right(text@, width as nat),
{
    let len = text.unicode_len();
    let mut out = String::from_str(text);
    if len < width {
        let fill = blank_string(width - len);
        out.append(fill.as_str());
    }
    out
}

/// The size column for `n` bytes.
pub fn size_text(n: u64) -> (out: String)
    ensures
        out@ == size_column(n),
{
    let text = decimal_size(n);
    right_aligned(text.as_str(), 10)
}

} // verus!
