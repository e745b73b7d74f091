//! Text buffers and terminal colours, as provided by `compact_str` and
//! `owo_colors`.
use compact_str::CompactString;
use owo_colors::{OwoColorize, XtermColors};
use vstd::prelude::*;

verus! {

#[verifier::external_type_specification]
#[verifier::external_body]
pub struct ExCompactString(CompactString);

/// The characters held by a `CompactString`.
pub uninterp spec fn compact_text(c: CompactString) -> Seq<char>;

/// Decimal digits of `n`, most significant first, without leading zeros.
pub open spec fn decimal(n: nat) -> Seq<char>
    decreases n,
{
    if n < 10 {
        seq![digit(n)]
    } else {
        decimal(n / 10).push(digit(n % 10))
    }
}

pub open spec fn digit(d: nat) -> char {
    if d == 0 { '0' }
    else if d == 1 { '1' }
    else if d == 2 { '2' }
    else if d == 3 { '3' }
    else if d == 4 { '4' }
    else if d == 5 { '5' }
    else if d == 6 { '6' }
    else if d == 7 { '7' }
    else if d == 8 { '8' }
    else { '9' }
}

/// The escape sequence that selects xterm foreground colour `n`.
pub open spec fn fg_open(n: u8) -> Seq<char> {
    seq!['\x1b', '[', '3', '8', ';', '5', ';'] + decimal(n as nat) + seq!['m']
}

/// The escape sequence that restores the default foreground colour.
pub open spec fn fg_close() -> Seq<char> {
    seq!['\x1b', '[', '3', '9', 'm']
}

/// Relies on `CompactString::new`: the new string holds exactly the given text.
#[verifier::external_body]
pub(crate) fn compact_new(s: &str) -> (r: CompactString)
    ensures
        compact_text(r) == s@,
{
    CompactString::new(s)
}

/// Relies on `CompactString::push`: appends one character.
#[verifier::external_body]
pub(crate) fn compact_push(c: &mut CompactString, ch: char)
    ensures
        compact_text(*final(c)) == compact_text(*old(c)).push(ch),
{
    c.push(ch)
}

/// Relies on `CompactString::as_str`: the slice holds the string's characters.
#[verifier::external_body]
pub(crate) fn compact_as_str(c: &CompactString) -> (r: &str)
    ensures
        r@ == compact_text(*c),
{
    c.as_str()
}

/// Relies on `From<String> for CompactString`: the characters are kept.
#[verifier::external_body]
pub(crate) fn compact_from_string(s: String) -> (r: CompactString)
    ensures
        compact_text(r) == s@,
{
    CompactString::from(s)
}

/// Relies on `OwoColorize::color` with `XtermColors::from(n)`: its `Display`
/// writes the xterm foreground escape for `n`, the text, then the reset escape.
#[verifier::external_body]
pub(crate) fn paint_fg(s: &str, n: u8) -> (r: String)
    ensures
        r@ == fg_open(n) + s@ + fg_close(),
{
    s.color(XtermColors::from(n)).to_string()
}

} // verus!
