//! Text in the colours of a terminal.

use vstd::prelude::*;

verus! {

/// `s` in bold white.
pub open spec fn bold_white(s: Seq<char>) -> Seq<char> {
    "\u{1b}[1;37m"@ + s + "\u{1b}[0m"@
}

/// `s` in dimmed white.
pub open spec fn dimmed_white(s: Seq<char>) -> Seq<char> {
    "\u{1b}[2;37m"@ + s + "\u{1b}[0m"@
}

/// `s` in bold red.
pub open spec fn bold_red(s: Seq<char>) -> Seq<char> {
    "\u{1b}[1;31m"@ + s + "\u{1b}[0m"@
}

/// What `ansi_term` displays for a text painted with `Color::White.bold()`: the
/// escape sequence for bold (1) and white (37), the text, and the reset sequence.
#[verifier::external_body]
pub(crate) fn paint_bold_white(s: &str) -> (r: String)
    ensures
        r@ == bold_white(s@),
{
    ansi_term::Color::White.bold().paint(s).to_string()
}

/// What `ansi_term` displays for a text painted with `Color::White.dimmed()`: the
/// escape sequence for dimmed (2) and white (37), the text, and the reset
/// sequence.
#[verifier::external_body]
pub(crate) fn paint_dimmed_white(s: &str) -> (r: String)
    ensures
        r@ == dimmed_white(s@),
{
    ansi_term::Color::White.dimmed().paint(s).to_string()
}

/// What `ansi_term` displays for a text painted with `Color::Red.bold()`: the
/// escape sequence for bold (1) and red (31), the text, and the reset sequence.
#[verifier::external_body]
pub(crate) fn paint_bold_red(s: &str) -> (r: String)
    ensures
        r@ == bold_red(s@),
{
    ansi_term::Color::Red.bold().paint(s).to_string()
}

} // verus!
