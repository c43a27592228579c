//! Colouring text for a terminal, through the `colored` crate.
use colored::Colorize;
use vstd::prelude::*;

verus! {

/// The escape character that starts a terminal style code.
pub open spec fn esc() -> char {
    '\u{1b}'
}

/// The code that restores the default style.
pub open spec fn reset_code() -> Seq<char> {
    seq![esc(), '[', '0', 'm']
}

/// The code that sets the foreground colour numbered `3d`.
pub open spec fn fg_code(d: char) -> Seq<char> {
    seq![esc(), '[', '3', d, 'm']
}

/// The text with the style code `st` put back after each reset code in
/// it, so that the colour goes on after a reset inside the text.
pub open spec fn escape_resets(t: Seq<char>, st: Seq<char>) -> Seq<char>
    decreases t.len(),
{
    if t.len() == 0 {
        t
    } else if t.len() >= 4 && t.take(4) == reset_code() {
        reset_code() + st + escape_resets(t.skip(4), st)
    } else {
        seq![t[0]] + escape_resets(t.skip(1), st)
    }
}

/// A colouring of `text` in the colour `3d`: the text itself when
/// colouring is off; when it is on, the colour code, the text with the
/// colour code put back after each reset code inside it, and the reset
/// code.
pub open spec fn is_painting(r: Seq<char>, text: Seq<char>, d: char) -> bool {
    r == text || r == fg_code(d) + escape_resets(text, fg_code(d)) + reset_code()
}

/// `colored::Colorize::red`, then `Display`. Whether colours are written
/// depends on the process's environment, terminal and overrides, so the
/// contract allows both outcomes; when they are, reset codes inside the
/// text are followed by the colour code again.
#[verifier::external_body]
pub(crate) fn paint_red(text: &str) -> (r: String)
    ensures
        is_painting(r@, text@, '1'),
{
    text.red().to_string()
}

/// `colored::Colorize::green`, then `Display`; as `paint_red`, with the
/// colour code of green.
#[verifier::external_body]
pub(crate) fn paint_green(text: &str) -> (r: String)
    ensures
        is_painting(r@, text@, '2'),
{
    text.green().to_string()
}

/// `colored::Colorize::yellow`, then `Display`; as `paint_red`, with the
/// colour code of yellow.
#[verifier::external_body]
pub(crate) fn paint_yellow(text: &str) -> (r: String)
    ensures
        is_painting(r@, text@, '3'),
{
    text.yellow().to_string()
}

} // verus!
