//! Colours and styles of the terminal.

use crate::text::replaced_from;
use colored::Colorize;
use vstd::prelude::*;

verus! {

/// The colours in use.
#[derive(Clone, Copy, Debug, PartialEq, Eq, Structural)]
pub enum Paint {
    Green,
    BrightBlack,
    Magenta,
    Yellow,
    Blue,
    BrightRed,
}

impl Paint {
    /// The number of the colour in an escape sequence.
    pub open spec fn code(self) -> Seq<char> {
        match self {
            Paint::Green => "32"@,
            Paint::BrightBlack => "90"@,
            Paint::Magenta => "35"@,
            Paint::Yellow => "33"@,
            Paint::Blue => "34"@,
            Paint::BrightRed => "91"@,
        }
    }
}

/// The escape sequence that switches a colour or style on.
pub open spec fn opening(code: Seq<char>) -> Seq<char> {
    "\x1b["@ + code + "m"@
}

/// `text` in a colour or style where the terminal takes it (`on`), and `text` itself elsewhere.
/// Behind each reset within the text the style is switched on again.
pub open spec fn painted(code: Seq<char>, text: Seq<char>, on: bool) -> Seq<char> {
    if on {
        opening(code) + replaced_from(text, "\x1b[0m"@, "\x1b[0m"@ + opening(code), 0) + "\x1b[0m"@
    } else {
        text
    }
}

/// `colored::Colorize::color`: escape sequences around the text, or the text alone, as the
/// process has colours switched on or off.
#[verifier::external_body]
pub(crate) fn color(text: &str, paint: Paint) -> (r: String)
    ensures
        exists|on: bool| r@ == #[trigger] painted(paint.code(), text@, on),
{
    let color = match paint {
        Paint::Green => colored::Color::Green,
        Paint::BrightBlack => colored::Color::BrightBlack,
        Paint::Magenta => colored::Color::Magenta,
        Paint::Yellow => colored::Color::Yellow,
        Paint::Blue => colored::Color::Blue,
        Paint::BrightRed => colored::Color::BrightRed,
    };
    text.color(color).to_string()
}

/// `colored::Colorize::dimmed`: escape sequences around the text, or the text alone, as the
/// process has colours switched on or off.
#[verifier::external_body]
pub(crate) fn dimmed(text: &str) -> (r: String)
    ensures
        exists|on: bool| r@ == #[trigger] painted("2"@, text@, on),
{
    text.dimmed().to_string()
}

/// `colored::Colorize::bold`: escape sequences around the text, or the text alone, as the
/// process has colours switched on or off.
#[verifier::external_body]
pub(crate) fn bold(text: &str) -> (r: String)
    ensures
        exists|on: bool| r@ == #[trigger] painted("1"@, text@, on),
{
    text.bold().to_string()
}

/// `colored::Colorize::italic`: escape sequences around the text, or the text alone, as the
/// process has colours switched on or off.
#[verifier::external_body]
pub(crate) fn italic(text: &str) -> (r: String)
    ensures
        exists|on: bool| r@ == #[trigger] painted("3"@, text@, on),
{
    text.italic().to_string()
}

} // verus!
