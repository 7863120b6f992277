//! The line that answers a command on a terminal or a connection.

use crate::text::reply_text;
use ansi_term::Colour::Red;
use vstd::prelude::*;
use vstd::string::StringExecFns;

verus! {

/// The escape sequence that turns bold red on.
pub open spec fn bold_red() -> Seq<char> {
    "\u{1b}[1;31m"@
}

/// The escape sequence that turns every style off.
pub open spec fn reset() -> Seq<char> {
    "\u{1b}[0m"@
}

/// `ansi_term`'s `Colour::Red.bold().paint(..)`, written out with
/// `to_string`: the text as it stands, after the escape sequence for bold
/// red and before the one that resets the style.
#[verifier::external_body]
fn paint_error(message: &str) -> (painted: String)
    ensures
        painted@ == bold_red() + message@ + reset(),
{
    Red.bold().paint(message).to_string()
}

/// The line for a reply: the text of a result as it stands, the message of
/// an error in bold red after the mark for errors.
pub open spec fn rendered(reply: Result<Seq<char>, Seq<char>>) -> Seq<char> {
    match reply {
        Ok(text) => text,
        Err(message) => "(error) "@ + (bold_red() + message + reset()),
    }
}

/// Renders a reply as the line that is shown or sent.
pub fn render(reply: &Result<String, String>) -> (line: String)
    ensures
        line@ == rendered(reply_text(*reply)),
{
    match reply {
        Ok(text) => text.clone(),
        Err(message) => {
            let painted = paint_error(message.as_str());
            "(error) ".to_owned().concat(painted.as_str())
        },
    }
}

} // verus!
