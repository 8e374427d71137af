//! Diagnostics: the line of text that reports an error in a source.

use vstd::prelude::*;
use vstd::string::StringExecFns;

verus! {

/// An error to report: where it was found and what to say of it.
#[derive(Debug, PartialEq, Eq)]
pub struct Error {
    pub line: u32,
    pub position_in_string: String,
    pub message: String,
}

/// The character that stands for the digit `d`.
pub open spec fn digit_char(d: nat) -> char
    recommends
        d < 10,
{
    (('0' as u8 + d) as u8) as char
}

/// `n` written in decimal, without leading zeros.
pub open spec fn decimal(n: nat) -> Seq<char>
    decreases n,
{
    if n < 10 {
        seq![digit_char(n)]
    } else {
        decimal(n / 10).push(digit_char(n % 10))
    }
}

/// The line that reports an error: `[line L] Error P: M`, with the line
/// number in decimal.
pub open spec fn report_line(line: u32, position: Seq<char>, message: Seq<char>) -> Seq<char> {
    "[line "@ + decimal(line as nat) + "] Error "@ + position + ": "@ + message
}

/// The digit `d` as text.
fn digit_text(d: u32) -> (text: &'static str)
    requires
        d < 10,
    ensures
        text@ == seq![digit_char(d as nat)],
{
    proof {
        reveal_strlit("0");
        reveal_strlit("1");
        reveal_strlit("2");
        reveal_strlit("3");
        reveal_strlit("4");
        reveal_strlit("5");
        reveal_strlit("6");
        reveal_strlit("7");
        reveal_strlit("8");
        reveal_strlit("9");
    }
    let text = if d == 0 {
        "0"
    } else if d == 1 {
        "1"
    } else if d == 2 {
        "2"
    } else if d == 3 {
        "3"
    } else if d == 4 {
        "4"
    } else if d == 5 {
        "5"
    } else if d == 6 {
        "6"
    } else if d == 7 {
        "7"
    } else if d == 8 {
        "8"
    } else {
        "9"
    };
    assert(text@ =~= seq![digit_char(d as nat)]);
    text
}

/// Appends `n` in decimal to `text`.
fn push_decimal(text: &mut String, n: u32)
    ensures
        final(text)@ == old(text)@ + decimal(n as nat),
    decreases n,
{
    if n >= 10 {
        push_decimal(text, n / 10);
    }
    text.append(digit_text(n % 10));
    assert(text@ =~= old(text)@ + decimal(n as nat));
}

/// The line that reports `message` for `line`, with no position marker.
pub fn error(line: u32, message: &str) -> (text: String)
    ensures
        text@ == report_line(line, Seq::empty(), message@),
{
    proof {
        reveal_strlit("");
    }
    let text = report(
        Error { line, position_in_string: "".to_owned(), message: message.to_owned() },
    );
    assert(text@ =~= report_line(line, Seq::empty(), message@));
    text
}

/// The line that reports `error`.
pub fn report(error: Error) -> (text: String)
    ensures
        text@ == report_line(error.line, error.position_in_string@, error.message@),
{
    let Error { line, position_in_string, message } = error;
    let mut text = "[line ".to_owned();
    push_decimal(&mut text, line);
    text.append("] Error ");
    text.append(position_in_string.as_str());
    text.append(": ");
    text.append(message.as_str());
    text
}

} // verus!
