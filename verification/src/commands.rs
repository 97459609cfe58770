//! The slash-command reader: which action an input line asks for. Carrying
//! the action out — printing, broadcasting, quitting — happens outside the
//! library.

use vstd::prelude::*;
use vstd::string::StrSliceExecFns;
use crate::text::str_eq;

verus! {

/// The action an input line asks for.
#[derive(PartialEq, Eq, Structural, Clone, Copy, Debug)]
pub enum Command {
    Peers,
    Quit,
    Help,
    Broadcast,
    Version,
    Tips,
    State,
    Unknown,
    NotCommand,
}

/// Names what str's `char::is_whitespace` holds of a character: the Unicode
/// white-space property, a fact of the character alone.
pub uninterp spec fn is_white(c: char) -> bool;

/// Relies on char::is_whitespace: whether the character has the Unicode
/// white-space property.
#[verifier::external_body]
fn char_is_whitespace(c: char) -> (r: bool)
    ensures
        r == is_white(c),
{
    c.is_whitespace()
}

/// Length of the run of white-space characters at `i`.
pub open spec fn white_run_len(s: Seq<char>, i: int) -> int
    decreases s.len() - i,
{
    if 0 <= i < s.len() && is_white(s[i]) {
        1 + white_run_len(s, i + 1)
    } else {
        0
    }
}

/// Length of the run of non-white characters at `i`.
pub open spec fn word_run_len(s: Seq<char>, i: int) -> int
    decreases s.len() - i,
{
    if 0 <= i < s.len() && !is_white(s[i]) {
        1 + word_run_len(s, i + 1)
    } else {
        0
    }
}

/// The first white-space-separated token of `s` (empty if there is none).
pub open spec fn first_token(s: Seq<char>) -> Seq<char> {
    let a = white_run_len(s, 0);
    s.subrange(a, a + word_run_len(s, a))
}

/// The command the first token of an input line names. A line whose first
/// token is no known command is `Unknown` when the line starts with a
/// slash, and no command at all — ordinary chat input — otherwise.
pub open spec fn spec_command(s: Seq<char>) -> Command {
    let t = first_token(s);
    if t == "/peers"@ || t == "/p"@ {
        Command::Peers
    } else if t == "/quit"@ || t == "/q"@ {
        Command::Quit
    } else if t == "/help"@ || t == "/h"@ {
        Command::Help
    } else if t == "/broadcast"@ || t == "/b"@ {
        Command::Broadcast
    } else if t == "/version"@ || t == "/v"@ {
        Command::Version
    } else if t == "/tips"@ || t == "/t"@ {
        Command::Tips
    } else if t == "/state"@ || t == "/s"@ {
        Command::State
    } else if s.len() > 0 && s[0] == '/' {
        Command::Unknown
    } else {
        Command::NotCommand
    }
}

/// Reads which command an input line asks for.
pub fn handle_command(input_line: &str) -> (r: Command)
    ensures
        r == spec_command(input_line@),
{
    let len = input_line.unicode_len();
    let mut a: usize = 0;
    while a < len && char_is_whitespace(input_line.get_char(a))
        invariant
            0 <= a <= len,
            len == input_line@.len(),
            white_run_len(input_line@, 0) == a + white_run_len(input_line@, a as int),
        decreases len - a,
    {
        a = a + 1;
    }
    let mut b = a;
    while b < len && !char_is_whitespace(input_line.get_char(b))
        invariant
            a <= b <= len,
            len == input_line@.len(),
            word_run_len(input_line@, a as int) == (b - a) + word_run_len(input_line@, b as int),
        decreases len - b,
    {
        b = b + 1;
    }
    proof {
        assert(white_run_len(input_line@, a as int) == 0);
        assert(word_run_len(input_line@, b as int) == 0);
    }
    let token = input_line.substring_char(a, b);
    proof {
        assert(token@ == first_token(input_line@));
    }
    if str_eq(token, "/peers") || str_eq(token, "/p") {
        Command::Peers
    } else if str_eq(token, "/quit") || str_eq(token, "/q") {
        Command::Quit
    } else if str_eq(token, "/help") || str_eq(token, "/h") {
        Command::Help
    } else if str_eq(token, "/broadcast") || str_eq(token, "/b") {
        Command::Broadcast
    } else if str_eq(token, "/version") || str_eq(token, "/v") {
        Command::Version
    } else if str_eq(token, "/tips") || str_eq(token, "/t") {
        Command::Tips
    } else if str_eq(token, "/state") || str_eq(token, "/s") {
        Command::State
    } else if len > 0 && input_line.get_char(0) == '/' {
        Command::Unknown
    } else {
        Command::NotCommand
    }
}

} // verus!
