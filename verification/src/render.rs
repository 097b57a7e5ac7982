//! The text that a value is written as.

use vstd::prelude::*;
use crate::value::Json;

verus! {

/// The number of columns by which the members of an object stand further in
/// than the object itself.
pub const INDENT_STEP: u16 = 4;

/// `n` spaces.
pub open spec fn spaces(n: nat) -> Seq<char> {
    Seq::new(n, |i: int| ' ')
}

/// The letter that stands behind a backslash for `c`, if `c` is written as
/// an escape: the quote and the backslash, which could not stand between
/// quotes as they are, and the line break, the backspace, the form feed,
/// the carriage return and the tab.
pub open spec fn escape_letter(c: char) -> Option<char> {
    if c == '"' || c == '\\' {
        Some(c)
    } else if c == '\n' {
        Some('n')
    } else if c == '\x08' {
        Some('b')
    } else if c == '\x0C' {
        Some('f')
    } else if c == '\r' {
        Some('r')
    } else if c == '\t' {
        Some('t')
    } else {
        None
    }
}

/// The characters of `s` from `from` on as they stand between quotes:
/// each as itself, or as a backslash and its letter.
pub open spec fn escaped(s: Seq<char>, from: int) -> Seq<char>
    decreases s.len() - from,
{
    if from < 0 || from >= s.len() {
        Seq::empty()
    } else {
        (match escape_letter(s[from]) {
            Some(letter) => seq!['\\', letter],
            None => seq![s[from]],
        }) + escaped(s, from + 1)
    }
}

/// `s` between two quotes, escaped where it must be.
pub open spec fn quoted(s: Seq<char>) -> Seq<char> {
    seq!['"'] + escaped(s, 0) + seq!['"']
}

/// The text of a truth value.
pub open spec fn bool_text(b: bool) -> Seq<char> {
    if b {
        "true"@
    } else {
        "false"@
    }
}

/// One member as it stands in its object: indentation, the key in quotes,
/// a colon and a space, the value, a comma and a line break.
pub open spec fn member_line(member: (Seq<char>, Json), indentation: nat) -> Seq<char>
    decreases member.1, 1nat,
{
    spaces(indentation) + quoted(member.0) + seq![':', ' '] + json_text(member.1, indentation)
        + seq![',', '\n']
}

/// The lines of the first `upto` members, each with its comma and line break.
pub open spec fn member_lines(members: Seq<(Seq<char>, Json)>, indentation: nat, upto: nat) -> Seq<
    char,
>
    decreases members, upto,
{
    if upto == 0 || upto > members.len() {
        Seq::empty()
    } else {
        member_lines(members, indentation, (upto - 1) as nat) + member_line(
            members[upto - 1],
            indentation,
        )
    }
}

/// The first `upto` elements, each followed by a comma and a space.
pub open spec fn item_runs(items: Seq<Json>, indentation: nat, upto: nat) -> Seq<char>
    decreases items, upto,
{
    if upto == 0 || upto > items.len() {
        Seq::empty()
    } else {
        item_runs(items, indentation, (upto - 1) as nat) + json_text(items[upto - 1], indentation)
            + seq![',', ' ']
    }
}

/// The text of a value that stands `indentation` columns in.
///
/// An object opens with a brace and a line break; its members follow, one
/// per line and `INDENT_STEP` columns further in; the comma behind the last
/// member is left out, and the closing brace stands on a line of its own at
/// the object's indentation. An object without members is `{}`. An array
/// stands on one line, its elements parted by a comma and a space.
pub open spec fn json_text(value: Json, indentation: nat) -> Seq<char>
    decreases value, 0nat,
{
    match value {
        Json::String(s) => quoted(s),
        Json::Number(n) => n.text(),
        Json::Boolean(b) => bool_text(b),
        Json::Null => "null"@,
        Json::Array(items) => {
            if items.len() == 0 {
                seq!['[', ']']
            } else {
                let runs = item_runs(items, indentation, items.len());
                seq!['['] + runs.take(runs.len() - 2) + seq![']']
            }
        },
        Json::Object(members) => {
            if members.len() == 0 {
                seq!['{', '}']
            } else {
                let lines = member_lines(members, indentation + INDENT_STEP as nat, members.len());
                seq!['{', '\n'] + lines.take(lines.len() - 2) + seq!['\n'] + spaces(indentation)
                    + seq!['}']
            }
        },
    }
}

} // verus!
