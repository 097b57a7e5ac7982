//! Writing a value tree as text.

use vstd::prelude::*;
use vstd::string::StringExecFns;
use crate::render::{
    escape_letter, escaped, item_runs, json_text, member_line, member_lines, quoted, spaces,
    INDENT_STEP,
};
use crate::text::{cow_str, pop_char, push_char};
use crate::bounds::{lemma_items_nesting_at_most, lemma_members_nesting_at_most};
use crate::value::{Json, Value};

verus! {

/// Appends `amount` spaces to `s`.
pub fn indent(s: &mut String, amount: u16)
    ensures
        final(s)@ == old(s)@ + spaces(amount as nat),
{
    let mut i: u16 = 0;
    while i < amount
        invariant
            i <= amount,
            s@ == old(s)@ + spaces(i as nat),
        decreases amount - i,
    {
        push_char(s, ' ');
        assert(s@ =~= old(s)@ + spaces((i + 1) as nat));
        i += 1;
    }
}

/// The letter that stands behind a backslash for `c`, if `c` is written as
/// an escape.
pub fn escape_letter_of(c: char) -> (r: Option<char>)
    ensures
        r == escape_letter(c),
{
    if c == '"' || c == '\\' {
        Some(c)
    } else if c == '\n' {
        Some('n')
    } else if c == '\x08' {
        Some('b')
    } else if c == '\x0C' {
        Some('f')
    } else if c == '\r' {
        Some('r')
    } else if c == '\t' {
        Some('t')
    } else {
        None
    }
}

/// Appends `text` between two quotes to `s`, escaped where it must be.
pub fn push_quoted(s: &mut String, text: &str)
    ensures
        final(s)@ == old(s)@ + quoted(text@),
{
    push_char(s, '"');
    let ghost base = s@;
    for c in it: text.chars()
        invariant
            it.seq() == text@,
            s@ + escaped(text@, it.index() as int) == base + escaped(text@, 0),
    {
        let ghost before = s@;
        let ghost i = it.index() as int;
        match escape_letter_of(c) {
            Some(letter) => {
                push_char(s, '\\');
                push_char(s, letter);
                assert(s@ + escaped(text@, i + 1) =~= before + (seq!['\\', letter] + escaped(
                    text@,
                    i + 1,
                )));
            },
            None => {
                push_char(s, c);
                assert(s@ + escaped(text@, i + 1) =~= before + (seq![c] + escaped(text@, i + 1)));
            },
        }
    }
    assert(s@ =~= base + escaped(text@, 0));
    push_char(s, '"');
    assert(s@ =~= old(s)@ + quoted(text@));
}

/// No value among the first `upto` members nests deeper than they do together.
pub proof fn lemma_members_nesting(members: Seq<(Seq<char>, Json)>, upto: nat, i: int)
    requires
        0 <= i < upto <= members.len(),
    ensures
        members[i].1.nesting() <= Json::members_nesting(members, upto),
    decreases upto,
{
    if i < upto - 1 {
        lemma_members_nesting(members, (upto - 1) as nat, i);
    }
}

/// No element among the first `upto` nests deeper than they do together.
pub proof fn lemma_items_nesting(items: Seq<Json>, upto: nat, i: int)
    requires
        0 <= i < upto <= items.len(),
    ensures
        items[i].nesting() <= Json::items_nesting(items, upto),
    decreases upto,
{
    if i < upto - 1 {
        lemma_items_nesting(items, (upto - 1) as nat, i);
    }
}

/// Appends the text of `value` to `s`, `indentation` being the column at
/// which the value stands.
pub fn encode_value(s: &mut String, indentation: u16, value: &Value)
    requires
        indentation + INDENT_STEP * value@.nesting() <= u16::MAX,
    ensures
        final(s)@ == old(s)@ + json_text(value@, indentation as nat),
    decreases value,
{
    match value {
        Value::Object(members) => {
            let ghost model = value@->Object_0;
            push_char(s, '{');
            push_char(s, '\n');
            let inner: u16 = indentation + INDENT_STEP;
            let ghost base = s@;
            let mut i: usize = 0;
            while i < members.len()
                invariant
                    i <= members.len(),
                    value@ == Json::Object(model),
                    model.len() == members@.len(),
                    forall|k: int|
                        0 <= k < members@.len() ==> (#[trigger] model[k]) == (
                            members@[k].0@,
                            members@[k].1@,
                        ),
                    *value == Value::Object(*members),
                    inner == indentation + INDENT_STEP,
                    indentation + INDENT_STEP * value@.nesting() <= u16::MAX,
                    s@ == base + member_lines(model, inner as nat, i as nat),
                decreases members.len() - i,
            {
                proof {
                    lemma_members_nesting(model, model.len(), i as int);
                    assert(INDENT_STEP * model[i as int].1.nesting() <= INDENT_STEP * (
                    value@.nesting() - 1)) by (nonlinear_arith)
                        requires
                            model[i as int].1.nesting() <= value@.nesting() - 1,
                    ;
                }
                let ghost before = s@;
                indent(s, inner);
                push_quoted(s, cow_str(&members[i].0));
                push_char(s, ':');
                push_char(s, ' ');
                encode_value(s, inner, &members[i].1);
                push_char(s, ',');
                push_char(s, '\n');
                assert(s@ =~= before + member_line(model[i as int], inner as nat));
                i += 1;
            }
            pop_char(s);
            if members.len() > 0 {
                pop_char(s);
                push_char(s, '\n');
                indent(s, indentation);
                let ghost lines = member_lines(model, inner as nat, model.len());
                assert(member_line(model[model.len() - 1], inner as nat).len() >= 2);
                assert(lines.len() >= 2);
                assert((base + lines).drop_last().drop_last() =~= base + lines.take(lines.len() - 2));
            } else {
                assert(s@ =~= old(s)@ + seq!['{']);
            }
            push_char(s, '}');
            assert(s@ =~= old(s)@ + json_text(value@, indentation as nat));
        },
        Value::Array(values) => {
            let ghost model = value@->Array_0;
            push_char(s, '[');
            let ghost base = s@;
            let mut i: usize = 0;
            while i < values.len()
                invariant
                    i <= values.len(),
                    value@ == Json::Array(model),
                    model.len() == values@.len(),
                    forall|k: int| 0 <= k < values@.len() ==> (#[trigger] model[k]) == values@[k]@,
                    *value == Value::Array(*values),
                    indentation + INDENT_STEP * value@.nesting() <= u16::MAX,
                    s@ == base + item_runs(model, indentation as nat, i as nat),
                decreases values.len() - i,
            {
                proof {
                    lemma_items_nesting(model, model.len(), i as int);
                    assert(INDENT_STEP * model[i as int].nesting() <= INDENT_STEP * value@.nesting())
                        by (nonlinear_arith)
                        requires
                            model[i as int].nesting() <= value@.nesting(),
                    ;
                }
                let ghost before = s@;
                encode_value(s, indentation, &values[i]);
                push_char(s, ',');
                push_char(s, ' ');
                assert(s@ =~= before + json_text(model[i as int], indentation as nat) + seq![
                    ',',
                    ' ',
                ]);
                i += 1;
            }
            if values.len() > 0 {
                pop_char(s);
                pop_char(s);
                let ghost runs = item_runs(model, indentation as nat, model.len());
                assert(runs.len() >= 2);
                assert((base + runs).drop_last().drop_last() =~= base + runs.take(runs.len() - 2));
            }
            push_char(s, ']');
            assert(s@ =~= old(s)@ + json_text(value@, indentation as nat));
        },
        Value::String(text) => {
            push_quoted(s, cow_str(text));
        },
        Value::Number(n) => {
            n.write_to(s);
        },
        Value::Boolean(true) => {
            s.append("true");
        },
        Value::Boolean(false) => {
            s.append("false");
        },
        Value::Null => {
            s.append("null");
        },
    }
}

/// Whether `value` nests no deeper than `limit`.
pub fn nests_within(value: &Value, limit: usize) -> (r: bool)
    ensures
        r == (value@.nesting() <= limit),
    decreases value,
{
    match value {
        Value::Object(members) => {
            let ghost model = value@->Object_0;
            if limit == 0 {
                return false;
            }
            let mut i: usize = 0;
            while i < members.len()
                invariant
                    i <= members.len(),
                    limit >= 1,
                    *value == Value::Object(*members),
                    value@ == Json::Object(model),
                    model.len() == members@.len(),
                    forall|k: int| 0 <= k < i ==> (#[trigger] model[k]).1.nesting() <= limit - 1,
                decreases members.len() - i,
            {
                assert(model[i as int].1 == members@[i as int].1@);
                if !nests_within(&members[i].1, limit - 1) {
                    proof {
                        lemma_members_nesting(model, model.len(), i as int);
                    }
                    return false;
                }
                i += 1;
            }
            proof {
                lemma_members_nesting_at_most(model, model.len(), (limit - 1) as nat);
            }
            true
        },
        Value::Array(items) => {
            let ghost model = value@->Array_0;
            if limit == 0 {
                return false;
            }
            let mut i: usize = 0;
            while i < items.len()
                invariant
                    i <= items.len(),
                    limit >= 1,
                    *value == Value::Array(*items),
                    value@ == Json::Array(model),
                    model.len() == items@.len(),
                    forall|k: int| 0 <= k < i ==> (#[trigger] model[k]).nesting() <= limit - 1,
                decreases items.len() - i,
            {
                assert(model[i as int] == items@[i as int]@);
                if !nests_within(&items[i], limit - 1) {
                    proof {
                        lemma_items_nesting(model, model.len(), i as int);
                    }
                    return false;
                }
                i += 1;
            }
            proof {
                lemma_items_nesting_at_most(model, model.len(), (limit - 1) as nat);
            }
            true
        },
        _ => true,
    }
}

/// The greatest nesting that can be written: each level stands
/// `INDENT_STEP` columns further in, and the columns are counted in a `u16`.
pub const MAX_NESTING: usize = 16383;

/// The text of `value`, or `None` where the value nests deeper than
/// `MAX_NESTING`.
pub fn to_string(value: &Value) -> (r: Option<String>)
    ensures
        r is Some <==> value@.nesting() <= MAX_NESTING,
        r matches Some(text) ==> text@ == json_text(value@, 0),
{
    if !nests_within(value, MAX_NESTING) {
        return None;
    }
    let mut s = String::new();
    encode_value(&mut s, 0, value);
    assert(s@ =~= json_text(value@, 0));
    Some(s)
}

} // verus!
