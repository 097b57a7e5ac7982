//! The text format as a serializer.

use vstd::prelude::*;
use vstd::string::StringExecFns;
use crate::number::{Number, NumberModel};
use crate::render::{
    bool_text, item_runs, json_text, member_line, member_lines, quoted, spaces, INDENT_STEP,
};
use crate::serialize_trait::{
    write_items, write_members, write_value, ArraySerializer, AsArraySerializer,
    AsObjectSerializer, ObjectSerializer, Serialize, Serializer,
};
use crate::text::{pop_char, push_char};
use crate::to_string::{indent, lemma_items_nesting, lemma_members_nesting, push_quoted};
use crate::value::Json;

verus! {

/// What a [`JSONSerializer`] has written, and the column at which what it
/// writes next stands.
pub struct JsonState {
    pub text: Seq<char>,
    pub indentation: nat,
}

/// The indentation one level further in. It stops at the greatest column.
pub open spec fn deeper(indentation: nat) -> nat {
    if indentation + INDENT_STEP > u16::MAX {
        u16::MAX as nat
    } else {
        indentation + INDENT_STEP as nat
    }
}

/// The indentation one level further out. It stops at the first column.
pub open spec fn shallower(indentation: nat) -> nat {
    if indentation < INDENT_STEP {
        0
    } else {
        (indentation - INDENT_STEP) as nat
    }
}

/// `state` with `text` written behind what it holds.
pub open spec fn appended(state: JsonState, text: Seq<char>) -> JsonState {
    JsonState { text: state.text + text, indentation: state.indentation }
}

/// The closing of an object. Where a property was written last, the comma
/// and the line break behind it give way to a line break and the closing
/// brace at the object's own indentation; else the one character written
/// last, the line break behind the opening brace, gives way to the brace.
pub open spec fn object_closed(state: JsonState) -> JsonState {
    let t = state.text;
    let indentation = shallower(state.indentation);
    if t.len() >= 2 && t[t.len() - 2] == ',' {
        JsonState {
            text: t.take(t.len() - 2) + seq!['\n'] + spaces(indentation) + seq!['}'],
            indentation,
        }
    } else if t.len() >= 1 {
        JsonState { text: t.drop_last() + seq!['}'], indentation }
    } else {
        JsonState { text: seq!['}'], indentation }
    }
}

/// The closing of an array. Where an element was written last, the comma
/// and the space behind it give way to the closing bracket.
pub open spec fn array_closed(state: JsonState) -> JsonState {
    let t = state.text;
    if t.len() >= 2 && t[t.len() - 2] == ',' && t[t.len() - 1] == ' ' {
        JsonState { text: t.take(t.len() - 2) + seq![']'], indentation: state.indentation }
    } else {
        appended(state, seq![']'])
    }
}

/// A serializer that writes text, the members of an object one per line and
/// four columns further in than the object.
pub struct JSONSerializer {
    s: String,
    indentation: u16,
}

impl JSONSerializer {
    /// Appends as many spaces as the indentation has columns.
    pub fn indent(&mut self)
        ensures
            final(self).state() == appended(
                old(self).state(),
                spaces(old(self).state().indentation),
            ),
    {
        indent(&mut self.s, self.indentation)
    }
}

impl Serializer for JSONSerializer {
    type Result = String;

    type State = JsonState;

    closed spec fn state(&self) -> JsonState {
        JsonState { text: self.s@, indentation: self.indentation as nat }
    }

    open spec fn initial() -> JsonState {
        JsonState { text: Seq::empty(), indentation: 0 }
    }

    open spec fn on_string(state: JsonState, s: Seq<char>) -> JsonState {
        appended(state, quoted(s))
    }

    open spec fn on_bool(state: JsonState, b: bool) -> JsonState {
        appended(state, bool_text(b))
    }

    open spec fn on_number(state: JsonState, n: NumberModel) -> JsonState {
        appended(state, n.text())
    }

    open spec fn on_null(state: JsonState) -> JsonState {
        appended(state, "null"@)
    }

    open spec fn on_begin_object(state: JsonState) -> JsonState {
        JsonState { text: state.text + seq!['{', '\n'], indentation: deeper(state.indentation) }
    }

    open spec fn on_key(state: JsonState, name: Seq<char>) -> JsonState {
        appended(state, spaces(state.indentation) + quoted(name) + seq![':', ' '])
    }

    open spec fn on_end_property(state: JsonState) -> JsonState {
        appended(state, seq![',', '\n'])
    }

    open spec fn on_end_object(state: JsonState) -> JsonState {
        object_closed(state)
    }

    open spec fn on_begin_array(state: JsonState) -> JsonState {
        appended(state, seq!['['])
    }

    open spec fn on_end_element(state: JsonState) -> JsonState {
        appended(state, seq![',', ' '])
    }

    open spec fn on_end_array(state: JsonState) -> JsonState {
        array_closed(state)
    }

    fn new() -> (r: Self) {
        Self { s: String::new(), indentation: 0 }
    }

    fn string(&mut self, s: &str) {
        push_quoted(&mut self.s, s);
    }

    fn bool(&mut self, b: bool) {
        if b {
            self.s.append("true")
        } else {
            self.s.append("false")
        }
    }

    fn i64(&mut self, i: i64) {
        Number::from_i64(i).write_to(&mut self.s);
    }

    fn number(&mut self, n: &Number) {
        n.write_to(&mut self.s);
    }

    fn null(&mut self) {
        self.s.append("null");
    }

    fn open_object(&mut self) {
        push_char(&mut self.s, '{');
        push_char(&mut self.s, '\n');
        self.indentation = if self.indentation > u16::MAX - INDENT_STEP {
            u16::MAX
        } else {
            self.indentation + INDENT_STEP
        };
        assert(self.s@ =~= old(self).s@ + seq!['{', '\n']);
    }

    fn key(&mut self, name: &str) {
        indent(&mut self.s, self.indentation);
        push_quoted(&mut self.s, name);
        push_char(&mut self.s, ':');
        push_char(&mut self.s, ' ');
        assert(self.s@ =~= old(self).s@ + (spaces(old(self).indentation as nat) + quoted(name@)
            + seq![':', ' ']));
    }

    fn end_property(&mut self) {
        push_char(&mut self.s, ',');
        push_char(&mut self.s, '\n');
        assert(self.s@ =~= old(self).s@ + seq![',', '\n']);
    }

    fn close_object(&mut self) {
        self.indentation = if self.indentation < INDENT_STEP {
            0
        } else {
            self.indentation - INDENT_STEP
        };
        let ghost t = self.s@;
        pop_char(&mut self.s);
        match pop_char(&mut self.s) {
            Some(',') => {
                push_char(&mut self.s, '\n');
                indent(&mut self.s, self.indentation);
                assert(t.drop_last().drop_last() =~= t.take(t.len() - 2));
            },
            Some(c) => {
                push_char(&mut self.s, c);
                assert(t.drop_last().drop_last().push(c) =~= t.drop_last());
            },
            None => {},
        }
        push_char(&mut self.s, '}');
        assert(self.s@ =~= object_closed(old(self).state()).text);
    }

    fn open_array(&mut self) {
        push_char(&mut self.s, '[');
        assert(self.s@ =~= old(self).s@ + seq!['[']);
    }

    fn end_element(&mut self) {
        push_char(&mut self.s, ',');
        push_char(&mut self.s, ' ');
        assert(self.s@ =~= old(self).s@ + seq![',', ' ']);
    }

    fn close_array(&mut self) {
        let ghost t = self.s@;
        match pop_char(&mut self.s) {
            Some(' ') => {
                match pop_char(&mut self.s) {
                    Some(',') => {
                        assert(t.drop_last().drop_last() =~= t.take(t.len() - 2));
                    },
                    Some(c) => {
                        push_char(&mut self.s, c);
                        push_char(&mut self.s, ' ');
                        assert(self.s@ =~= t);
                    },
                    None => {
                        push_char(&mut self.s, ' ');
                        assert(self.s@ =~= t);
                    },
                }
            },
            Some(c) => {
                push_char(&mut self.s, c);
                assert(self.s@ =~= t);
            },
            None => {},
        }
        push_char(&mut self.s, ']');
        assert(self.s@ =~= array_closed(old(self).state()).text);
    }

    fn done(self) -> (r: String)
        ensures
            r@ == self.state().text,
    {
        self.s
    }
}

/// Writing a value to the text format by the steps of the protocol appends
/// the value's text, at the indentation at which the writing stands, and
/// leaves the indentation as it was, as long as the value does not nest
/// deeper than there are columns.
pub proof fn lemma_json_write(state: JsonState, value: Json)
    requires
        state.indentation + INDENT_STEP * value.nesting() <= u16::MAX,
    ensures
        write_value::<JSONSerializer>(state, value) == appended(
            state,
            json_text(value, state.indentation),
        ),
    decreases value, 0nat,
{
    match value {
        Json::Object(members) => {
            let begun = JSONSerializer::on_begin_object(state);
            assert(begun.indentation == state.indentation + INDENT_STEP);
            lemma_json_members(begun, members, members.len());
            let lines = member_lines(members, begun.indentation, members.len());
            let t = begun.text + lines;
            if members.len() == 0 {
                assert(t.drop_last() + seq!['}'] =~= state.text + seq!['{', '}']);
            } else {
                assert(member_line(members[members.len() - 1], begun.indentation).len() >= 2);
                assert(t[t.len() - 2] == ',');
                assert(t.take(t.len() - 2) + seq!['\n'] + spaces(state.indentation) + seq!['}']
                    =~= state.text + (seq!['{', '\n'] + lines.take(lines.len() - 2) + seq!['\n']
                    + spaces(state.indentation) + seq!['}']));
            }
        },
        Json::Array(items) => {
            let begun = JSONSerializer::on_begin_array(state);
            lemma_json_items(begun, items, items.len());
            let runs = item_runs(items, begun.indentation, items.len());
            let t = begun.text + runs;
            if items.len() == 0 {
                assert(t + seq![']'] =~= state.text + seq!['[', ']']);
            } else {
                assert(t[t.len() - 2] == ',');
                assert(t[t.len() - 1] == ' ');
                assert(t.take(t.len() - 2) + seq![']'] =~= state.text + (seq!['['] + runs.take(
                    runs.len() - 2,
                ) + seq![']']));
            }
        },
        _ => {},
    }
}

/// The first `upto` members, written as properties, append their lines.
pub proof fn lemma_json_members(state: JsonState, members: Seq<(Seq<char>, Json)>, upto: nat)
    requires
        upto <= members.len(),
        state.indentation + INDENT_STEP * Json::members_nesting(members, members.len())
            <= u16::MAX,
    ensures
        write_members::<JSONSerializer>(state, members, upto) == appended(
            state,
            member_lines(members, state.indentation, upto),
        ),
    decreases members, upto,
{
    if upto == 0 {
        assert(state.text + Seq::<char>::empty() =~= state.text);
    } else {
        lemma_json_members(state, members, (upto - 1) as nat);
        let before = write_members::<JSONSerializer>(state, members, (upto - 1) as nat);
        let member = members[upto - 1];
        let keyed = JSONSerializer::on_key(before, member.0);
        lemma_members_nesting(members, members.len(), upto - 1);
        assert(INDENT_STEP * member.1.nesting() <= INDENT_STEP * Json::members_nesting(
            members,
            members.len(),
        )) by (nonlinear_arith)
            requires
                member.1.nesting() <= Json::members_nesting(members, members.len()),
        ;
        lemma_json_write(keyed, member.1);
        let i = state.indentation;
        let prior = member_lines(members, i, (upto - 1) as nat);
        assert(before.text == state.text + prior);
        assert(keyed.text == before.text + (spaces(i) + quoted(member.0) + seq![':', ' ']));
        let written = write_value::<JSONSerializer>(keyed, member.1);
        assert(written.text == keyed.text + json_text(member.1, i));
        let ended = JSONSerializer::on_end_property(written);
        assert(ended.text == written.text + seq![',', '\n']);
        assert(write_members::<JSONSerializer>(state, members, upto) == ended);
        assert(member_lines(members, i, upto) == prior + member_line(member, i));
        assert(ended.text =~= state.text + (prior + member_line(member, i)));
    }
}

/// The first `upto` elements, written as elements, append their runs.
pub proof fn lemma_json_items(state: JsonState, items: Seq<Json>, upto: nat)
    requires
        upto <= items.len(),
        state.indentation + INDENT_STEP * Json::items_nesting(items, items.len()) <= u16::MAX,
    ensures
        write_items::<JSONSerializer>(state, items, upto) == appended(
            state,
            item_runs(items, state.indentation, upto),
        ),
    decreases items, upto,
{
    if upto == 0 {
        assert(state.text + Seq::<char>::empty() =~= state.text);
    } else {
        lemma_json_items(state, items, (upto - 1) as nat);
        let before = write_items::<JSONSerializer>(state, items, (upto - 1) as nat);
        lemma_items_nesting(items, items.len(), upto - 1);
        assert(INDENT_STEP * items[upto - 1].nesting() <= INDENT_STEP * Json::items_nesting(
            items,
            items.len(),
        )) by (nonlinear_arith)
            requires
                items[upto - 1].nesting() <= Json::items_nesting(items, items.len()),
        ;
        lemma_json_write(before, items[upto - 1]);
        assert(write_items::<JSONSerializer>(state, items, upto).text =~= state.text + item_runs(
            items,
            state.indentation,
            upto,
        ));
    }
}

/// The text of `value` in the text format.
pub fn to_json_string<V: Serialize>(value: &V) -> (r: String)
    ensures
        r@ == write_value::<JSONSerializer>(JSONSerializer::initial(), value.shape()).text,
        INDENT_STEP * value.shape().nesting() <= u16::MAX ==> r@ == json_text(value.shape(), 0),
{
    let mut serializer = JSONSerializer::new();
    value.serialize(&mut serializer);
    proof {
        if INDENT_STEP * value.shape().nesting() <= u16::MAX {
            lemma_json_write(JSONSerializer::initial(), value.shape());
            assert(Seq::<char>::empty() + json_text(value.shape(), 0) =~= json_text(
                value.shape(),
                0,
            ));
        }
    }
    serializer.done()
}

/// An object that is being written. It holds the serializer until the
/// object is ended.
pub struct JSONObjectSerializer<'a> {
    /// Whether a property has been written.
    pub need_to_pop_comma: bool,
    pub serializer: &'a mut JSONSerializer,
}

/// An array that is being written. It holds the serializer until the array
/// is ended.
pub struct JSONArraySerializer<'a> {
    /// Whether an element has been written.
    pub need_to_pop_comma: bool,
    pub serializer: &'a mut JSONSerializer,
}

impl<'a> AsObjectSerializer<'a> for JSONSerializer {
    type ObjectSerializer = JSONObjectSerializer<'a>;

    /// Opens an object and hands out the builder of its properties. What the
    /// builder leaves behind is what this serializer goes on with.
    fn begin_object(&'a mut self) -> (r: JSONObjectSerializer<'a>)
        ensures
            !r.need_to_pop_comma,
            r.serializer.state() == Self::on_begin_object(old(self).state()),
            *final(self) == *final(r.serializer),
    {
        self.open_object();
        JSONObjectSerializer { need_to_pop_comma: false, serializer: self }
    }
}

impl<'a> AsArraySerializer<'a> for JSONSerializer {
    type ArraySerializer = JSONArraySerializer<'a>;

    /// Opens an array and hands out the builder of its elements. What the
    /// builder leaves behind is what this serializer goes on with.
    fn begin_array(&'a mut self) -> (r: JSONArraySerializer<'a>)
        ensures
            !r.need_to_pop_comma,
            r.serializer.state() == Self::on_begin_array(old(self).state()),
            *final(self) == *final(r.serializer),
    {
        self.open_array();
        JSONArraySerializer { need_to_pop_comma: false, serializer: self }
    }
}

impl<'a> ObjectSerializer for JSONObjectSerializer<'a> {
    /// Writes one property: the key, then the value as it writes itself.
    fn property<V: Serialize>(&mut self, name: &str, value: &V)
        ensures
            final(self).need_to_pop_comma,
            final(self).serializer.state() == JSONSerializer::on_end_property(
                write_value::<JSONSerializer>(
                    JSONSerializer::on_key(old(self).serializer.state(), name@),
                    value.shape(),
                ),
            ),
            *final(final(self).serializer) == *final(old(self).serializer),
    {
        self.serializer.key(name);
        value.serialize(self.serializer);
        self.serializer.end_property();
        self.need_to_pop_comma = true;
    }

    /// Closes the object.
    fn end_object(self)
        ensures
            final(self.serializer).state() == JSONSerializer::on_end_object(
                old(self.serializer).state(),
            ),
    {
        self.serializer.close_object();
    }
}

impl<'a> ArraySerializer for JSONArraySerializer<'a> {
    /// Writes one element, as it writes itself.
    fn value<V: Serialize>(&mut self, value: &V)
        ensures
            final(self).need_to_pop_comma,
            final(self).serializer.state() == JSONSerializer::on_end_element(
                write_value::<JSONSerializer>(old(self).serializer.state(), value.shape()),
            ),
            *final(final(self).serializer) == *final(old(self).serializer),
    {
        value.serialize(self.serializer);
        self.serializer.end_element();
        self.need_to_pop_comma = true;
    }

    /// Closes the array.
    fn end_array(self)
        ensures
            final(self.serializer).state() == JSONSerializer::on_end_array(
                old(self.serializer).state(),
            ),
    {
        self.serializer.close_array();
    }
}

} // verus!
