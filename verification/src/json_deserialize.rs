//! The text format as a deserializer.

use vstd::prelude::*;
use std::borrow::Cow;
use crate::deserialize_trait::{AnyModel, AnyValue, Deserialize, Deserializer};
use crate::from_str::Parser;
use crate::grammar::{
    lemma_no_backslash, no_backslash, number_at, skip_comma, skip_ws, string_at, RECURSIVE_LIMIT,
};
use crate::number::{Number, NumberModel};
use crate::text::is_digit;
use crate::thing::{read_thing, Thing, ThingOwned};

verus! {

/// Where a [`JSONDeserializer`] stands: the text, the position in it, and
/// the number of values begun.
pub struct JsonCursor {
    pub text: Seq<char>,
    pub position: int,
    pub begun: nat,
}

/// `cursor` moved to `position`.
pub open spec fn moved(cursor: JsonCursor, position: int) -> JsonCursor {
    JsonCursor { text: cursor.text, position, begun: cursor.begun }
}

/// The cursor at the start of `text`.
pub open spec fn start_of(text: Seq<char>) -> JsonCursor {
    JsonCursor { text, position: 0, begun: 0 }
}

/// A deserializer that reads text, as lenient as the reader of value trees:
/// a comma may stand before any property or element, and of `true`,
/// `false` and `null` only the first letter is looked at.
pub struct JSONDeserializer<'a> {
    parser: Parser<'a>,
}

impl<'a> JSONDeserializer<'a> {
    /// A deserializer at the start of `source`.
    pub fn new(source: &'a str) -> (r: Self)
        ensures
            r.wf(),
            r.state() == start_of(source@),
    {
        JSONDeserializer { parser: Parser::new(source) }
    }
}

impl<'a> Deserializer<'a> for JSONDeserializer<'a> {
    type State = JsonCursor;

    closed spec fn wf(&self) -> bool {
        self.parser.wf()
    }

    closed spec fn state(&self) -> JsonCursor {
        JsonCursor {
            text: self.parser.text(),
            position: self.parser.position(),
            begun: self.parser.begun(),
        }
    }

    open spec fn remaining(state: JsonCursor) -> nat {
        if 0 <= state.position <= state.text.len() {
            (state.text.len() - state.position) as nat
        } else {
            0
        }
    }

    /// A text without a backslash is read without a copy.
    open spec fn lends(state: JsonCursor) -> bool {
        no_backslash(state.text)
    }

    open spec fn next_string(state: JsonCursor) -> Option<(Seq<char>, JsonCursor)> {
        match string_at(state.text, skip_ws(state.text, state.position)) {
            Some(lit) => Some((lit.content, moved(state, lit.end))),
            None => None,
        }
    }

    open spec fn next_bool(state: JsonCursor) -> Option<(bool, JsonCursor)> {
        let j = skip_ws(state.text, state.position);
        if 0 <= j < state.text.len() && state.text[j] == 't' && j + 4 <= state.text.len() {
            Some((true, moved(state, j + 4)))
        } else if 0 <= j < state.text.len() && state.text[j] == 'f' && j + 5 <= state.text.len() {
            Some((false, moved(state, j + 5)))
        } else {
            None
        }
    }

    open spec fn next_i64(state: JsonCursor) -> Option<(i64, JsonCursor)> {
        match number_at(state.text, skip_ws(state.text, state.position)) {
            Some((n, end)) => if n.is_integer_literal() && i64::MIN <= n.significand()
                <= i64::MAX {
                Some((n.significand() as i64, moved(state, end)))
            } else {
                None
            },
            None => None,
        }
    }

    open spec fn next_number(state: JsonCursor) -> Option<(NumberModel, JsonCursor)> {
        match number_at(state.text, skip_ws(state.text, state.position)) {
            Some((n, end)) => Some((n, moved(state, end))),
            None => None,
        }
    }

    open spec fn next_any(state: JsonCursor) -> Option<(AnyModel, JsonCursor)> {
        let j = skip_ws(state.text, state.position);
        if state.begun >= RECURSIVE_LIMIT || !(0 <= j < state.text.len()) {
            None
        } else {
            let c = state.text[j];
            let counted = JsonCursor {
                text: state.text,
                position: state.position,
                begun: state.begun + 1,
            };
            if c == '{' {
                Some((AnyModel::Object, moved(counted, j + 1)))
            } else if c == '[' {
                Some((AnyModel::Array, moved(counted, j + 1)))
            } else if c == '"' {
                match string_at(state.text, j) {
                    Some(lit) => Some((AnyModel::String(lit.content), moved(counted, lit.end))),
                    None => None,
                }
            } else if c == 't' {
                if j + 4 <= state.text.len() {
                    Some((AnyModel::Bool(true), moved(counted, j + 4)))
                } else {
                    None
                }
            } else if c == 'f' {
                if j + 5 <= state.text.len() {
                    Some((AnyModel::Bool(false), moved(counted, j + 5)))
                } else {
                    None
                }
            } else if c == 'n' {
                if j + 4 <= state.text.len() {
                    Some((AnyModel::Null, moved(counted, j + 4)))
                } else {
                    None
                }
            } else if c == '-' || is_digit(c) {
                match number_at(state.text, j) {
                    Some((n, end)) => Some((AnyModel::Number(n), moved(counted, end))),
                    None => None,
                }
            } else {
                None
            }
        }
    }

    open spec fn next_begin_object(state: JsonCursor) -> Option<JsonCursor> {
        let j = skip_ws(state.text, state.position);
        if 0 <= j < state.text.len() && state.text[j] == '{' {
            Some(moved(state, j + 1))
        } else {
            None
        }
    }

    /// The key of the next property and the cursor behind its colon; at the
    /// closing brace no key and the cursor behind the brace; where neither
    /// stands, no key and the cursor where it was.
    open spec fn next_property(state: JsonCursor) -> (Option<Seq<char>>, JsonCursor) {
        let j = skip_ws(state.text, state.position);
        if !(0 <= j < state.text.len()) {
            (None, state)
        } else if state.text[j] == '}' {
            (None, moved(state, j + 1))
        } else {
            match string_at(state.text, skip_ws(state.text, skip_comma(state.text, j))) {
                None => (None, state),
                Some(key) => {
                    let c = skip_ws(state.text, key.end);
                    if 0 <= c < state.text.len() && state.text[c] == ':' {
                        (Some(key.content), moved(state, c + 1))
                    } else {
                        (None, state)
                    }
                },
            }
        }
    }

    open spec fn next_begin_array(state: JsonCursor) -> Option<JsonCursor> {
        let j = skip_ws(state.text, state.position);
        if 0 <= j < state.text.len() && state.text[j] == '[' {
            Some(moved(state, j + 1))
        } else {
            None
        }
    }

    /// Whether an element comes next, and the cursor at it, behind the comma
    /// if one stands before it; at the closing bracket the cursor behind
    /// the bracket; at the end of the text the cursor where it was.
    open spec fn next_array_value(state: JsonCursor) -> (bool, JsonCursor) {
        let j = skip_ws(state.text, state.position);
        if !(0 <= j < state.text.len()) {
            (false, state)
        } else if state.text[j] == ']' {
            (false, moved(state, j + 1))
        } else {
            (true, moved(state, skip_comma(state.text, j)))
        }
    }

    /// Reads a text. A text without an escape is handed out as a slice of
    /// the source.
    fn string(&mut self) -> (r: Option<Cow<'a, str>>)
        ensures
            r matches Some(text) ==> (text is Borrowed <==> !string_at(
                old(self).state().text,
                skip_ws(old(self).state().text, old(self).state().position),
            )->0.escaped),
    {
        self.parser.skip_whitespace();
        proof {
            if no_backslash(self.parser.text()) {
                lemma_no_backslash(self.parser.text(), self.parser.position() + 1);
            }
        }
        self.parser.parse_string()
    }

    fn bool(&mut self) -> (r: Option<bool>) {
        self.parser.skip_whitespace();
        match self.parser.peek() {
            Some('t') => {
                if self.parser.left() < 4 {
                    return None;
                }
                self.parser.advance(4);
                Some(true)
            },
            Some('f') => {
                if self.parser.left() < 5 {
                    return None;
                }
                self.parser.advance(5);
                Some(false)
            },
            _ => None,
        }
    }

    fn i64(&mut self) -> (r: Option<i64>) {
        self.parser.skip_whitespace();
        match self.parser.parse_number() {
            Some(n) => n.as_i64(),
            None => None,
        }
    }

    fn number(&mut self) -> (r: Option<Number>) {
        self.parser.skip_whitespace();
        self.parser.parse_number()
    }

    /// Says what comes next. A text without an escape is handed out as a
    /// slice of the source.
    fn any(&mut self) -> (r: Option<AnyValue<'a>>)
        ensures
            r matches Some(AnyValue::String(text)) ==> (text is Borrowed <==> !string_at(
                old(self).state().text,
                skip_ws(old(self).state().text, old(self).state().position),
            )->0.escaped),
    {
        if !self.parser.begin_value() {
            return None;
        }
        self.parser.skip_whitespace();
        let c = match self.parser.peek() {
            None => {
                return None;
            },
            Some(c) => c,
        };
        if c == '{' {
            self.parser.advance(1);
            Some(AnyValue::Object)
        } else if c == '[' {
            self.parser.advance(1);
            Some(AnyValue::Array)
        } else if c == '"' {
            proof {
                if no_backslash(self.parser.text()) {
                    lemma_no_backslash(self.parser.text(), self.parser.position() + 1);
                }
            }
            match self.parser.parse_string() {
                Some(text) => Some(AnyValue::String(text)),
                None => None,
            }
        } else if c == 't' {
            if self.parser.left() < 4 {
                return None;
            }
            self.parser.advance(4);
            Some(AnyValue::Bool(true))
        } else if c == 'f' {
            if self.parser.left() < 5 {
                return None;
            }
            self.parser.advance(5);
            Some(AnyValue::Bool(false))
        } else if c == 'n' {
            if self.parser.left() < 4 {
                return None;
            }
            self.parser.advance(4);
            Some(AnyValue::Null)
        } else if c == '-' || ('0' <= c && c <= '9') {
            match self.parser.parse_number() {
                Some(n) => Some(AnyValue::Number(n)),
                None => None,
            }
        } else {
            None
        }
    }

    fn begin_object(&mut self) -> (r: bool) {
        self.parser.skip_whitespace();
        match self.parser.peek() {
            Some('{') => {
                self.parser.advance(1);
                true
            },
            _ => false,
        }
    }

    /// Reads the key of the next property. A key without an escape is
    /// handed out as a slice of the source.
    fn has_property(&mut self) -> (r: Option<Cow<'a, str>>)
        ensures
            r matches Some(name) ==> (name is Borrowed <==> !string_at(
                old(self).state().text,
                skip_ws(
                    old(self).state().text,
                    skip_comma(
                        old(self).state().text,
                        skip_ws(old(self).state().text, old(self).state().position),
                    ),
                ),
            )->0.escaped),
    {
        let from = self.parser.offset();
        self.parser.skip_whitespace();
        match self.parser.peek() {
            None => {
                self.parser.seek(from);
                return None;
            },
            Some('}') => {
                self.parser.advance(1);
                return None;
            },
            Some(',') => {
                self.parser.advance(1);
            },
            Some(_) => {},
        }
        self.parser.skip_whitespace();
        proof {
            if no_backslash(self.parser.text()) {
                lemma_no_backslash(self.parser.text(), self.parser.position() + 1);
            }
        }
        let key = match self.parser.parse_string() {
            None => {
                self.parser.seek(from);
                return None;
            },
            Some(key) => key,
        };
        self.parser.skip_whitespace();
        match self.parser.peek() {
            Some(':') => {
                self.parser.advance(1);
                Some(key)
            },
            _ => {
                self.parser.seek(from);
                None
            },
        }
    }

    fn begin_array(&mut self) -> (r: bool) {
        self.parser.skip_whitespace();
        match self.parser.peek() {
            Some('[') => {
                self.parser.advance(1);
                true
            },
            _ => false,
        }
    }

    fn has_array_value(&mut self) -> (r: bool) {
        let from = self.parser.offset();
        self.parser.skip_whitespace();
        match self.parser.peek() {
            None => {
                self.parser.seek(from);
                false
            },
            Some(']') => {
                self.parser.advance(1);
                false
            },
            Some(',') => {
                self.parser.advance(1);
                true
            },
            Some(_) => true,
        }
    }
}

impl<'a> Thing<'a> {
    /// Reads a tree from text in the text format. From a text without a
    /// backslash it is read without a copy of any text.
    pub fn from_json(s: &'a str) -> (r: Option<Self>)
        ensures
            match read_thing::<JSONDeserializer<'a>>(start_of(s@)) {
                Some((tree, _)) => r matches Some(t) && t@ == tree,
                None => r is None,
            },
            no_backslash(s@) ==> (r matches Some(t) ==> t.borrows()),
    {
        let mut deserializer = JSONDeserializer::new(s);
        Thing::deserialize(&mut deserializer)
    }
}

impl ThingOwned {
    /// Reads a tree from text in the text format, and copies it.
    pub fn from_json<'a>(s: &'a str) -> (r: Option<Self>)
        ensures
            match read_thing::<JSONDeserializer<'a>>(start_of(s@)) {
                Some((tree, _)) => r matches Some(t) && t@ == tree,
                None => r is None,
            },
    {
        let mut deserializer = JSONDeserializer::new(s);
        ThingOwned::deserialize(&mut deserializer)
    }
}

} // verus!
