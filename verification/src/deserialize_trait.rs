//! The reading half of the protocol: what a format offers to a reader, and
//! how a type reads itself from any format.
//!
//! A format is a [`Deserializer`]: a cursor that hands out what comes next,
//! when asked for it. What each question yields, and where it leaves the
//! cursor, the format states as functions on its `State`. Once a question
//! has failed, nothing is promised of the questions that follow.

use vstd::prelude::*;
use std::borrow::Cow;
use crate::number::{Number, NumberModel};
use crate::text::cow_str;

verus! {

/// What kind of value comes next, with the value itself where it is a
/// scalar.
#[derive(Debug)]
pub enum AnyValue<'a> {
    String(Cow<'a, str>),
    Bool(bool),
    Number(Number),
    Object,
    Array,
    Null,
}

/// The mathematical content of an [`AnyValue`].
pub enum AnyModel {
    String(Seq<char>),
    Bool(bool),
    Number(NumberModel),
    Object,
    Array,
    Null,
}

impl<'a> View for AnyValue<'a> {
    type V = AnyModel;

    open spec fn view(&self) -> AnyModel {
        match self {
            AnyValue::String(s) => AnyModel::String(s@),
            AnyValue::Bool(b) => AnyModel::Bool(*b),
            AnyValue::Number(n) => AnyModel::Number(n@),
            AnyValue::Object => AnyModel::Object,
            AnyValue::Array => AnyModel::Array,
            AnyValue::Null => AnyModel::Null,
        }
    }
}

impl<'a> AnyValue<'a> {
    /// The text, if there is one, is borrowed.
    pub open spec fn borrows(&self) -> bool {
        self matches AnyValue::String(text) ==> text is Borrowed
    }

    /// The text, if a string comes next.
    pub fn string(self) -> (r: Option<Cow<'a, str>>)
        ensures
            match self {
                AnyValue::String(text) => r == Some(text),
                _ => r is None,
            },
    {
        match self {
            AnyValue::String(a) => Some(a),
            _ => None,
        }
    }

    /// The number, if a number comes next.
    pub fn number(self) -> (r: Option<Number>)
        ensures
            match self {
                AnyValue::Number(n) => r == Some(n),
                _ => r is None,
            },
    {
        match self {
            AnyValue::Number(v) => Some(v),
            _ => None,
        }
    }

    /// `Some` if an object comes next.
    pub fn object(self) -> (r: Option<()>)
        ensures
            r is Some <==> self is Object,
    {
        match self {
            AnyValue::Object => Some(()),
            _ => None,
        }
    }

    /// The truth value, if one comes next.
    pub fn boolean(self) -> (r: Option<bool>)
        ensures
            match self {
                AnyValue::Bool(b) => r == Some(b),
                _ => r is None,
            },
    {
        match self {
            AnyValue::Bool(b) => Some(b),
            _ => None,
        }
    }
}

/// A format that values can be read from.
///
/// What each question yields, the format states by the functions on its
/// `State`; one that does not state it has answers of which nothing is
/// known.
pub trait Deserializer<'a>: Sized {
    /// Where the reading stands, as far as it matters to what comes next.
    type State;

    /// The reader can be asked.
    open spec fn wf(&self) -> bool {
        arbitrary()
    }

    /// Where this reader stands.
    open spec fn state(&self) -> Self::State {
        arbitrary()
    }

    /// A bound on what is left to read. Every answer that hands out a
    /// value, a key or the opening of a structure lowers it.
    open spec fn remaining(state: Self::State) -> nat {
        arbitrary()
    }

    /// Whether every text that the reader hands out from `state` on is
    /// borrowed from its source. A reader that never says so may copy.
    open spec fn lends(state: Self::State) -> bool {
        false
    }

    /// The text that comes next, and the state behind it.
    open spec fn next_string(state: Self::State) -> Option<(Seq<char>, Self::State)> {
        arbitrary()
    }

    /// The truth value that comes next, and the state behind it.
    open spec fn next_bool(state: Self::State) -> Option<(bool, Self::State)> {
        arbitrary()
    }

    /// The integer that comes next, and the state behind it.
    open spec fn next_i64(state: Self::State) -> Option<(i64, Self::State)> {
        arbitrary()
    }

    /// The number that comes next, and the state behind it.
    open spec fn next_number(state: Self::State) -> Option<(NumberModel, Self::State)> {
        arbitrary()
    }

    /// What comes next: a scalar with the state behind it, or the kind of a
    /// structure with the state behind its opening.
    open spec fn next_any(state: Self::State) -> Option<(AnyModel, Self::State)> {
        arbitrary()
    }

    /// The state behind the opening of an object, if one comes next.
    open spec fn next_begin_object(state: Self::State) -> Option<Self::State> {
        arbitrary()
    }

    /// The key of the next property with the state before its value, or no
    /// key with the state in which that leaves the reader.
    open spec fn next_property(state: Self::State) -> (Option<Seq<char>>, Self::State) {
        arbitrary()
    }

    /// The state behind the opening of an array, if one comes next.
    open spec fn next_begin_array(state: Self::State) -> Option<Self::State> {
        arbitrary()
    }

    /// Whether an element comes next, and the state in which the question
    /// leaves the reader.
    open spec fn next_array_value(state: Self::State) -> (bool, Self::State) {
        arbitrary()
    }

    /// Reads a text.
    fn string(&mut self) -> (r: Option<Cow<'a, str>>)
        requires
            old(self).wf(),
        ensures
            final(self).wf(),
            match Self::next_string(old(self).state()) {
                Some((text, state)) => r matches Some(t) && t@ == text && final(self).state()
                    == state && Self::remaining(state) < Self::remaining(old(self).state()),
                None => r is None,
            },
            Self::lends(old(self).state()) ==> Self::lends(final(self).state()) && (
            r matches Some(t) ==> t is Borrowed),
    ;

    /// Reads a truth value.
    fn bool(&mut self) -> (r: Option<bool>)
        requires
            old(self).wf(),
        ensures
            final(self).wf(),
            match Self::next_bool(old(self).state()) {
                Some((b, state)) => r == Some(b) && final(self).state() == state
                    && Self::remaining(state) < Self::remaining(old(self).state()),
                None => r is None,
            },
            Self::lends(old(self).state()) ==> Self::lends(final(self).state()),
    ;

    /// Reads an integer.
    fn i64(&mut self) -> (r: Option<i64>)
        requires
            old(self).wf(),
        ensures
            final(self).wf(),
            match Self::next_i64(old(self).state()) {
                Some((i, state)) => r == Some(i) && final(self).state() == state
                    && Self::remaining(state) < Self::remaining(old(self).state()),
                None => r is None,
            },
            Self::lends(old(self).state()) ==> Self::lends(final(self).state()),
    ;

    /// Reads a number.
    fn number(&mut self) -> (r: Option<Number>)
        requires
            old(self).wf(),
        ensures
            final(self).wf(),
            match Self::next_number(old(self).state()) {
                Some((n, state)) => r matches Some(x) && x@ == n && final(self).state() == state
                    && Self::remaining(state) < Self::remaining(old(self).state()),
                None => r is None,
            },
            Self::lends(old(self).state()) ==> Self::lends(final(self).state()),
    ;

    /// Says what kind of value comes next. A scalar is read and handed out;
    /// of an object or an array only the opening is read.
    fn any(&mut self) -> (r: Option<AnyValue<'a>>)
        requires
            old(self).wf(),
        ensures
            final(self).wf(),
            match Self::next_any(old(self).state()) {
                Some((any, state)) => r matches Some(x) && x@ == any && final(self).state()
                    == state && Self::remaining(state) < Self::remaining(old(self).state()),
                None => r is None,
            },
            Self::lends(old(self).state()) ==> Self::lends(final(self).state()) && (
            r matches Some(x) ==> x.borrows()),
    ;

    /// Reads the opening of an object, and says whether one stood there.
    fn begin_object(&mut self) -> (r: bool)
        requires
            old(self).wf(),
        ensures
            final(self).wf(),
            match Self::next_begin_object(old(self).state()) {
                Some(state) => r && final(self).state() == state && Self::remaining(state)
                    < Self::remaining(old(self).state()),
                None => !r,
            },
            Self::lends(old(self).state()) ==> Self::lends(final(self).state()),
    ;

    /// Reads the key of the next property of the open object; what comes
    /// next is its value. `None` where the object ends, or where no key
    /// can be read.
    fn has_property(&mut self) -> (r: Option<Cow<'a, str>>)
        requires
            old(self).wf(),
        ensures
            final(self).wf(),
            final(self).state() == Self::next_property(old(self).state()).1,
            match Self::next_property(old(self).state()).0 {
                Some(name) => r matches Some(n) && n@ == name && Self::remaining(
                    final(self).state(),
                ) < Self::remaining(old(self).state()),
                None => r is None && Self::remaining(final(self).state()) <= Self::remaining(
                    old(self).state(),
                ),
            },
            Self::lends(old(self).state()) ==> Self::lends(final(self).state()) && (
            r matches Some(n) ==> n is Borrowed),
    ;

    /// Reads the opening of an array, and says whether one stood there.
    fn begin_array(&mut self) -> (r: bool)
        requires
            old(self).wf(),
        ensures
            final(self).wf(),
            match Self::next_begin_array(old(self).state()) {
                Some(state) => r && final(self).state() == state && Self::remaining(state)
                    < Self::remaining(old(self).state()),
                None => !r,
            },
            Self::lends(old(self).state()) ==> Self::lends(final(self).state()),
    ;

    /// Says whether another element of the open array comes next. `false`
    /// where the array ends, or where nothing can be read.
    fn has_array_value(&mut self) -> (r: bool)
        requires
            old(self).wf(),
        ensures
            final(self).wf(),
            r == Self::next_array_value(old(self).state()).0,
            final(self).state() == Self::next_array_value(old(self).state()).1,
            Self::remaining(final(self).state()) <= Self::remaining(old(self).state()),
            Self::lends(old(self).state()) ==> Self::lends(final(self).state()),
    ;
}

/// A type that can be read from any format. What it makes of a reader, each
/// type says of its own `deserialize`.
pub trait Deserialize<'a>: Sized {
    /// Reads a value of this type. It takes what belongs to the value and
    /// leaves the reader behind it.
    fn deserialize<D: Deserializer<'a>>(deserializer: &mut D) -> (r: Option<Self>)
        requires
            old(deserializer).wf(),
        ensures
            final(deserializer).wf(),
    ;
}

impl<'a> Deserialize<'a> for i64 {
    fn deserialize<D: Deserializer<'a>>(deserializer: &mut D) -> (r: Option<Self>)
        ensures
            match D::next_i64(old(deserializer).state()) {
                Some((i, state)) => r == Some(i) && final(deserializer).state() == state,
                None => r is None,
            },
    {
        deserializer.i64()
    }
}

impl<'a> Deserialize<'a> for bool {
    fn deserialize<D: Deserializer<'a>>(deserializer: &mut D) -> (r: Option<Self>)
        ensures
            match D::next_bool(old(deserializer).state()) {
                Some((b, state)) => r == Some(b) && final(deserializer).state() == state,
                None => r is None,
            },
    {
        deserializer.bool()
    }
}

impl<'a> Deserialize<'a> for String {
    fn deserialize<D: Deserializer<'a>>(deserializer: &mut D) -> (r: Option<Self>)
        ensures
            match D::next_string(old(deserializer).state()) {
                Some((text, state)) => r matches Some(t) && t@ == text && final(deserializer).state()
                    == state,
                None => r is None,
            },
    {
        match deserializer.string() {
            Some(text) => Some(cow_str(&text).to_owned()),
            None => None,
        }
    }
}

impl<'a> Deserialize<'a> for Number {
    fn deserialize<D: Deserializer<'a>>(deserializer: &mut D) -> (r: Option<Self>)
        ensures
            match D::next_number(old(deserializer).state()) {
                Some((n, state)) => r matches Some(x) && x@ == n && final(deserializer).state()
                    == state,
                None => r is None,
            },
    {
        deserializer.number()
    }
}

} // verus!
