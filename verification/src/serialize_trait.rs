//! The writing half of the protocol: what a format offers, and how a type
//! describes itself to any format.
//!
//! A format is a [`Serializer`]. It takes scalars, and it takes objects and
//! arrays piece by piece: an object is begun, each of its properties is a
//! key, then the value, then the end of the property, and the object is
//! ended. What each step does to the format's output is the format's own
//! business; it states it as a function on its `State`.
//!
//! A type that can be written is a [`Serialize`]. It says which value it
//! stands for (`shape`), and it writes itself by the steps above. It holds
//! nothing that belongs to one format.

use vstd::prelude::*;
use crate::number::{Number, NumberModel};
use crate::value::Json;

verus! {

/// A format that values can be written to.
///
/// What each step does to the format's output, the format states by the
/// functions on its `State`; one that does not state it has steps of which
/// nothing is known.
pub trait Serializer: Sized {
    /// What a finished writing hands out.
    type Result;

    /// What the format has taken so far, as far as it matters to what comes
    /// out in the end.
    type State;

    /// What this serializer has taken so far.
    open spec fn state(&self) -> Self::State {
        arbitrary()
    }

    /// The state of a serializer that has taken nothing.
    open spec fn initial() -> Self::State {
        arbitrary()
    }

    /// The state after a text.
    open spec fn on_string(state: Self::State, s: Seq<char>) -> Self::State {
        arbitrary()
    }

    /// The state after a truth value.
    open spec fn on_bool(state: Self::State, b: bool) -> Self::State {
        arbitrary()
    }

    /// The state after a number.
    open spec fn on_number(state: Self::State, n: NumberModel) -> Self::State {
        arbitrary()
    }

    /// The state after the absence of a value.
    open spec fn on_null(state: Self::State) -> Self::State {
        arbitrary()
    }

    /// The state after the opening of an object.
    open spec fn on_begin_object(state: Self::State) -> Self::State {
        arbitrary()
    }

    /// The state after the key of a property, before its value.
    open spec fn on_key(state: Self::State, name: Seq<char>) -> Self::State {
        arbitrary()
    }

    /// The state after the end of a property, behind its value.
    open spec fn on_end_property(state: Self::State) -> Self::State {
        arbitrary()
    }

    /// The state after the closing of an object.
    open spec fn on_end_object(state: Self::State) -> Self::State {
        arbitrary()
    }

    /// The state after the opening of an array.
    open spec fn on_begin_array(state: Self::State) -> Self::State {
        arbitrary()
    }

    /// The state after the end of an element.
    open spec fn on_end_element(state: Self::State) -> Self::State {
        arbitrary()
    }

    /// The state after the closing of an array.
    open spec fn on_end_array(state: Self::State) -> Self::State {
        arbitrary()
    }

    /// A serializer that has taken nothing.
    fn new() -> (r: Self)
        ensures
            r.state() == Self::initial(),
    ;

    /// Writes a text.
    fn string(&mut self, s: &str)
        ensures
            final(self).state() == Self::on_string(old(self).state(), s@),
    ;

    /// Writes a truth value.
    fn bool(&mut self, b: bool)
        ensures
            final(self).state() == Self::on_bool(old(self).state(), b),
    ;

    /// Writes an integer.
    fn i64(&mut self, i: i64)
        ensures
            final(self).state() == Self::on_number(old(self).state(), NumberModel::of_int(i as int)),
    ;

    /// Writes a number.
    fn number(&mut self, n: &Number)
        ensures
            final(self).state() == Self::on_number(old(self).state(), n@),
    ;

    /// Writes the absence of a value.
    fn null(&mut self)
        ensures
            final(self).state() == Self::on_null(old(self).state()),
    ;

    /// Opens an object.
    fn open_object(&mut self)
        ensures
            final(self).state() == Self::on_begin_object(old(self).state()),
    ;

    /// Begins a property of the open object: what is written next is its value.
    fn key(&mut self, name: &str)
        ensures
            final(self).state() == Self::on_key(old(self).state(), name@),
    ;

    /// Ends the property whose value was written last.
    fn end_property(&mut self)
        ensures
            final(self).state() == Self::on_end_property(old(self).state()),
    ;

    /// Closes the open object.
    fn close_object(&mut self)
        ensures
            final(self).state() == Self::on_end_object(old(self).state()),
    ;

    /// Opens an array: what is written next is its first element.
    fn open_array(&mut self)
        ensures
            final(self).state() == Self::on_begin_array(old(self).state()),
    ;

    /// Ends the element that was written last.
    fn end_element(&mut self)
        ensures
            final(self).state() == Self::on_end_element(old(self).state()),
    ;

    /// Closes the open array.
    fn close_array(&mut self)
        ensures
            final(self).state() == Self::on_end_array(old(self).state()),
    ;

    /// Ends the writing and hands out what was written.
    fn done(self) -> Self::Result;
}

/// The state of a format after it has taken `value`, by the steps of the
/// protocol: scalars in one step, an object as its opening, its properties
/// in order and its closing, an array likewise.
pub open spec fn write_value<S: Serializer>(state: S::State, value: Json) -> S::State
    decreases value, 0nat,
{
    match value {
        Json::String(s) => S::on_string(state, s),
        Json::Number(n) => S::on_number(state, n),
        Json::Boolean(b) => S::on_bool(state, b),
        Json::Null => S::on_null(state),
        Json::Object(members) => S::on_end_object(
            write_members::<S>(S::on_begin_object(state), members, members.len()),
        ),
        Json::Array(items) => S::on_end_array(
            write_items::<S>(S::on_begin_array(state), items, items.len()),
        ),
    }
}

/// The state of a format after it has taken the first `upto` of `members`
/// as properties.
pub open spec fn write_members<S: Serializer>(
    state: S::State,
    members: Seq<(Seq<char>, Json)>,
    upto: nat,
) -> S::State
    decreases members, upto,
{
    if upto == 0 || upto > members.len() {
        state
    } else {
        S::on_end_property(
            write_value::<S>(
                S::on_key(write_members::<S>(state, members, (upto - 1) as nat), members[upto - 1].0),
                members[upto - 1].1,
            ),
        )
    }
}

/// The state of a format after it has taken the first `upto` of `items` as
/// elements.
pub open spec fn write_items<S: Serializer>(state: S::State, items: Seq<Json>, upto: nat) -> S::State
    decreases items, upto,
{
    if upto == 0 || upto > items.len() {
        state
    } else {
        S::on_end_element(
            write_value::<S>(write_items::<S>(state, items, (upto - 1) as nat), items[upto - 1]),
        )
    }
}

/// A format that hands out a builder for the properties of an object. The
/// builder holds the serializer until the object is ended. What it writes,
/// each format says of its own builder.
pub trait AsObjectSerializer<'a> {
    type ObjectSerializer: ObjectSerializer;

    /// Opens an object.
    fn begin_object(&'a mut self) -> Self::ObjectSerializer;
}

/// A format that hands out a builder for the elements of an array. The
/// builder holds the serializer until the array is ended. What it writes,
/// each format says of its own builder.
pub trait AsArraySerializer<'a> {
    type ArraySerializer: ArraySerializer;

    /// Opens an array.
    fn begin_array(&'a mut self) -> Self::ArraySerializer;
}

/// An object that is being written.
pub trait ObjectSerializer {
    /// Writes one property: the key, then the value as it writes itself.
    fn property<V: Serialize>(&mut self, name: &str, value: &V);

    /// Closes the object.
    fn end_object(self);
}

/// An array that is being written.
pub trait ArraySerializer {
    /// Writes one element, as it writes itself.
    fn value<V: Serialize>(&mut self, value: &V);

    /// Closes the array.
    fn end_array(self);
}

/// A type that can be written to any format.
pub trait Serialize {
    /// The value that this stands for. A type that does not say has some
    /// value, of which nothing is known.
    open spec fn shape(&self) -> Json {
        arbitrary()
    }

    /// Writes this to `serializer` as the value it stands for.
    fn serialize<S: Serializer>(&self, serializer: &mut S)
        ensures
            final(serializer).state() == write_value::<S>(old(serializer).state(), self.shape()),
    ;
}

impl Serialize for &str {
    open spec fn shape(&self) -> Json {
        Json::String(self@)
    }

    fn serialize<S: Serializer>(&self, serializer: &mut S) {
        serializer.string(self)
    }
}

impl Serialize for String {
    open spec fn shape(&self) -> Json {
        Json::String(self@)
    }

    fn serialize<S: Serializer>(&self, serializer: &mut S) {
        serializer.string(self.as_str())
    }
}

impl Serialize for i32 {
    open spec fn shape(&self) -> Json {
        Json::Number(NumberModel::of_int(*self as int))
    }

    fn serialize<S: Serializer>(&self, serializer: &mut S) {
        serializer.i64(*self as i64)
    }
}

impl Serialize for i64 {
    open spec fn shape(&self) -> Json {
        Json::Number(NumberModel::of_int(*self as int))
    }

    fn serialize<S: Serializer>(&self, serializer: &mut S) {
        serializer.i64(*self)
    }
}

impl Serialize for usize {
    open spec fn shape(&self) -> Json {
        Json::Number(NumberModel::of_int(*self as int))
    }

    fn serialize<S: Serializer>(&self, serializer: &mut S) {
        serializer.number(&Number::from_u64(*self as u64))
    }
}

impl Serialize for bool {
    open spec fn shape(&self) -> Json {
        Json::Boolean(*self)
    }

    fn serialize<S: Serializer>(&self, serializer: &mut S) {
        serializer.bool(*self)
    }
}

impl Serialize for Number {
    open spec fn shape(&self) -> Json {
        Json::Number(self@)
    }

    fn serialize<S: Serializer>(&self, serializer: &mut S) {
        serializer.number(self)
    }
}

/// What the elements of a slice stand for, in order.
pub open spec fn shapes<T: Serialize>(items: Seq<T>) -> Seq<Json> {
    Seq::new(items.len(), |i: int| items[i].shape())
}

/// Writes `items` to `serializer` as the elements of an array.
pub fn serialize_items<T: Serialize, S: Serializer>(items: &[T], serializer: &mut S)
    ensures
        final(serializer).state() == write_value::<S>(
            old(serializer).state(),
            Json::Array(shapes(items@)),
        ),
{
    let ghost model = shapes(items@);
    serializer.open_array();
    let ghost begun = serializer.state();
    let mut i: usize = 0;
    while i < items.len()
        invariant
            i <= items.len(),
            model == shapes(items@),
            serializer.state() == write_items::<S>(begun, model, i as nat),
        decreases items.len() - i,
    {
        items[i].serialize(serializer);
        serializer.end_element();
        i += 1;
    }
    serializer.close_array();
}

impl<T: Serialize> Serialize for Vec<T> {
    open spec fn shape(&self) -> Json {
        Json::Array(shapes(self@))
    }

    fn serialize<S: Serializer>(&self, serializer: &mut S) {
        serialize_items(self.as_slice(), serializer)
    }
}

impl<T: Serialize> Serialize for [T] {
    open spec fn shape(&self) -> Json {
        Json::Array(shapes(self@))
    }

    fn serialize<S: Serializer>(&self, serializer: &mut S) {
        serialize_items(self, serializer)
    }
}

impl<T: Serialize, const N: usize> Serialize for [T; N] {
    open spec fn shape(&self) -> Json {
        Json::Array(shapes(self@))
    }

    fn serialize<S: Serializer>(&self, serializer: &mut S) {
        serialize_items(self.as_slice(), serializer)
    }
}

impl<T: Serialize> Serialize for Option<T> {
    open spec fn shape(&self) -> Json {
        match self {
            Some(value) => value.shape(),
            None => Json::Null,
        }
    }

    fn serialize<S: Serializer>(&self, serializer: &mut S) {
        match self {
            Some(value) => value.serialize(serializer),
            None => serializer.null(),
        }
    }
}

} // verus!
